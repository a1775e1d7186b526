use crate::visualize::ColumnWidthDistribution;
use vstd::prelude::*;

verus! {

/// A ratio in the closed interval [0, 1], kept as a pair of integers.
///
/// Used as the minimal proportion of the total size a subtree must hold
/// in order to stay visible after culling; a zero ratio disables culling.
pub struct Fraction {
    /// Numerator of the ratio.
    pub numerator: u64,
    /// Denominator of the ratio; positive, and at least the numerator.
    pub denominator: u64,
}

impl Fraction {
    /// The pair denotes a value in [0, 1].
    pub open spec fn wf(self) -> bool {
        0 < self.denominator && self.numerator <= self.denominator
    }

    /// Whether the ratio is exactly zero, which disables culling.
    pub fn is_zero(&self) -> (r: bool)
        ensures
            r == (self.numerator == 0),
    {
        self.numerator == 0
    }
}

/// A failure that stops the program before any scanning begins.
#[derive(Debug, Clone, Copy, PartialEq, Eq, Structural)]
pub enum RuntimeError {
    /// Neither a total width nor explicit column widths were given, and
    /// the width of the terminal could not be detected.
    TerminalWidthInferenceFailure,
}

/// The aspect of the files and directories to be measured.
#[derive(Debug, Clone, Copy, PartialEq, Eq, Structural)]
pub enum Quantity {
    /// Apparent size in bytes.
    ApparentSize,
    /// Total size of the allocated blocks, in bytes.
    BlockSize,
    /// Number of allocated blocks.
    BlockCount,
}

/// The validated configuration the program runs with; the values arrive
/// pre-validated from the command line.
pub struct Args {
    /// List of files and/or directories to scan.
    pub files: Vec<String>,
    /// Print the rows top-down instead of bottom-up.
    pub top_down: bool,
    /// The aspect of the entries to be measured.
    pub quantity: Quantity,
    /// Maximum number of levels to display; at least one.
    pub max_depth: usize,
    /// Total width of the visualization, split by the renderer.
    pub total_width: Option<usize>,
    /// Explicit widths of the tree column and of the bar column.
    pub column_width: Option<(usize, usize)>,
    /// Minimal proportion of the total size required to stay visible.
    pub minimal_ratio: Fraction,
    /// Preserve the order in which entries were read.
    pub no_sort: bool,
    /// Keep filesystem error messages out of the error stream.
    pub silent_errors: bool,
    /// Report progress being made, at the expense of performance.
    pub progress: bool,
}

impl Args {
    /// The configuration is valid: the depth is positive, the ratio
    /// denotes a value in [0, 1], and at most one of the two width
    /// settings is present.
    pub open spec fn wf(self) -> bool {
        &&& self.max_depth >= 1
        &&& self.minimal_ratio.wf()
        &&& !(self.total_width is Some && self.column_width is Some)
    }

    /// Deduce the column width distribution from the width settings,
    /// falling back to the detected terminal width, which the caller
    /// supplies, when neither setting is present; with nothing to fall
    /// back on, the width cannot be inferred and an error is returned.
    pub fn column_width_distribution(&self, terminal_width: Option<usize>) -> (r: Result<
        ColumnWidthDistribution,
        RuntimeError,
    >)
        requires
            !(self.total_width is Some && self.column_width is Some),
        ensures
            self.total_width is Some ==> r == Ok::<_, RuntimeError>(
                ColumnWidthDistribution::Total { width: self.total_width->0 },
            ),
            self.column_width matches Some((tw, bw)) ==> r == Ok::<_, RuntimeError>(
                ColumnWidthDistribution::Components {
                    tree_column_width: tw,
                    bar_column_width: bw,
                },
            ),
            self.total_width is None && self.column_width is None ==> r == (
            match terminal_width {
                Some(w) => Ok::<_, RuntimeError>(ColumnWidthDistribution::Total { width: w }),
                None => Err::<ColumnWidthDistribution, _>(
                    RuntimeError::TerminalWidthInferenceFailure,
                ),
            }),
    {
        match (self.total_width, self.column_width) {
            (Some(total_width), None) => Ok(ColumnWidthDistribution::total(total_width)),
            (None, Some((tree_width, bar_width))) => Ok(
                ColumnWidthDistribution::components(tree_width, bar_width),
            ),
            _ => match terminal_width {
                Some(width) => Ok(ColumnWidthDistribution::total(width)),
                None => Err(RuntimeError::TerminalWidthInferenceFailure),
            },
        }
    }
}

} // verus!
