use vstd::arithmetic::div_mod::{
    lemma_div_is_ordered, lemma_fundamental_div_mod, lemma_div_basics,
};
use vstd::arithmetic::mul::lemma_mul_upper_bound;
use vstd::prelude::*;

verus! {

/// The order in which rendered rows are emitted.
#[derive(Debug, Clone, Copy, PartialEq, Eq, Structural)]
pub enum Direction {
    /// The root row is emitted last, like a terminal scrollback.
    BottomUp,
    /// The root row is emitted first.
    TopDown,
}

impl Direction {
    /// Build a direction from a top-down flag.
    pub fn from_top_down(top_down: bool) -> (r: Direction)
        ensures
            r == (if top_down {
                Direction::TopDown
            } else {
                Direction::BottomUp
            }),
    {
        if top_down {
            Direction::TopDown
        } else {
            Direction::BottomUp
        }
    }
}

/// Where a node stands among its siblings.
#[derive(Debug, Clone, Copy, PartialEq, Eq, Structural)]
pub enum ChildPosition {
    /// The first of several siblings.
    First,
    /// Neither first nor last.
    Middle,
    /// The last of several siblings.
    Last,
    /// An only child.
    Only,
}

/// Classify the sibling at `index` out of `count` siblings.
pub open spec fn classify_child(index: int, count: int) -> ChildPosition {
    if count == 1 {
        ChildPosition::Only
    } else if index == 0 {
        ChildPosition::First
    } else if index == count - 1 {
        ChildPosition::Last
    } else {
        ChildPosition::Middle
    }
}

/// Distribution of the width of a line between the tree column and the
/// bar column.
#[derive(Debug, Clone, Copy, PartialEq, Eq, Structural)]
pub enum ColumnWidthDistribution {
    /// One total width, split by the renderer.
    Total {
        /// Total number of characters of both columns together.
        width: usize,
    },
    /// Explicit widths, used verbatim.
    Components {
        /// Number of characters of the tree column.
        tree_column_width: usize,
        /// Number of characters of the bar column.
        bar_column_width: usize,
    },
}

impl ColumnWidthDistribution {
    /// Distribute a total usable width.
    pub fn total(width: usize) -> (r: ColumnWidthDistribution)
        ensures
            r == (ColumnWidthDistribution::Total { width }),
    {
        ColumnWidthDistribution::Total { width }
    }

    /// Set the widths of the two columns explicitly.
    pub fn components(tree_column_width: usize, bar_column_width: usize) -> (r:
        ColumnWidthDistribution)
        ensures
            r == (ColumnWidthDistribution::Components { tree_column_width, bar_column_width }),
    {
        ColumnWidthDistribution::Components { tree_column_width, bar_column_width }
    }

    /// The effective pair of widths: a total width is split evenly, with
    /// the bar taking the remainder, so the two never exceed the total;
    /// explicit components are returned unchanged.
    pub fn widths(&self) -> (r: (usize, usize))
        ensures
            r == self.widths_spec(),
    {
        match *self {
            ColumnWidthDistribution::Total { width } => (width / 2, width - width / 2),
            ColumnWidthDistribution::Components { tree_column_width, bar_column_width } => (
                tree_column_width,
                bar_column_width,
            ),
        }
    }

    /// The effective pair of widths, as `widths` computes it.
    pub open spec fn widths_spec(self) -> (usize, usize) {
        match self {
            ColumnWidthDistribution::Total { width } => (
                (width / 2) as usize,
                (width - width / 2) as usize,
            ),
            ColumnWidthDistribution::Components { tree_column_width, bar_column_width } => (
                tree_column_width,
                bar_column_width,
            ),
        }
    }
}

/// In the total-width mode the two columns never exceed the total; in the
/// component mode the given widths are used verbatim.
pub proof fn lemma_column_widths_fit(d: ColumnWidthDistribution)
    ensures
        d is Total ==> d.widths_spec().0 + d.widths_spec().1 == d->Total_width,
        d is Components ==> d.widths_spec() == (d->tree_column_width, d->bar_column_width),
{
}

/// Integer division of `a` by `b`, rounded half up.
pub open spec fn rdiv(a: int, b: int) -> int
    recommends
        0 < b,
{
    a / b + if 2 * (a % b) >= b {
        1int
    } else {
        0int
    }
}

/// Relies on `rounded_div::u128`: it returns the quotient plus one
/// exactly when twice the remainder reaches the divisor. The divisor is
/// kept below 2^64 so that the crate's internal doubling of the remainder
/// cannot wrap.
#[verifier::external_body]
fn rounded_div_u128(dividend: u128, divisor: u128) -> (r: u128)
    requires
        0 < divisor,
        divisor <= u64::MAX as u128,
    ensures
        r as int == rdiv(dividend as int, divisor as int),
{
    rounded_div::u128(dividend, divisor)
}

/// The proportion of `width` that `data` holds of `total`, rounded half
/// up; zero when the total is zero, so an empty tree renders empty bars.
pub open spec fn proportion(data: u64, width: int, total: int) -> int {
    if total == 0 {
        0
    } else {
        rdiv(data * width, total)
    }
}

/// Rounded division is monotone in the dividend.
pub proof fn lemma_rdiv_monotone(a: int, b: int, t: int)
    requires
        0 <= a <= b,
        0 < t,
    ensures
        rdiv(a, t) <= rdiv(b, t),
{
    lemma_div_is_ordered(a, b, t);
    if a / t == b / t {
        lemma_fundamental_div_mod(a, t);
        lemma_fundamental_div_mod(b, t);
        assert(a % t <= b % t);
    }
}

/// A part never draws a wider proportion than the whole, and the whole
/// draws exactly the full width.
pub proof fn lemma_proportion_bounds(data: u64, width: int, total: int)
    requires
        0 <= width,
        data <= total,
    ensures
        0 <= proportion(data, width, total) <= width,
        data == total && total > 0 ==> proportion(data, width, total) == width,
    decreases 0int,
{
    if total > 0 {
        assert(0 <= data * width <= total * width && total * width == width * total) by (nonlinear_arith)
            requires
                0 <= data <= total,
                0 <= width,
        ;
        let a = data * width;
        let w = total * width;
        lemma_div_basics(total);
        assert(w / total == width) by {
            vstd::arithmetic::div_mod::lemma_div_multiples_vanish(width, total);
        }
        assert(w % total == 0) by {
            vstd::arithmetic::div_mod::lemma_fundamental_div_mod(w, total);
        }
        lemma_rdiv_monotone(a, w, total);
        assert(rdiv(w, total) == width);
        lemma_fundamental_div_mod(a, total);
        vstd::arithmetic::div_mod::lemma_mod_bound(a, total);
        assert(0 <= a / total) by {
            vstd::arithmetic::div_mod::lemma_div_pos_is_pos(a, total);
        }
        assert(0 <= rdiv(a, total));
    }
}

/// Heavier data draws a proportion at least as wide.
pub proof fn lemma_proportion_monotone(d1: u64, d2: u64, width: int, total: int)
    requires
        0 <= width,
        0 <= total,
        d1 <= d2,
    ensures
        proportion(d1, width, total) <= proportion(d2, width, total),
{
    if total > 0 {
        assert(0 <= d1 * width <= d2 * width) by (nonlinear_arith)
            requires
                0 <= d1 <= d2,
                0 <= width,
        ;
        lemma_rdiv_monotone(d1 * width, d2 * width, total);
    }
}

/// One visible row of the visualization: a node's name and weight, the
/// weights of its nearest-to-root ancestors (at most four), its depth and
/// its place among its siblings.
pub struct Row {
    /// Name of the node.
    pub name: String,
    /// Weight of the node.
    pub data: u64,
    /// Weights of the ancestors, root first, truncated to four levels.
    pub ancestor_data: Vec<u64>,
    /// Depth of the node below the root; the root itself has depth zero.
    pub depth: usize,
    /// Place of the node among its siblings.
    pub position: ChildPosition,
}

/// Mathematical model of a row.
#[verifier::ext_equal]
pub ghost struct RowV {
    /// Name of the node.
    pub name: Seq<char>,
    /// Weight of the node.
    pub data: u64,
    /// Weights of the ancestors, root first, truncated to four levels.
    pub ancestor_data: Seq<u64>,
    /// Depth of the node below the root.
    pub depth: int,
    /// Place of the node among its siblings.
    pub position: ChildPosition,
}

impl Row {
    /// Model of this row.
    pub open spec fn view(self) -> RowV {
        RowV {
            name: self.name@,
            data: self.data,
            ancestor_data: self.ancestor_data@,
            depth: self.depth as int,
            position: self.position,
        }
    }
}

/// A row drawn against a total weight: the node is no heavier than any of
/// its recorded ancestors, the ancestors are recorded root first and get
/// lighter from the root down, and nothing outweighs the total.
pub open spec fn row_wf(r: RowV, total: int) -> bool {
    &&& r.data <= total
    &&& forall|i: int|
        0 <= i < r.ancestor_data.len() ==> r.data <= #[trigger] r.ancestor_data[i] <= total
    &&& forall|i: int, j: int|
        0 <= i <= j < r.ancestor_data.len() ==> r.ancestor_data[i] >= r.ancestor_data[j]
}

/// The ancestor chain handed to the children of a node whose own chain is
/// `anc`: the node's weight is appended while fewer than four levels are
/// recorded.
pub open spec fn child_chain(anc: Seq<u64>, data: u64) -> Seq<u64> {
    if anc.len() < 4 {
        anc.push(data)
    } else {
        anc
    }
}

/// The rows of the subtree `t`, depth first, the node's own row first;
/// descent stops when the depth budget is spent.
pub open spec fn rows_of(
    t: crate::tree::TreeV<String>,
    anc: Seq<u64>,
    depth: int,
    budget: int,
    pos: ChildPosition,
) -> Seq<RowV>
    decreases t,
{
    let row = RowV {
        name: t.name@,
        data: t.data,
        ancestor_data: anc,
        depth: depth,
        position: pos,
    };
    if budget <= 1 {
        seq![row]
    } else {
        seq![row] + rows_of_children(
            t.children,
            t.children.len() as int,
            child_chain(anc, t.data),
            depth + 1,
            budget - 1,
        )
    }
}

/// The rows of the first trees of a sibling list, in order; `count` is
/// the full number of siblings, used to classify each one's place.
pub open spec fn rows_of_children(
    s: Seq<crate::tree::TreeV<String>>,
    count: int,
    anc: Seq<u64>,
    depth: int,
    budget: int,
) -> Seq<RowV>
    decreases s,
{
    if s.len() == 0 {
        Seq::empty()
    } else {
        rows_of_children(s.drop_last(), count, anc, depth, budget) + rows_of(
            s.last(),
            anc,
            depth,
            budget,
            classify_child(s.len() - 1, count),
        )
    }
}

/// Extending a processed prefix of a sibling list by one tree appends
/// exactly that tree's rows.
pub proof fn lemma_rows_of_children_step(
    s: Seq<crate::tree::TreeV<String>>,
    count: int,
    anc: Seq<u64>,
    depth: int,
    budget: int,
    j: int,
)
    requires
        0 <= j < s.len(),
    ensures
        rows_of_children(s.take(j + 1), count, anc, depth, budget) == rows_of_children(
            s.take(j),
            count,
            anc,
            depth,
            budget,
        ) + rows_of(s[j], anc, depth, budget, classify_child(j, count)),
{
    assert(s.take(j + 1).drop_last() =~= s.take(j));
    assert(s.take(j + 1).last() == s[j]);
}

/// The nested bar of one row: the number of visible characters at each of
/// the five levels, innermost first.
#[derive(Debug, Clone, Copy, PartialEq, Eq, Structural)]
pub struct ProportionBar {
    /// Visible width of the row's own proportion.
    pub level0: usize,
    /// Visible width of the third-deepest recorded ancestor level.
    pub level1: usize,
    /// Visible width of the second-deepest recorded ancestor level.
    pub level2: usize,
    /// Visible width of the ancestor level just below the root.
    pub level3: usize,
    /// Visible width of the outermost, empty remainder.
    pub level4: usize,
}

/// The nested absolute proportion of a row at bar level one, counted from
/// the row itself outward: the ancestor at chain position three, when the
/// chain is that deep, else the row itself.
pub open spec fn level1_value(r: RowV, width: int, total: int) -> int {
    if r.ancestor_data.len() > 3 {
        proportion(r.ancestor_data[3], width, total)
    } else {
        proportion(r.data, width, total)
    }
}

/// The nested absolute proportion at bar level two.
pub open spec fn level2_value(r: RowV, width: int, total: int) -> int {
    if r.ancestor_data.len() > 2 {
        proportion(r.ancestor_data[2], width, total)
    } else {
        level1_value(r, width, total)
    }
}

/// The nested absolute proportion at bar level three.
pub open spec fn level3_value(r: RowV, width: int, total: int) -> int {
    if r.ancestor_data.len() > 1 {
        proportion(r.ancestor_data[1], width, total)
    } else {
        level2_value(r, width, total)
    }
}

/// The bar of a row: each level's visible width is that level's nested
/// proportion minus the one inside it; the outermost level always closes
/// the bar at the full width.
pub open spec fn bar_spec(r: RowV, width: int, total: int) -> ProportionBar {
    let v0 = proportion(r.data, width, total);
    let v1 = level1_value(r, width, total);
    let v2 = level2_value(r, width, total);
    let v3 = level3_value(r, width, total);
    ProportionBar {
        level0: v0 as usize,
        level1: (v1 - v0) as usize,
        level2: (v2 - v1) as usize,
        level3: (v3 - v2) as usize,
        level4: (width - v3) as usize,
    }
}

/// The nested proportions of a well-formed row grow monotonically from
/// the row itself out to the full width.
pub proof fn lemma_bar_monotone(r: RowV, width: int, total: int)
    requires
        row_wf(r, total),
        0 <= width,
        0 <= total,
    ensures
        0 <= proportion(r.data, width, total),
        proportion(r.data, width, total) <= level1_value(r, width, total),
        level1_value(r, width, total) <= level2_value(r, width, total),
        level2_value(r, width, total) <= level3_value(r, width, total),
        level3_value(r, width, total) <= width,
{
    lemma_proportion_bounds(r.data, width, total);
    if r.ancestor_data.len() > 3 {
        lemma_proportion_monotone(r.data, r.ancestor_data[3], width, total);
    }
    if r.ancestor_data.len() > 2 {
        if r.ancestor_data.len() > 3 {
            lemma_proportion_monotone(r.ancestor_data[3], r.ancestor_data[2], width, total);
        } else {
            lemma_proportion_monotone(r.data, r.ancestor_data[2], width, total);
        }
    }
    if r.ancestor_data.len() > 1 {
        if r.ancestor_data.len() > 2 {
            lemma_proportion_monotone(r.ancestor_data[2], r.ancestor_data[1], width, total);
        } else if r.ancestor_data.len() > 3 {
        } else {
            lemma_proportion_monotone(r.data, r.ancestor_data[1], width, total);
        }
        lemma_proportion_bounds(r.ancestor_data[1], width, total);
    } else {
        if r.ancestor_data.len() > 2 {
            lemma_proportion_bounds(r.ancestor_data[2], width, total);
        } else if r.ancestor_data.len() > 3 {
        } else {
        }
    }
    if r.ancestor_data.len() > 3 {
        lemma_proportion_bounds(r.ancestor_data[3], width, total);
    }
    if r.ancestor_data.len() == 1 {
        lemma_proportion_bounds(r.ancestor_data[0], width, total);
    }
}

/// Compute one row's nested bar. The five visible widths always add up
/// to the full bar width, and each is non-negative.
pub fn bar_for_row(row: &Row, width: usize, total: u64) -> (b: ProportionBar)
    requires
        row_wf(row@, total as int),
    ensures
        b == bar_spec(row@, width as int, total as int),
        b.level0 + b.level1 + b.level2 + b.level3 + b.level4 == width,
{
    proof {
        lemma_bar_monotone(row@, width as int, total as int);
        lemma_proportion_bounds(row.data, width as int, total as int);
    }
    let v0 = proportion_exec(row.data, width, total);
    let v1 = if row.ancestor_data.len() > 3 {
        proportion_exec(row.ancestor_data[3], width, total)
    } else {
        v0
    };
    let v2 = if row.ancestor_data.len() > 2 {
        proportion_exec(row.ancestor_data[2], width, total)
    } else {
        v1
    };
    let v3 = if row.ancestor_data.len() > 1 {
        proportion_exec(row.ancestor_data[1], width, total)
    } else {
        v2
    };
    ProportionBar {
        level0: v0,
        level1: v1 - v0,
        level2: v2 - v1,
        level3: v3 - v2,
        level4: width - v3,
    }
}

/// Compute the proportion of `width` that `data` holds of `total`.
fn proportion_exec(data: u64, width: usize, total: u64) -> (r: usize)
    requires
        data <= total,
    ensures
        r as int == proportion(data, width as int, total as int),
        r <= width,
{
    proof {
        lemma_proportion_bounds(data, width as int, total as int);
    }
    if total == 0 {
        0
    } else {
        proof {
            lemma_mul_upper_bound(data as int, u64::MAX as int, width as int, u64::MAX as int);
        }
        let q = rounded_div_u128((data as u128) * (width as u128), total as u128);
        q as usize
    }
}

/// Compute the bars of all rows against the given total weight and bar
/// width. For every row the five visible widths add up to the full bar
/// width.
pub fn render_bars(rows: &Vec<Row>, total: u64, width: usize) -> (bars: Vec<ProportionBar>)
    requires
        forall|i: int| 0 <= i < rows@.len() ==> row_wf((#[trigger] rows@[i])@, total as int),
    ensures
        bars@.len() == rows@.len(),
        forall|i: int|
            0 <= i < rows@.len() ==> #[trigger] bars@[i] == bar_spec(
                rows@[i]@,
                width as int,
                total as int,
            ),
        forall|i: int|
            0 <= i < rows@.len() ==> (#[trigger] bars@[i]).level0 + bars@[i].level1
                + bars@[i].level2 + bars@[i].level3 + bars@[i].level4 == width,
{
    let mut bars: Vec<ProportionBar> = Vec::new();
    let mut i: usize = 0;
    while i < rows.len()
        invariant
            0 <= i <= rows@.len(),
            bars@.len() == i as int,
            forall|k: int| 0 <= k < rows@.len() ==> row_wf((#[trigger] rows@[k])@, total as int),
            forall|k: int|
                0 <= k < i as int ==> #[trigger] bars@[k] == bar_spec(
                    rows@[k]@,
                    width as int,
                    total as int,
                ),
            forall|k: int|
                0 <= k < i as int ==> (#[trigger] bars@[k]).level0 + bars@[k].level1
                    + bars@[k].level2 + bars@[k].level3 + bars@[k].level4 == width,
        decreases rows@.len() - i,
    {
        let b = bar_for_row(&rows[i], width, total);
        bars.push(b);
        i = i + 1;
    }
    bars
}

/// `n` copies of the character `c`; empty when `n` is not positive.
pub open spec fn repeat_char(c: char, n: int) -> Seq<char> {
    if n <= 0 {
        Seq::empty()
    } else {
        Seq::new(n as nat, |i: int| c)
    }
}

/// Truncate or pad `s` with spaces to exactly `w` characters.
pub open spec fn fit_to(s: Seq<char>, w: int) -> Seq<char> {
    if s.len() >= w {
        s.take(w)
    } else {
        s + repeat_char(' ', w - s.len())
    }
}

/// The characters of the indentation of a row at `depth`, two spaces per
/// level below the root's children, capped at the tree column width.
pub open spec fn indent_len(depth: int, tw: int) -> int {
    if depth <= 0 {
        0
    } else if 2 * (depth - 1) > tw {
        tw
    } else {
        2 * (depth - 1)
    }
}

/// The branch glyph of a row: nothing for the root; a tee for a sibling
/// with further siblings below it, an ell for the last or only sibling.
pub open spec fn glyph(pos: ChildPosition, depth: int) -> Seq<char> {
    if depth <= 0 {
        Seq::empty()
    } else if pos == ChildPosition::First || pos == ChildPosition::Middle {
        seq!['|', '-']
    } else {
        seq!['`', '-']
    }
}

/// The tree column cell of a row: indentation, branch glyph and name,
/// truncated or padded to the tree column width.
pub open spec fn tree_cell(r: RowV, tw: int) -> Seq<char> {
    fit_to(repeat_char(' ', indent_len(r.depth, tw)) + glyph(r.position, r.depth) + r.name, tw)
}

/// The bar column cell of a row: the five visible segments, innermost
/// first, each drawn with its own character.
pub open spec fn bar_text(r: RowV, width: int, total: int) -> Seq<char> {
    let b = bar_spec(r, width, total);
    repeat_char('#', b.level0 as int) + repeat_char('=', b.level1 as int) + repeat_char(
        '-',
        b.level2 as int,
    ) + repeat_char('.', b.level3 as int) + repeat_char(' ', b.level4 as int)
}

/// One printed line: the tree column cell joined with the bar column cell.
pub open spec fn line_of(r: RowV, tw: int, bw: int, total: int) -> Seq<char> {
    tree_cell(r, tw) + bar_text(r, bw, total)
}

/// Append `n` copies of the single character of `piece` to `s`.
fn push_repeated(s: &mut String, piece: &str, n: usize)
    requires
        piece@.len() == 1,
    ensures
        final(s)@ == old(s)@ + repeat_char(piece@[0], n as int),
{
    let mut k: usize = 0;
    while k < n
        invariant
            0 <= k <= n,
            piece@.len() == 1,
            s@ == old(s)@ + repeat_char(piece@[0], k as int),
        decreases n - k,
    {
        s.append(piece);
        k = k + 1;
        proof {
            assert(piece@ =~= seq![piece@[0]]);
            assert(repeat_char(piece@[0], k as int) =~= repeat_char(piece@[0], k - 1).push(
                piece@[0],
            ));
            assert(old(s)@ + repeat_char(piece@[0], k as int) =~= (old(s)@ + repeat_char(
                piece@[0],
                k - 1,
            )) + piece@);
        }
    }
}

/// Render the tree column cell of a row.
fn render_tree_cell(row: &Row, tw: usize) -> (s: String)
    ensures
        s@ == tree_cell(row@, tw as int),
{
    let mut full = String::new();
    let indent_n: usize = if row.depth == 0 {
        0
    } else if row.depth - 1 > tw / 2 {
        tw
    } else {
        2 * (row.depth - 1)
    };
    proof {
        assert(indent_n as int == indent_len(row@.depth, tw as int));
        reveal_strlit(" ");
        reveal_strlit("|-");
        reveal_strlit("`-");
    }
    push_repeated(&mut full, " ", indent_n);
    if row.depth > 0 {
        match row.position {
            ChildPosition::First => full.append("|-"),
            ChildPosition::Middle => full.append("|-"),
            ChildPosition::Last => full.append("`-"),
            ChildPosition::Only => full.append("`-"),
        }
    }
    full.append(row.name.as_str());
    proof {
        assert(full@ =~= repeat_char(' ', indent_len(row@.depth, tw as int)) + glyph(
            row@.position,
            row@.depth,
        ) + row@.name);
    }
    let len = full.as_str().unicode_len();
    if len >= tw {
        let cut = full.as_str().substring_char(0, tw);
        let r = cut.to_owned();
        proof {
            assert(r@ =~= tree_cell(row@, tw as int));
        }
        r
    } else {
        push_repeated(&mut full, " ", tw - len);
        proof {
            assert(full@ =~= tree_cell(row@, tw as int));
        }
        full
    }
}

/// Render the bar column cell of a row.
fn render_bar_cell(row: &Row, width: usize, total: u64) -> (s: String)
    requires
        row_wf(row@, total as int),
    ensures
        s@ == bar_text(row@, width as int, total as int),
{
    let b = bar_for_row(row, width, total);
    let mut s = String::new();
    proof {
        reveal_strlit("#");
        reveal_strlit("=");
        reveal_strlit("-");
        reveal_strlit(".");
        reveal_strlit(" ");
    }
    push_repeated(&mut s, "#", b.level0);
    push_repeated(&mut s, "=", b.level1);
    push_repeated(&mut s, "-", b.level2);
    push_repeated(&mut s, ".", b.level3);
    push_repeated(&mut s, " ", b.level4);
    proof {
        assert(s@ =~= bar_text(row@, width as int, total as int));
    }
    s
}

/// Every row flattened out of a well-formed tree is well-formed against
/// the total: no node outweighs its recorded ancestors or the total, and
/// each recorded chain gets lighter from the root down.
pub proof fn lemma_rows_of_wf(
    t: crate::tree::TreeV<String>,
    anc: Seq<u64>,
    depth: int,
    budget: int,
    pos: ChildPosition,
    total: int,
)
    requires
        t.wf(),
        t.data <= total,
        forall|i: int| 0 <= i < anc.len() ==> t.data <= #[trigger] anc[i] <= total,
        forall|i: int, j: int| 0 <= i <= j < anc.len() ==> anc[i] >= anc[j],
    ensures
        forall|i: int|
            0 <= i < rows_of(t, anc, depth, budget, pos).len() ==> row_wf(
                #[trigger] rows_of(t, anc, depth, budget, pos)[i],
                total,
            ),
    decreases t,
{
    let rows = rows_of(t, anc, depth, budget, pos);
    let row0 = RowV { name: t.name@, data: t.data, ancestor_data: anc, depth: depth, position: pos };
    assert(row_wf(row0, total));
    if budget <= 1 {
        assert(rows[0] == row0);
    } else {
        let c_anc = child_chain(anc, t.data);
        let c = t.children;
        assert forall|k: int| 0 <= k < c.len() implies (#[trigger] c[k]).wf() && c[k].data
            <= t.data by {
            crate::tree::lemma_sum_data_member(c, k);
        }
        lemma_rows_of_children_wf(c, c.len() as int, c_anc, depth + 1, budget - 1, total, t.data);
        let sub = rows_of_children(c, c.len() as int, c_anc, depth + 1, budget - 1);
        assert forall|i: int| 0 <= i < rows.len() implies row_wf(#[trigger] rows[i], total) by {
            if i == 0 {
                assert(rows[i] == row0);
            } else {
                assert(rows[i] == sub[i - 1]);
            }
        }
    }
}

/// Companion of `lemma_rows_of_wf` for a sibling list whose members all
/// weigh at most `bound`, against an ancestor chain that ends no lighter
/// than `bound`.
proof fn lemma_rows_of_children_wf(
    s: Seq<crate::tree::TreeV<String>>,
    count: int,
    anc: Seq<u64>,
    depth: int,
    budget: int,
    total: int,
    bound: u64,
)
    requires
        bound <= total,
        forall|k: int| 0 <= k < s.len() ==> (#[trigger] s[k]).wf(),
        forall|k: int| 0 <= k < s.len() ==> (#[trigger] s[k]).data <= bound,
        forall|i: int| 0 <= i < anc.len() ==> bound <= #[trigger] anc[i] <= total,
        forall|i: int, j: int| 0 <= i <= j < anc.len() ==> anc[i] >= anc[j],
    ensures
        forall|i: int|
            0 <= i < rows_of_children(s, count, anc, depth, budget).len() ==> row_wf(
                #[trigger] rows_of_children(s, count, anc, depth, budget)[i],
                total,
            ),
    decreases s,
{
    if s.len() > 0 {
        assert(forall|k: int| 0 <= k < s.len() - 1 ==> s.drop_last()[k] == s[k]);
        lemma_rows_of_children_wf(s.drop_last(), count, anc, depth, budget, total, bound);
        lemma_rows_of_wf(s.last(), anc, depth, budget, classify_child(s.len() - 1, count), total);
        let head = rows_of_children(s.drop_last(), count, anc, depth, budget);
        let tail = rows_of(s.last(), anc, depth, budget, classify_child(s.len() - 1, count));
        let rows = rows_of_children(s, count, anc, depth, budget);
        assert forall|i: int| 0 <= i < rows.len() implies row_wf(#[trigger] rows[i], total) by {
            if i < head.len() {
                assert(rows[i] == head[i]);
            } else {
                assert(rows[i] == tail[i - head.len()]);
            }
        }
    }
}

/// Copy a list of weights.
fn copy_u64s(v: &Vec<u64>) -> (r: Vec<u64>)
    ensures
        r@ == v@,
{
    let mut r: Vec<u64> = Vec::new();
    let mut i: usize = 0;
    while i < v.len()
        invariant
            0 <= i <= v@.len(),
            r@ =~= v@.take(i as int),
        decreases v@.len() - i,
    {
        r.push(v[i]);
        i = i + 1;
    }
    proof {
        assert(v@.take(v@.len() as int) =~= v@);
    }
    r
}

/// Flatten the subtree `t` into rows, depth first, the node's own row
/// first, stopping descent when the depth budget is spent.
#[verifier::loop_isolation(false)]
fn collect_rows(
    t: &crate::tree::Tree<String>,
    anc: &Vec<u64>,
    depth: usize,
    budget: usize,
    pos: ChildPosition,
) -> (out: Vec<Row>)
    requires
        1 <= budget,
        depth + budget <= usize::MAX,
    ensures
        out@.len() == rows_of(t@, anc@, depth as int, budget as int, pos).len(),
        forall|i: int|
            0 <= i < out@.len() ==> (#[trigger] out@[i])@ == rows_of(
                t@,
                anc@,
                depth as int,
                budget as int,
                pos,
            )[i],
    decreases *t,
{
    let ghost target = rows_of(t@, anc@, depth as int, budget as int, pos);
    let mut out: Vec<Row> = Vec::new();
    let row = Row {
        name: t.name.clone(),
        data: t.data,
        ancestor_data: copy_u64s(anc),
        depth: depth,
        position: pos,
    };
    out.push(row);
    proof {
        assert(out@[0]@ =~= target[0]);
    }
    if budget >= 2 {
        let mut child_anc = copy_u64s(anc);
        if child_anc.len() < 4 {
            child_anc.push(t.data);
        }
        proof {
            assert(child_anc@ == child_chain(anc@, t@.data)) by {
                if anc@.len() < 4 {
                    assert(child_anc@ =~= anc@.push(t@.data));
                } else {
                    assert(child_anc@ =~= anc@);
                }
            }
            crate::tree::lemma_views_of(t.children@);
        }
        let ghost cviews = crate::tree::views_of(t.children@);
        let n = t.children.len();
        let mut j: usize = 0;
        while j < n
            invariant
                0 <= j <= n,
                out@.len() == 1 + rows_of_children(
                    cviews.take(j as int),
                    n as int,
                    child_anc@,
                    depth + 1,
                    budget - 1,
                ).len(),
                forall|i: int|
                    0 <= i < out@.len() ==> (#[trigger] out@[i])@ == (seq![target[0]]
                        + rows_of_children(
                        cviews.take(j as int),
                        n as int,
                        child_anc@,
                        depth + 1,
                        budget - 1,
                    ))[i],
            decreases n - j,
        {
            let c = &t.children[j];
            proof {
                assert(decreases_to!(*t => t.children));
                assert(decreases_to!(t.children => t.children@));
                assert(decreases_to!(t.children@ => t.children@[j as int]));
                assert(decreases_to!(*t => *c));
            }
            let pos_j = if n == 1 {
                ChildPosition::Only
            } else if j == 0 {
                ChildPosition::First
            } else if j == n - 1 {
                ChildPosition::Last
            } else {
                ChildPosition::Middle
            };
            proof {
                assert(pos_j == classify_child(j as int, n as int));
            }
            let mut sub = collect_rows(c, &child_anc, depth + 1, budget - 1, pos_j);
            out.append(&mut sub);
            proof {
                lemma_rows_of_children_step(
                    cviews,
                    n as int,
                    child_anc@,
                    depth + 1,
                    budget - 1,
                    j as int,
                );
                assert(c@ == cviews[j as int]);
            }
            j = j + 1;
        }
        proof {
            assert(cviews.take(n as int) =~= cviews);
            assert(target == seq![target[0]] + rows_of_children(
                cviews,
                n as int,
                child_anc@,
                depth + 1,
                budget - 1,
            ));
        }
    }
    out
}

/// Visualize a disk-usage tree as fixed-width text rows with nested
/// proportional bars.
#[derive(Debug, Clone, Copy, PartialEq, Eq, Structural)]
pub struct Visualize {
    /// The direction of the visualization of the tree.
    pub direction: Direction,
    /// Distribution and total number of characters of a line.
    pub column_width_distribution: ColumnWidthDistribution,
    /// Maximum number of levels that should be visualized.
    pub max_depth: usize,
}

/// How many levels of the tree a maximum depth lets through: the root
/// plus `max_depth` levels below it.
pub open spec fn level_budget(max_depth: usize) -> int {
    if max_depth < usize::MAX {
        max_depth + 1
    } else {
        usize::MAX as int
    }
}

impl Visualize {
    /// Render the tree: one line per visible node, each line exactly the
    /// tree column width plus the bar column width, in depth-first order
    /// for the top-down direction and reversed for the bottom-up one.
    /// Rows are emitted for the root and for `max_depth` levels below it;
    /// deeper nodes fold invisibly into their ancestors' bars.
    pub fn render(&self, tree: &crate::tree::Tree<String>) -> (lines: Vec<String>)
        requires
            self.max_depth >= 1,
            tree@.wf(),
        ensures
            ({
                let rws = rows_of(
                    tree@,
                    Seq::empty(),
                    0,
                    level_budget(self.max_depth),
                    ChildPosition::Only,
                );
                let tw = self.column_width_distribution.widths_spec().0 as int;
                let bw = self.column_width_distribution.widths_spec().1 as int;
                let total = tree@.data as int;
                &&& lines@.len() == rws.len()
                &&& (self.direction == Direction::TopDown ==> forall|i: int|
                    0 <= i < rws.len() ==> (#[trigger] lines@[i])@ == line_of(
                        rws[i],
                        tw,
                        bw,
                        total,
                    ))
                &&& (self.direction == Direction::BottomUp ==> forall|i: int|
                    0 <= i < rws.len() ==> (#[trigger] lines@[i])@ == line_of(
                        rws[rws.len() - 1 - i],
                        tw,
                        bw,
                        total,
                    ))
            }),
    {
        let ghost rws = rows_of(
            tree@,
            Seq::empty(),
            0,
            level_budget(self.max_depth),
            ChildPosition::Only,
        );
        let budget: usize = if self.max_depth < usize::MAX {
            self.max_depth + 1
        } else {
            usize::MAX
        };
        let (tw, bw) = self.column_width_distribution.widths();
        let anc: Vec<u64> = Vec::new();
        let rows = collect_rows(tree, &anc, 0, budget, ChildPosition::Only);
        proof {
            lemma_rows_of_wf(
                tree@,
                Seq::empty(),
                0,
                level_budget(self.max_depth),
                ChildPosition::Only,
                tree@.data as int,
            );
        }
        let total = tree.data;
        let mut forward: Vec<String> = Vec::new();
        let mut i: usize = 0;
        while i < rows.len()
            invariant
                0 <= i <= rows@.len(),
                rows@.len() == rws.len(),
                forall|k: int| 0 <= k < rws.len() ==> (#[trigger] rows@[k])@ == rws[k],
                forall|k: int| 0 <= k < rws.len() ==> row_wf(#[trigger] rws[k], tree@.data as int),
                total == tree@.data,
                tw == self.column_width_distribution.widths_spec().0,
                bw == self.column_width_distribution.widths_spec().1,
                forward@.len() == i as int,
                forall|k: int|
                    0 <= k < i as int ==> (#[trigger] forward@[k])@ == line_of(
                        rws[k],
                        tw as int,
                        bw as int,
                        tree@.data as int,
                    ),
            decreases rows@.len() - i,
        {
            let mut cell = render_tree_cell(&rows[i], tw);
            let bar = render_bar_cell(&rows[i], bw, total);
            cell.append(bar.as_str());
            forward.push(cell);
            i = i + 1;
        }
        match self.direction {
            Direction::TopDown => forward,
            Direction::BottomUp => {
                let mut rev: Vec<String> = Vec::new();
                let ghost m = forward@.len() as int;
                let ghost fwd = forward@;
                while forward.len() > 0
                    invariant
                        forward@.len() + rev@.len() == m,
                        forall|k: int|
                            0 <= k < forward@.len() ==> #[trigger] forward@[k] == fwd[k],
                        forall|k: int|
                            0 <= k < rev@.len() ==> #[trigger] rev@[k] == fwd[m - 1 - k],
                    decreases forward@.len(),
                {
                    let ghost before = forward@;
                    let last = forward.pop().unwrap();
                    proof {
                        assert(before[before.len() - 1] == fwd[before.len() - 1]);
                        assert(forall|k: int|
                            0 <= k < forward@.len() ==> #[trigger] forward@[k] == before[k]);
                    }
                    rev.push(last);
                }
                rev
            },
        }
    }
}

} // verus!
