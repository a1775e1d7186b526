use dirt::app::App;
use dirt::args::{Args, Fraction, Quantity, RuntimeError};
use dirt::scan::{assemble, merge_roots, scan_step, Event, Operation, PathReading};
use dirt::tree::Tree;
use dirt::visualize::ColumnWidthDistribution;

fn leaf(name: &str, data: u64) -> Tree<String> {
    Tree::file(name.to_string(), data)
}

#[test]
fn metadata_failure_yields_a_zero_node_and_one_error_event() {
    let (events, info) = scan_step(PathReading::MetadataFailure);
    assert_eq!(
        events,
        vec![
            Event::BeginScanning,
            Event::EncounterError(Operation::SymlinkMetadata),
        ],
    );
    assert_eq!(info.data, 0);
    assert!(info.children.is_empty());
}

#[test]
fn unreadable_directory_yields_a_zero_node_and_one_error_event() {
    let (events, info) = scan_step(PathReading::DirectoryUnreadable);
    assert_eq!(
        events,
        vec![
            Event::BeginScanning,
            Event::EncounterError(Operation::ReadDirectory),
        ],
    );
    assert_eq!(info.data, 0);
    assert!(info.children.is_empty());
}

#[test]
fn a_file_reports_its_weight_and_has_no_children() {
    let (events, info) = scan_step(PathReading::File { size: 123 });
    assert_eq!(
        events,
        vec![Event::BeginScanning, Event::FinishScanning, Event::ReceiveData(123)],
    );
    assert_eq!(info.data, 123);
    assert!(info.children.is_empty());
}

#[test]
fn failed_entries_are_reported_and_skipped_and_the_rest_survive() {
    let (events, info) = scan_step(PathReading::Directory {
        size: 7,
        entries: vec![
            Some("a".to_string()),
            None,
            Some("b".to_string()),
            None,
        ],
    });
    assert_eq!(
        events,
        vec![
            Event::BeginScanning,
            Event::EncounterError(Operation::AccessEntry),
            Event::EncounterError(Operation::AccessEntry),
            Event::FinishScanning,
            Event::ReceiveData(7),
        ],
    );
    assert_eq!(info.data, 7);
    assert_eq!(info.children, vec!["a".to_string(), "b".to_string()]);
}

#[test]
fn assemble_builds_a_directory_node() {
    let t = assemble("d".to_string(), 5, vec![leaf("a", 10), leaf("b", 20)]);
    assert_eq!(t.data(), 35);
    assert_eq!(t.children().len(), 2);
}

#[test]
fn assemble_zeroes_a_subtree_whose_total_overflows() {
    let t = assemble("d".to_string(), 1, vec![leaf("a", u64::MAX)]);
    assert_eq!(t.data(), 0);
    assert!(t.children().is_empty());
}

#[test]
fn a_single_root_is_not_wrapped() {
    let t = merge_roots(vec![leaf("only", 9)]);
    assert_eq!(t.name(), "only");
    assert_eq!(t.data(), 9);
}

#[test]
fn several_roots_are_wrapped_under_a_synthetic_total() {
    let t = merge_roots(vec![leaf("a", 1), leaf("b", 2)]);
    assert_eq!(t.name(), "(total)");
    assert_eq!(t.data(), 3);
    assert_eq!(t.children().len(), 2);
}

fn base_args() -> Args {
    Args {
        files: vec![],
        top_down: false,
        quantity: Quantity::ApparentSize,
        max_depth: 10,
        total_width: None,
        column_width: None,
        minimal_ratio: Fraction { numerator: 1, denominator: 100 },
        no_sort: false,
        silent_errors: false,
        progress: false,
    }
}

#[test]
fn explicit_total_width_wins() {
    let mut args = base_args();
    args.total_width = Some(100);
    let d = args.column_width_distribution(Some(80)).unwrap();
    assert_eq!(d, ColumnWidthDistribution::total(100));
}

#[test]
fn explicit_component_widths_are_taken_verbatim() {
    let mut args = base_args();
    args.column_width = Some((30, 50));
    let d = args.column_width_distribution(None).unwrap();
    assert_eq!(d, ColumnWidthDistribution::components(30, 50));
}

#[test]
fn terminal_width_is_the_fallback() {
    let args = base_args();
    let d = args.column_width_distribution(Some(80)).unwrap();
    assert_eq!(d, ColumnWidthDistribution::total(80));
}

#[test]
fn no_width_at_all_is_an_error() {
    let args = base_args();
    let e = args.column_width_distribution(None).unwrap_err();
    assert_eq!(e, RuntimeError::TerminalWidthInferenceFailure);
}

#[test]
fn from_env_keeps_the_arguments() {
    let app = App::from_env(base_args());
    assert_eq!(app.args.max_depth, 10);
    assert_eq!(app.args.quantity, Quantity::ApparentSize);
    assert!(!app.args.top_down);
}
