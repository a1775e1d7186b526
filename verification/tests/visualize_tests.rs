use dirt::tree::Tree;
use dirt::visualize::{
    bar_for_row, render_bars, ChildPosition, ColumnWidthDistribution, Direction, ProportionBar,
    Row, Visualize,
};

fn leaf(name: &str, data: u64) -> Tree<String> {
    Tree::file(name.to_string(), data)
}

#[test]
fn total_width_splits_without_exceeding_the_total() {
    let d = ColumnWidthDistribution::total(80);
    let (tree_width, bar_width) = d.widths();
    assert_eq!((tree_width, bar_width), (40, 40));
    assert!(tree_width + bar_width <= 80);
    let odd = ColumnWidthDistribution::total(81);
    let (tw, bw) = odd.widths();
    assert!(tw + bw <= 81);
    assert_eq!(tw + bw, 81);
}

#[test]
fn component_widths_are_used_verbatim() {
    let d = ColumnWidthDistribution::components(30, 50);
    assert_eq!(d.widths(), (30, 50));
}

#[test]
fn direction_from_top_down_flag() {
    assert_eq!(Direction::from_top_down(true), Direction::TopDown);
    assert_eq!(Direction::from_top_down(false), Direction::BottomUp);
}

#[test]
fn bar_levels_always_fill_the_width() {
    let row = Row {
        name: "node".to_string(),
        data: 25,
        ancestor_data: vec![100, 50],
        depth: 2,
        position: ChildPosition::Only,
    };
    let b = bar_for_row(&row, 8, 100);
    assert_eq!(
        b,
        ProportionBar { level0: 2, level1: 0, level2: 0, level3: 2, level4: 4 },
    );
    assert_eq!(b.level0 + b.level1 + b.level2 + b.level3 + b.level4, 8);
}

#[test]
fn bar_rounds_half_up() {
    // 1/3 of 10 is 3.33, rounded to 3; 2/3 of 10 is 6.67, rounded to 7;
    // 1/4 of 10 is 2.5, rounded half up to 3.
    let mk = |data: u64, total: u64, width: usize| {
        let row = Row {
            name: String::new(),
            data,
            ancestor_data: vec![],
            depth: 0,
            position: ChildPosition::Only,
        };
        bar_for_row(&row, width, total).level0
    };
    assert_eq!(mk(1, 3, 10), 3);
    assert_eq!(mk(2, 3, 10), 7);
    assert_eq!(mk(1, 4, 10), 3);
}

#[test]
fn zero_total_renders_empty_bars() {
    let row = Row {
        name: "empty".to_string(),
        data: 0,
        ancestor_data: vec![],
        depth: 0,
        position: ChildPosition::Only,
    };
    let b = bar_for_row(&row, 10, 0);
    assert_eq!(b.level0 + b.level1 + b.level2 + b.level3, 0);
    assert_eq!(b.level4, 10);
}

#[test]
fn render_bars_covers_every_row() {
    let rows = vec![
        Row {
            name: "root".to_string(),
            data: 100,
            ancestor_data: vec![],
            depth: 0,
            position: ChildPosition::Only,
        },
        Row {
            name: "a".to_string(),
            data: 60,
            ancestor_data: vec![100],
            depth: 1,
            position: ChildPosition::First,
        },
    ];
    let bars = render_bars(&rows, 100, 10);
    assert_eq!(bars.len(), 2);
    assert_eq!(bars[0].level0, 10);
    assert_eq!(bars[1].level0, 6);
    for b in bars {
        assert_eq!(b.level0 + b.level1 + b.level2 + b.level3 + b.level4, 10);
    }
}

fn three_files_tree() -> Tree<String> {
    Tree::dir(
        "root".to_string(),
        0,
        vec![leaf("f100", 100), leaf("f200", 200), leaf("f300", 300)],
    )
}

#[test]
fn bottom_up_render_puts_the_full_width_root_last() {
    let v = Visualize {
        direction: Direction::BottomUp,
        column_width_distribution: ColumnWidthDistribution::components(12, 10),
        max_depth: 10,
    };
    let lines = v.render(&three_files_tree());
    assert_eq!(lines.len(), 4);
    // every line is exactly tree width plus bar width
    for line in &lines {
        assert_eq!(line.chars().count(), 22);
    }
    // the root comes last, with its bar spanning the full width
    assert_eq!(lines[3], "root        ##########");
    // the 300-byte file's own segment occupies half the bar
    assert_eq!(lines[0], "`-f300      #####     ");
    assert_eq!(lines[1], "|-f200      ###       ");
    assert_eq!(lines[2], "|-f100      ##        ");
}

#[test]
fn top_down_render_is_the_reverse_of_bottom_up() {
    let tree = three_files_tree();
    let mut v = Visualize {
        direction: Direction::TopDown,
        column_width_distribution: ColumnWidthDistribution::components(12, 10),
        max_depth: 10,
    };
    let top_down = v.render(&tree);
    v.direction = Direction::BottomUp;
    let mut bottom_up = v.render(&tree);
    bottom_up.reverse();
    assert_eq!(top_down, bottom_up);
}

#[test]
fn max_depth_one_renders_root_and_immediate_children_only() {
    let grandchild = Tree::dir("gc".to_string(), 0, vec![leaf("deep", 8)]);
    let child = Tree::dir("child".to_string(), 0, vec![grandchild, leaf("near", 8)]);
    let tree = Tree::dir("root".to_string(), 0, vec![child, leaf("top", 16)]);
    let v = Visualize {
        direction: Direction::TopDown,
        column_width_distribution: ColumnWidthDistribution::components(10, 8),
        max_depth: 1,
    };
    let lines = v.render(&tree);
    // exactly the root and its two immediate children: deeper nodes are
    // folded into their ancestors' bars, not rendered and not re-counted
    assert_eq!(lines.len(), 3);
    assert_eq!(lines[0], "root      ########");
    assert_eq!(lines[1], "|-child   ####    ");
    assert_eq!(lines[2], "`-top     ####    ");
}

#[test]
fn deep_nesting_shows_every_bar_level() {
    let d3 = Tree::dir("d3".to_string(), 0, vec![leaf("f", 16)]);
    let d2 = Tree::dir("d2".to_string(), 16, vec![d3]);
    let d1 = Tree::dir("d1".to_string(), 32, vec![d2]);
    let tree = Tree::dir("d0".to_string(), 64, vec![d1]);
    assert_eq!(tree.data(), 128);
    let v = Visualize {
        direction: Direction::TopDown,
        column_width_distribution: ColumnWidthDistribution::components(12, 8),
        max_depth: 10,
    };
    let lines = v.render(&tree);
    assert_eq!(lines.len(), 5);
    assert_eq!(lines[0], "d0          ########");
    assert_eq!(lines[1], "`-d1        ####    ");
    assert_eq!(lines[2], "  `-d2      ##..    ");
    assert_eq!(lines[3], "    `-d3    #-..    ");
    assert_eq!(lines[4], "      `-f   #-..    ");
}

#[test]
fn long_names_are_truncated_to_the_tree_column() {
    let tree = leaf("a-very-long-file-name", 1);
    let v = Visualize {
        direction: Direction::TopDown,
        column_width_distribution: ColumnWidthDistribution::components(8, 4),
        max_depth: 1,
    };
    let lines = v.render(&tree);
    assert_eq!(lines.len(), 1);
    assert_eq!(lines[0], "a-very-l####");
}
