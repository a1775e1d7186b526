use dirt::args::Fraction;
use dirt::tree::{Tree, TreeReflection};

fn leaf(name: &str, data: u64) -> Tree<String> {
    Tree::file(name.to_string(), data)
}

fn refl(name: &str, data: u64, children: Vec<TreeReflection<String>>) -> TreeReflection<String> {
    TreeReflection { name: name.to_string(), data, children }
}

#[test]
fn dir_aggregates_inode_weight_and_children() {
    let t = Tree::dir(
        "root".to_string(),
        10,
        vec![leaf("a", 100), leaf("b", 200), leaf("c", 300)],
    );
    assert_eq!(t.data(), 610);
    assert_eq!(t.name(), "root");
    assert_eq!(t.children().len(), 3);
    assert_eq!(t.children()[0].data(), 100);
    assert_eq!(t.children()[2].data(), 300);
}

#[test]
fn dir_aggregation_is_recursive() {
    let inner = Tree::dir("inner".to_string(), 1, vec![leaf("x", 5), leaf("y", 6)]);
    assert_eq!(inner.data(), 12);
    let outer = Tree::dir("outer".to_string(), 2, vec![inner, leaf("z", 3)]);
    assert_eq!(outer.data(), 17);
}

#[test]
fn file_is_a_childless_leaf() {
    let t = leaf("a", 42);
    assert_eq!(t.data(), 42);
    assert!(t.children().is_empty());
}

#[test]
fn into_reflection_mirrors_the_tree() {
    let t = Tree::dir("root".to_string(), 0, vec![leaf("a", 1), leaf("b", 2)]);
    let r = t.into_reflection();
    let expected = refl("root", 3, vec![refl("a", 1, vec![]), refl("b", 2, vec![])]);
    assert_eq!(r, expected);
}

#[test]
fn reflection_from_equals_into_reflection() {
    let t1 = Tree::dir("root".to_string(), 0, vec![leaf("a", 1)]);
    let t2 = Tree::dir("root".to_string(), 0, vec![leaf("a", 1)]);
    assert_eq!(TreeReflection::from(t1), t2.into_reflection());
}

fn sample_tree() -> Tree<String> {
    let sub = Tree::dir(
        "sub".to_string(),
        0,
        vec![leaf("s1", 10), leaf("s2", 30), leaf("s3", 20)],
    );
    Tree::dir("root".to_string(), 0, vec![leaf("small", 5), sub, leaf("big", 100)])
}

#[test]
fn par_sort_by_orders_heaviest_first_recursively() {
    let mut t = sample_tree();
    t.par_sort_by();
    let r = t.into_reflection();
    assert_eq!(r.data, 165);
    let names: Vec<&str> = r.children.iter().map(|c| c.name.as_str()).collect();
    assert_eq!(names, vec!["big", "sub", "small"]);
    let sub_names: Vec<&str> = r.children[1].children.iter().map(|c| c.name.as_str()).collect();
    assert_eq!(sub_names, vec!["s2", "s3", "s1"]);
}

#[test]
fn par_sort_by_is_idempotent() {
    let mut once = sample_tree();
    once.par_sort_by();
    let mut twice = sample_tree();
    twice.par_sort_by();
    twice.par_sort_by();
    assert_eq!(once.into_reflection(), twice.into_reflection());
}

#[test]
fn into_par_sorted_matches_par_sort_by() {
    let sorted = sample_tree().into_par_sorted();
    let mut t = sample_tree();
    t.par_sort_by();
    assert_eq!(t.into_reflection(), sorted.into_reflection());
}

#[test]
fn sort_keeps_equal_weights_in_given_order() {
    let mut t = Tree::dir(
        "root".to_string(),
        0,
        vec![leaf("first", 7), leaf("second", 7), leaf("third", 7)],
    );
    t.par_sort_by();
    let r = t.into_reflection();
    let names: Vec<&str> = r.children.iter().map(|c| c.name.as_str()).collect();
    assert_eq!(names, vec!["first", "second", "third"]);
}

#[test]
fn cull_removes_the_insignificant_child_and_keeps_the_root_data() {
    let mut t = Tree::dir("root".to_string(), 0, vec![leaf("big", 90), leaf("tiny", 10)]);
    let half = Fraction { numerator: 1, denominator: 2 };
    t.cull_insignificant(&half);
    let r = t.into_reflection();
    assert_eq!(r.data, 100);
    assert_eq!(r.children.len(), 1);
    assert_eq!(r.children[0].name, "big");
}

#[test]
fn cull_is_recursive_against_the_root_weight() {
    let sub = Tree::dir("sub".to_string(), 0, vec![leaf("keep", 50), leaf("drop", 10)]);
    let mut t = Tree::dir("root".to_string(), 0, vec![sub, leaf("other", 40)]);
    let fifth = Fraction { numerator: 1, denominator: 5 };
    t.cull_insignificant(&fifth);
    let r = t.into_reflection();
    assert_eq!(r.data, 100);
    let names: Vec<&str> = r.children.iter().map(|c| c.name.as_str()).collect();
    assert_eq!(names, vec!["sub", "other"]);
    let sub_names: Vec<&str> = r.children[0].children.iter().map(|c| c.name.as_str()).collect();
    assert_eq!(sub_names, vec!["keep"]);
}

#[test]
fn cull_may_remove_every_child_and_the_aggregate_stays() {
    let mut t = Tree::dir("root".to_string(), 98, vec![leaf("a", 1), leaf("b", 1)]);
    let half = Fraction { numerator: 1, denominator: 2 };
    t.cull_insignificant(&half);
    let r = t.into_reflection();
    assert_eq!(r.data, 100);
    assert!(r.children.is_empty());
}

#[test]
fn zero_ratio_culls_nothing() {
    let mut t = Tree::dir("root".to_string(), 0, vec![leaf("a", 1), leaf("b", 999)]);
    let zero = Fraction { numerator: 0, denominator: 1 };
    assert!(zero.is_zero());
    t.cull_insignificant(&zero);
    assert_eq!(t.children().len(), 2);
}
