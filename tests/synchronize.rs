use backup_sync::sync::{is_newer, synchronize, Action};
use backup_sync::tree::{is_well_formed, Node};

fn file(name: &str, mtime: i128) -> Node {
    Node::File { name: name.to_string(), mtime }
}

fn dir(name: &str, children: Vec<Node>) -> Node {
    Node::Dir { name: name.to_string(), children }
}

fn path(parts: &[&str]) -> Vec<String> {
    parts.iter().map(|s| s.to_string()).collect()
}

fn copy(parts: &[&str]) -> Action {
    Action::CopyFile { path: path(parts) }
}

fn mkdir(parts: &[&str]) -> Action {
    Action::CreateDir { path: path(parts) }
}

fn sorted(mut plan: Vec<Action>) -> Vec<Action> {
    plan.sort();
    plan
}

#[test]
fn example_scenario() {
    let current = vec![
        file("a.txt", 20),
        file("b.txt", 30),
        dir("newdir", vec![file("x.txt", 5)]),
    ];
    let reference = vec![file("a.txt", 10), file("b.txt", 30)];
    let plan = synchronize(&current, &reference);
    assert_eq!(
        sorted(plan),
        sorted(vec![copy(&["a.txt"]), mkdir(&["newdir"]), copy(&["newdir", "x.txt"])])
    );
}

#[test]
fn new_file_is_copied() {
    let current = vec![file("new.txt", 1)];
    let reference = vec![file("other.txt", 100)];
    assert_eq!(synchronize(&current, &reference), vec![copy(&["new.txt"])]);
}

#[test]
fn equal_times_are_not_copied() {
    let current = vec![file("same.txt", 42)];
    let reference = vec![file("same.txt", 42)];
    assert!(synchronize(&current, &reference).is_empty());
}

#[test]
fn older_file_is_not_copied() {
    let current = vec![file("old.txt", 5)];
    let reference = vec![file("old.txt", 6)];
    assert!(synchronize(&current, &reference).is_empty());
}

#[test]
fn newer_file_is_copied_by_one_nanosecond() {
    let current = vec![file("f", -4)];
    let reference = vec![file("f", -5)];
    assert_eq!(synchronize(&current, &reference), vec![copy(&["f"])]);
}

#[test]
fn missing_subtree_copied_regardless_of_times() {
    let current = vec![dir(
        "d",
        vec![
            file("old.txt", 1),
            dir("e", vec![file("deep.txt", 2)]),
            dir("empty", vec![]),
        ],
    )];
    let reference = vec![dir("other", vec![file("old.txt", 1000)])];
    let plan = synchronize(&current, &reference);
    assert_eq!(
        sorted(plan),
        sorted(vec![
            mkdir(&["d"]),
            copy(&["d", "old.txt"]),
            mkdir(&["d", "e"]),
            copy(&["d", "e", "deep.txt"]),
            mkdir(&["d", "empty"]),
        ])
    );
}

#[test]
fn siblings_after_missing_subtree_are_still_processed() {
    let current = vec![
        dir("missing", vec![file("m.txt", 1)]),
        file("later.txt", 9),
        dir("kept", vec![file("k.txt", 3)]),
    ];
    let reference = vec![file("later.txt", 8), dir("kept", vec![file("k.txt", 3)])];
    let plan = synchronize(&current, &reference);
    assert_eq!(
        sorted(plan),
        sorted(vec![mkdir(&["missing"]), copy(&["missing", "m.txt"]), copy(&["later.txt"])])
    );
}

#[test]
fn existing_directory_is_compared_recursively() {
    let current = vec![dir(
        "src",
        vec![file("changed.rs", 11), file("same.rs", 7), file("added.rs", 1)],
    )];
    let reference = vec![dir("src", vec![file("changed.rs", 10), file("same.rs", 7)])];
    let plan = synchronize(&current, &reference);
    assert_eq!(
        sorted(plan),
        sorted(vec![copy(&["src", "changed.rs"]), copy(&["src", "added.rs"])])
    );
}

#[test]
fn reference_file_in_place_of_directory_copies_subtree() {
    let current = vec![dir("x", vec![file("y", 1)])];
    let reference = vec![file("x", 100)];
    let plan = synchronize(&current, &reference);
    assert_eq!(sorted(plan), sorted(vec![mkdir(&["x"]), copy(&["x", "y"])]));
}

#[test]
fn reference_directory_in_place_of_file_copies_file() {
    let current = vec![file("x", 1)];
    let reference = vec![dir("x", vec![file("x", 100)])];
    assert_eq!(synchronize(&current, &reference), vec![copy(&["x"])]);
}

#[test]
fn empty_current_tree_plans_nothing() {
    let current: Vec<Node> = vec![];
    let reference = vec![file("a", 1), dir("b", vec![])];
    assert!(synchronize(&current, &reference).is_empty());
}

#[test]
fn empty_reference_tree_copies_everything() {
    let current = vec![file("a", 1), dir("b", vec![file("c", 2)])];
    let reference: Vec<Node> = vec![];
    let plan = synchronize(&current, &reference);
    assert_eq!(
        sorted(plan),
        sorted(vec![copy(&["a"]), mkdir(&["b"]), copy(&["b", "c"])])
    );
}

#[test]
fn existing_empty_directory_is_not_created() {
    let current = vec![dir("e", vec![])];
    let reference = vec![dir("e", vec![])];
    assert!(synchronize(&current, &reference).is_empty());
}

#[test]
fn same_trees_give_same_plan() {
    let current = vec![file("a", 3), dir("d", vec![file("b", 4), dir("n", vec![])])];
    let reference = vec![file("a", 2), dir("d", vec![file("b", 4)])];
    let first = synchronize(&current, &reference);
    let second = synchronize(&current, &reference);
    assert_eq!(first, second);
    assert_eq!(sorted(first), sorted(vec![copy(&["a"]), mkdir(&["d", "n"])]));
}

#[test]
fn plan_never_leaves_the_current_tree() {
    let current = vec![dir("d", vec![file("f", 1)])];
    let reference = vec![dir("d", vec![file("g", 1)]), file("h", 0), dir("z", vec![])];
    let plan = synchronize(&current, &reference);
    assert_eq!(plan, vec![copy(&["d", "f"])]);
}

#[test]
fn newer_comparison() {
    assert!(is_newer(2, 1));
    assert!(!is_newer(1, 1));
    assert!(!is_newer(-3, 0));
}

#[test]
fn well_formed_trees() {
    let good = vec![file("a", 1), dir("b", vec![file("a", 2), dir("c", vec![])])];
    assert!(is_well_formed(&good));
    assert!(is_well_formed(&vec![]));
}

#[test]
fn duplicate_names_are_not_well_formed() {
    let flat = vec![file("a", 1), dir("a", vec![])];
    assert!(!is_well_formed(&flat));
    let nested = vec![file("a", 1), dir("b", vec![file("c", 1), file("c", 2)])];
    assert!(!is_well_formed(&nested));
}
