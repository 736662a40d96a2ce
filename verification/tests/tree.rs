use dirtree::tree::{render, render_subtree, Entry};
use std::collections::HashSet;

fn file(name: &str) -> Entry {
    Entry { name: name.to_string(), children: Vec::new() }
}

fn dir(name: &str, children: Vec<Entry>) -> Entry {
    Entry { name: name.to_string(), children }
}

/// A chain `n0/n1/.../n{len-1}` below a root `top`.
fn chain(len: usize) -> Entry {
    let mut entry = file(&format!("n{}", len - 1));
    for i in (0..len - 1).rev() {
        entry = dir(&format!("n{}", i), vec![entry]);
    }
    dir("top", vec![entry])
}

fn sample() -> Entry {
    dir(
        "r",
        vec![
            dir("a", vec![file("a1"), dir("a2", vec![file("deep")])]),
            file("m"),
            dir("b", vec![dir("b1", vec![file("b1x"), file("b1y")])]),
        ],
    )
}

#[test]
fn two_directories_and_a_file_below_the_first() {
    let a = dir("a", vec![dir("b", vec![file("x")]), dir("c", vec![])]);
    assert_eq!(render(&a, 2), vec!["a", "├── b", "|   └── x", "└── c"]);
}

#[test]
fn a_root_without_entries_is_one_line() {
    assert_eq!(render(&file("notes.txt"), 2), vec!["notes.txt"]);
    assert_eq!(render(&file("some/path/notes.txt"), 0), vec!["some/path/notes.txt"]);
    assert_eq!(render(&dir("empty", vec![]), 7), vec!["empty"]);
}

#[test]
fn depth_zero_lists_the_root_and_its_entries_and_nothing_below() {
    assert_eq!(render(&sample(), 0), vec!["r", "├── a", "├── m", "└── b"]);
}

#[test]
fn depth_one_lists_two_levels() {
    assert_eq!(
        render(&sample(), 1),
        vec!["r", "├── a", "|   ├── a1", "|   └── a2", "├── m", "└── b", "    └── b1"]
    );
}

#[test]
fn below_a_last_entry_the_column_is_blank() {
    assert_eq!(
        render(&sample(), 2),
        vec![
            "r",
            "├── a",
            "|   ├── a1",
            "|   └── a2",
            "|       └── deep",
            "├── m",
            "└── b",
            "    └── b1",
            "        ├── b1x",
            "        └── b1y",
        ]
    );
}

#[test]
fn a_depth_beyond_the_tree_changes_nothing() {
    assert_eq!(render(&sample(), 2), render(&sample(), 3));
    assert_eq!(render(&sample(), 2), render(&sample(), u32::MAX));
}

#[test]
fn a_chain_is_cut_one_level_below_the_depth() {
    let top = chain(6);
    for max_depth in 0..8u32 {
        let lines = render(&top, max_depth);
        let shown = std::cmp::min(max_depth as usize + 1, 6);
        assert_eq!(lines.len(), 1 + shown);
        assert_eq!(lines[0], "top");
        for i in 0..shown {
            assert_eq!(lines[1 + i], format!("{}└── n{}", "    ".repeat(i), i));
        }
    }
}

fn entries_within(entry: &Entry, levels: u32) -> usize {
    let mut count = entry.children.len();
    if levels > 0 {
        for child in &entry.children {
            count += entries_within(child, levels - 1);
        }
    }
    count
}

#[test]
fn there_is_one_line_for_the_root_and_one_for_each_entry_in_reach() {
    let tree = sample();
    assert_eq!(entries_within(&tree, 0), 3);
    assert_eq!(entries_within(&tree, 1), 6);
    assert_eq!(entries_within(&tree, 2), 9);
    for max_depth in 0..5u32 {
        assert_eq!(render(&tree, max_depth).len(), 1 + entries_within(&tree, max_depth));
    }
}

#[test]
fn each_line_has_a_column_for_each_ancestor_and_the_connector_of_its_place() {
    let tree = sample();
    let lines = render(&tree, 3);
    // r/a/a2/deep: a is not the last of r, a2 is the last of a, deep the last of a2.
    let deep: Vec<char> = lines[4].chars().collect();
    assert_eq!(deep.len(), 4 * 2 + 3 + 1 + 4);
    assert_eq!(deep[0..4].iter().collect::<String>(), "|   ");
    assert_eq!(deep[4..8].iter().collect::<String>(), "    ");
    assert_eq!(deep[8..11].iter().collect::<String>(), "└──");
    assert_eq!(deep[11], ' ');
    assert_eq!(deep[12..].iter().collect::<String>(), "deep");
    // r/b/b1/b1x: b is the last of r, b1 the last of b, b1x not the last of b1.
    let b1x: Vec<char> = lines[8].chars().collect();
    assert_eq!(b1x[0..4].iter().collect::<String>(), "    ");
    assert_eq!(b1x[4..8].iter().collect::<String>(), "    ");
    assert_eq!(b1x[8..11].iter().collect::<String>(), "├──");
}

#[test]
fn only_the_last_entry_of_a_directory_gets_the_corner() {
    let wide = dir("w", vec![file("1"), file("2"), file("3"), file("4")]);
    assert_eq!(render(&wide, 2), vec!["w", "├── 1", "├── 2", "├── 3", "└── 4"]);
    let single = dir("w", vec![file("only")]);
    assert_eq!(render(&single, 2), vec!["w", "└── only"]);
}

#[test]
fn rendering_twice_gives_the_same_lines() {
    let tree = sample();
    assert_eq!(render(&tree, 2), render(&tree, 2));
    assert_eq!(tree, sample());
}

#[test]
fn names_are_printed_as_they_are() {
    let odd = dir("a dir/", vec![file(""), file("  two  words "), file("ünï├──")]);
    assert_eq!(
        render(&odd, 1),
        vec!["a dir/", "├── ", "├──   two  words ", "└── ünï├──"]
    );
}

#[test]
fn subtree_beyond_the_depth_adds_nothing() {
    let mut out = vec!["kept".to_string()];
    render_subtree(&sample(), 3, HashSet::new(), 3, 2, &mut out);
    assert_eq!(out, vec!["kept"]);
    render_subtree(&sample(), 0, HashSet::new(), 1, 0, &mut out);
    assert_eq!(out, vec!["kept"]);
}

#[test]
fn subtree_at_depth_zero_starts_with_its_own_name() {
    let mut out = vec!["kept".to_string()];
    render_subtree(&dir("d", vec![file("f")]), 0, HashSet::new(), 0, 0, &mut out);
    assert_eq!(out, vec!["kept", "d", "└── f"]);
}

#[test]
fn subtree_below_depth_zero_prints_its_entries_only() {
    let mut out: Vec<String> = Vec::new();
    let closed: HashSet<u32> = [0u32].into_iter().collect();
    let tree = dir("d", vec![dir("e", vec![file("g")]), file("f")]);
    render_subtree(&tree, 2, closed, 2, 3, &mut out);
    assert_eq!(out, vec!["    |   ├── e", "    |   |   └── g", "    |   └── f"]);
}

#[test]
fn subtree_closes_the_depth_of_the_directory_not_its_indentation() {
    let mut out: Vec<String> = Vec::new();
    let tree = dir("d", vec![dir("e", vec![file("g")])]);
    render_subtree(&tree, 2, HashSet::new(), 1, 3, &mut out);
    // Below the last entry `e` the level 1 is closed, the level 2 is not.
    assert_eq!(out, vec!["|   |   └── e", "|       |   └── g"]);
}

#[test]
fn subtree_at_the_depth_limit_lists_its_entries_and_stops() {
    let mut out: Vec<String> = Vec::new();
    render_subtree(&sample(), 1, HashSet::new(), 4, 4, &mut out);
    assert_eq!(out, vec!["|   ├── a", "|   ├── m", "|   └── b"]);
    let mut out: Vec<String> = Vec::new();
    render_subtree(&chain(4), 0, HashSet::new(), u32::MAX, u32::MAX, &mut out);
    assert_eq!(out, vec!["└── n0"]);
}
