use dirtree::agreement::render_stepwise;
use dirtree::tree::{render, Entry};
use dirtree::walk::{Action, DepthState, Event, Listed, Walker};

fn file(name: &str) -> Entry {
    Entry { name: name.to_string(), children: Vec::new() }
}

fn dir(name: &str, children: Vec<Entry>) -> Entry {
    Entry { name: name.to_string(), children }
}

fn sample() -> Entry {
    dir(
        "r",
        vec![
            dir("a", vec![file("a1"), dir("a2", vec![file("deep")])]),
            file("m"),
            dir("b", vec![dir("b1", vec![file("b1x"), file("b1y")])]),
        ],
    )
}

fn listed(name: &str, handle: u32) -> Listed<u32> {
    Listed { name: name.to_string(), handle }
}

/// Steps a walker over a tree in memory, as a caller with a file system
/// would: prints by keeping the line, lists by looking at the entry.
/// Returns the lines and the names of the entries that were listed.
fn drive(root: &Entry, max_depth: u32) -> (Vec<String>, Vec<String>) {
    let mut lines = Vec::new();
    let mut asked = Vec::new();
    let mut walker = Walker::new(root.name.clone(), root, max_depth);
    let mut event = Event::Resume;
    loop {
        let (next, action) = walker.step(event);
        walker = next;
        match action {
            Action::Print(line) => {
                lines.push(line);
                event = Event::Resume;
            }
            Action::List(entry) => {
                asked.push(entry.name.clone());
                event = if entry.children.is_empty() {
                    Event::Resume
                } else {
                    Event::Listing(
                        entry
                            .children
                            .iter()
                            .map(|child| Listed { name: child.name.clone(), handle: child })
                            .collect(),
                    )
                };
            }
            Action::Done => return (lines, asked),
        }
    }
}

#[test]
fn walk_of_two_directories_and_a_file_step_by_step() {
    // a holds b and c, b holds x; the handles are numbers.
    let walker = Walker::new("a".to_string(), 0u32, 2);
    let (walker, action) = walker.step(Event::Resume);
    assert_eq!(action, Action::Print("a".to_string()));
    let (walker, action) = walker.step(Event::Resume);
    assert_eq!(action, Action::List(0));
    let (walker, action) = walker.step(Event::Listing(vec![listed("b", 1), listed("c", 2)]));
    assert_eq!(action, Action::Print("├── b".to_string()));
    let (walker, action) = walker.step(Event::Resume);
    assert_eq!(action, Action::List(1));
    let (walker, action) = walker.step(Event::Listing(vec![listed("x", 3)]));
    assert_eq!(action, Action::Print("|   └── x".to_string()));
    let (walker, action) = walker.step(Event::Resume);
    assert_eq!(action, Action::List(3));
    let (walker, action) = walker.step(Event::Resume);
    assert_eq!(action, Action::Print("└── c".to_string()));
    let (walker, action) = walker.step(Event::Resume);
    assert_eq!(action, Action::List(2));
    let (walker, action) = walker.step(Event::Listing(Vec::new()));
    assert_eq!(action, Action::Done);
    let (_, action) = walker.step(Event::Resume);
    assert_eq!(action, Action::Done);
}

#[test]
fn walk_with_depth_zero_lists_the_root_alone() {
    let walker = Walker::new("a".to_string(), 0u32, 0);
    let (walker, action) = walker.step(Event::Resume);
    assert_eq!(action, Action::Print("a".to_string()));
    let (walker, action) = walker.step(Event::Resume);
    assert_eq!(action, Action::List(0));
    let (walker, action) = walker.step(Event::Listing(vec![listed("b", 1), listed("c", 2)]));
    assert_eq!(action, Action::Print("├── b".to_string()));
    let (walker, action) = walker.step(Event::Resume);
    assert_eq!(action, Action::Print("└── c".to_string()));
    let (_, action) = walker.step(Event::Resume);
    assert_eq!(action, Action::Done);
}

#[test]
fn walk_of_a_root_that_is_no_directory_prints_one_line() {
    let walker = Walker::new("notes.txt".to_string(), (), 2);
    let (walker, action) = walker.step(Event::Resume);
    assert_eq!(action, Action::Print("notes.txt".to_string()));
    let (walker, action) = walker.step(Event::Resume);
    assert_eq!(action, Action::List(()));
    let (_, action) = walker.step(Event::Resume);
    assert_eq!(action, Action::Done);
}

#[test]
fn a_listing_that_was_not_asked_for_is_left_aside() {
    let walker = Walker::new("a".to_string(), 0u32, 2);
    let (walker, action) = walker.step(Event::Listing(vec![listed("stray", 9)]));
    assert_eq!(action, Action::Print("a".to_string()));
    let (walker, action) = walker.step(Event::Resume);
    assert_eq!(action, Action::List(0));
    let (_, action) = walker.step(Event::Resume);
    assert_eq!(action, Action::Done);
}

#[test]
fn an_entry_is_listed_only_after_its_line_and_never_beyond_the_depth() {
    let tree = sample();
    let (_, asked) = drive(&tree, 0);
    assert_eq!(asked, vec!["r"]);
    let (_, asked) = drive(&tree, 1);
    assert_eq!(asked, vec!["r", "a", "m", "b"]);
    let (_, asked) = drive(&tree, 2);
    assert_eq!(asked, vec!["r", "a", "a1", "a2", "m", "b", "b1"]);
    let (_, asked) = drive(&tree, 3);
    assert_eq!(asked, vec!["r", "a", "a1", "a2", "deep", "m", "b", "b1", "b1x", "b1y"]);
}

#[test]
fn a_walk_brings_the_lines_of_the_rendering() {
    let tree = sample();
    for max_depth in 0..5u32 {
        let (lines, _) = drive(&tree, max_depth);
        assert_eq!(lines, render(&tree, max_depth));
        assert_eq!(render_stepwise(&tree, max_depth), render(&tree, max_depth));
    }
    assert_eq!(render_stepwise(&file("f"), 2), vec!["f"]);
    assert_eq!(
        render_stepwise(&dir("a", vec![dir("b", vec![file("x")]), dir("c", vec![])]), 2),
        vec!["a", "├── b", "|   └── x", "└── c"]
    );
}

#[test]
fn walking_twice_gives_the_same_lines() {
    let tree = sample();
    assert_eq!(drive(&tree, 2), drive(&tree, 2));
    assert_eq!(render_stepwise(&tree, 2), render_stepwise(&tree, 2));
}

#[test]
fn the_root_state_has_no_indentation_and_no_closed_level() {
    let root = DepthState::root();
    assert_eq!(root.indent(), 0);
    assert_eq!(root.depth(), 0);
    for level in 0..5u32 {
        assert!(!root.is_closed(level));
    }
    assert_eq!(root.line(false, "x"), "├── x");
    assert_eq!(root.line(true, ""), "└── ");
}

#[test]
fn a_child_state_is_one_level_in_and_closes_the_level_of_a_last_entry() {
    let root = DepthState::root();
    let open = root.child(false);
    let closed = root.child(true);
    assert_eq!((open.indent(), open.depth()), (1, 1));
    assert_eq!((closed.indent(), closed.depth()), (1, 1));
    assert!(!open.is_closed(0));
    assert!(closed.is_closed(0));
    assert_eq!(open.line(true, "x"), "|   └── x");
    assert_eq!(closed.line(true, "x"), "    └── x");
    // The parent is left as it was, and siblings do not see each other.
    assert!(!root.is_closed(0));
    let below = closed.child(false).child(true);
    assert_eq!(below.indent(), 3);
    assert!(below.is_closed(0) && !below.is_closed(1) && below.is_closed(2));
    assert_eq!(below.line(false, "y"), "    |       ├── y");
    assert!(!open.is_closed(2));
}

#[test]
fn closed_levels_lie_below_the_indentation() {
    let mut state = DepthState::root();
    for step in 0..20u32 {
        for level in state.indent()..state.indent() + 5 {
            assert!(!state.is_closed(level));
        }
        assert_eq!(state.indent(), state.depth());
        state = state.child(step % 3 == 0);
    }
}
