use dirtree::prefix::{
    create_prefix, update_indexes, CHILD_PREFIX, CLOSED_COLUMN, LAST_CHILD_PREFIX, OPEN_COLUMN,
};
use std::collections::HashSet;

fn levels(list: &[u32]) -> HashSet<u32> {
    list.iter().copied().collect()
}

#[test]
fn glyphs_are_the_tee_the_corner_the_bar_and_the_blank() {
    assert_eq!(CHILD_PREFIX, "├──");
    assert_eq!(LAST_CHILD_PREFIX, "└──");
    assert_eq!(OPEN_COLUMN, "|   ");
    assert_eq!(CLOSED_COLUMN, "    ");
}

#[test]
fn prefix_of_a_top_level_entry_is_the_connector_alone() {
    let closed = levels(&[]);
    assert_eq!(create_prefix(0, false, &closed), "├──");
    assert_eq!(create_prefix(0, true, &closed), "└──");
}

#[test]
fn prefix_draws_a_bar_for_each_open_level() {
    let closed = levels(&[]);
    assert_eq!(create_prefix(1, false, &closed), "|   ├──");
    assert_eq!(create_prefix(3, true, &closed), "|   |   |   └──");
}

#[test]
fn prefix_leaves_a_closed_level_blank() {
    assert_eq!(create_prefix(1, true, &levels(&[0])), "    └──");
    assert_eq!(create_prefix(2, true, &levels(&[0])), "    |   └──");
    assert_eq!(create_prefix(3, false, &levels(&[1])), "|       |   ├──");
    assert_eq!(create_prefix(3, false, &levels(&[0, 1, 2])), "            ├──");
}

#[test]
fn prefix_ignores_closed_levels_at_the_indentation_or_beyond() {
    assert_eq!(create_prefix(2, false, &levels(&[2, 3, 40])), "|   |   ├──");
    assert_eq!(create_prefix(0, true, &levels(&[0])), "└──");
}

#[test]
fn prefix_has_four_characters_for_each_level_and_three_for_the_connector() {
    let closed = levels(&[1, 4, 6]);
    for indent in 0..10u32 {
        for is_last_child in [false, true] {
            let prefix: Vec<char> = create_prefix(indent, is_last_child, &closed).chars().collect();
            let width = 4 * indent as usize;
            assert_eq!(prefix.len(), width + 3);
            for level in 0..indent as usize {
                let column: String = prefix[4 * level..4 * level + 4].iter().collect();
                let expected = if closed.contains(&(level as u32)) { "    " } else { "|   " };
                assert_eq!(column, expected);
            }
            let connector: String = prefix[width..].iter().collect();
            assert_eq!(connector, if is_last_child { "└──" } else { "├──" });
        }
    }
}

#[test]
fn update_indexes_adds_the_level_and_leaves_the_argument_alone() {
    let closed = levels(&[0]);
    let updated = update_indexes(&closed, 2);
    assert_eq!(closed, levels(&[0]));
    assert_eq!(updated, levels(&[0, 2]));
}

#[test]
fn update_indexes_with_a_level_already_closed_changes_nothing() {
    let closed = levels(&[1, 3]);
    assert_eq!(update_indexes(&closed, 3), levels(&[1, 3]));
    assert_eq!(update_indexes(&levels(&[]), 0), levels(&[0]));
}
