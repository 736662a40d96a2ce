//! The prefix that stands before an entry's name on its line: one column of
//! four characters for each ancestor level, then the connector of the entry
//! itself.

use std::collections::HashSet;
use vstd::prelude::*;

verus! {

broadcast use vstd::std_specs::hash::group_hash_axioms;

/// The connector drawn before an entry that has later siblings: `├──`.
pub const CHILD_PREFIX: &'static str = "\u{251c}\u{2500}\u{2500}";

/// The connector drawn before the last entry of a directory: `└──`.
pub const LAST_CHILD_PREFIX: &'static str = "\u{2514}\u{2500}\u{2500}";

/// The column of an ancestor level that still has entries to come.
pub const OPEN_COLUMN: &'static str = "|   ";

/// The column of an ancestor level whose entry was the last of its directory.
pub const CLOSED_COLUMN: &'static str = "    ";

/// The characters of the connector: the corner for a last entry, the tee
/// for any other.
pub open spec fn connector(is_last_child: bool) -> Seq<char> {
    if is_last_child {
        seq!['\u{2514}', '\u{2500}', '\u{2500}']
    } else {
        seq!['\u{251c}', '\u{2500}', '\u{2500}']
    }
}

/// The four characters of one ancestor column: blank when the level is
/// closed, a bar and three blanks when it is open.
pub open spec fn column(closed: bool) -> Seq<char> {
    if closed {
        seq![' ', ' ', ' ', ' ']
    } else {
        seq!['|', ' ', ' ', ' ']
    }
}

/// The columns of the levels `0 .. indent`, in that order.
pub open spec fn columns(indent: nat, closed_levels: Set<nat>) -> Seq<char>
    decreases indent,
{
    if indent == 0 {
        Seq::empty()
    } else {
        columns((indent - 1) as nat, closed_levels) + column(
            closed_levels.contains((indent - 1) as nat),
        )
    }
}

/// The whole prefix: one column per ancestor level, then the connector.
pub open spec fn prefix_of(indent: nat, is_last_child: bool, closed_levels: Set<nat>) -> Seq<char> {
    columns(indent, closed_levels) + connector(is_last_child)
}

/// The four characters that `prefix` holds for the ancestor level `level`.
pub open spec fn column_at(prefix: Seq<char>, level: nat) -> Seq<char> {
    prefix.subrange(4 * level as int, 4 * level as int + 4)
}

/// The three characters of `prefix` that follow the columns of `indent` levels.
pub open spec fn connector_at(prefix: Seq<char>, indent: nat) -> Seq<char> {
    prefix.subrange(4 * indent as int, 4 * indent as int + 3)
}

/// The levels that a set of machine integers holds, as natural numbers.
pub open spec fn level_set(levels: Set<u32>) -> Set<nat> {
    Set::new(|level: nat| level <= u32::MAX && levels.contains(level as u32))
}

/// Whether every closed level lies below `indent`.
pub open spec fn closed_below(closed_levels: Set<nat>, indent: nat) -> bool {
    forall|level: nat| closed_levels.contains(level) ==> level < indent
}

/// The columns of `indent` levels take four characters each, and each one
/// is the column of its own level.
pub proof fn lemma_columns_shape(indent: nat, closed_levels: Set<nat>)
    ensures
        columns(indent, closed_levels).len() == 4 * indent,
        forall|level: nat|
            level < indent ==> #[trigger] column_at(columns(indent, closed_levels), level)
                == column(closed_levels.contains(level)),
    decreases indent,
{
    if indent > 0 {
        let shorter = columns((indent - 1) as nat, closed_levels);
        let whole = columns(indent, closed_levels);
        lemma_columns_shape((indent - 1) as nat, closed_levels);
        assert forall|level: nat| level < indent implies #[trigger] column_at(whole, level)
            == column(closed_levels.contains(level)) by {
            if level + 1 < indent {
                assert(column_at(whole, level) =~= column_at(shorter, level));
            } else {
                assert(column_at(whole, level) =~= column(closed_levels.contains(level)));
            }
        }
    }
}

/// A prefix holds exactly `indent` columns of four characters and then the
/// three characters of the connector. The column of a level is blank if
/// that level is closed and starts with a bar if it is not; the connector
/// is the corner if the entry is the last of its directory and the tee if
/// it is not.
pub proof fn lemma_prefix_shape(indent: nat, is_last_child: bool, closed_levels: Set<nat>)
    ensures
        prefix_of(indent, is_last_child, closed_levels).len() == 4 * indent + 3,
        forall|level: nat|
            level < indent ==> #[trigger] column_at(
                prefix_of(indent, is_last_child, closed_levels),
                level,
            ) == column(closed_levels.contains(level)),
        connector_at(prefix_of(indent, is_last_child, closed_levels), indent) == connector(
            is_last_child,
        ),
{
    let cols = columns(indent, closed_levels);
    let whole = prefix_of(indent, is_last_child, closed_levels);
    lemma_columns_shape(indent, closed_levels);
    assert forall|level: nat| level < indent implies #[trigger] column_at(whole, level) == column(
        closed_levels.contains(level),
    ) by {
        assert(column_at(whole, level) =~= column_at(cols, level));
    }
    assert(connector_at(whole, indent) =~= connector(is_last_child));
}

/// The two columns differ, and so do the two connectors: a column tells
/// whether its level is closed, a connector whether its entry is the last.
pub proof fn lemma_glyphs_tell_apart(a: bool, b: bool)
    ensures
        column(a) == column(b) <==> a == b,
        connector(a) == connector(b) <==> a == b,
{
    if a != b {
        assert(column(a)[0] != column(b)[0]);
        assert(connector(a)[0] != connector(b)[0]);
    }
}

/// A prefix reads only the closed levels below `indent`: two sets that
/// agree there give the same prefix.
pub proof fn lemma_prefix_reads_levels_below_indent(
    indent: nat,
    is_last_child: bool,
    closed_levels: Set<nat>,
    other_levels: Set<nat>,
)
    requires
        forall|level: nat|
            level < indent ==> (closed_levels.contains(level) <==> other_levels.contains(level)),
    ensures
        prefix_of(indent, is_last_child, closed_levels) == prefix_of(
            indent,
            is_last_child,
            other_levels,
        ),
{
    lemma_columns_read_levels_below_indent(indent, closed_levels, other_levels);
}

proof fn lemma_columns_read_levels_below_indent(
    indent: nat,
    closed_levels: Set<nat>,
    other_levels: Set<nat>,
)
    requires
        forall|level: nat|
            level < indent ==> (closed_levels.contains(level) <==> other_levels.contains(level)),
    ensures
        columns(indent, closed_levels) == columns(indent, other_levels),
    decreases indent,
{
    if indent > 0 {
        lemma_columns_read_levels_below_indent((indent - 1) as nat, closed_levels, other_levels);
    }
}

/// Builds the prefix of an entry at indentation level `indent`: for each
/// level below `indent` a blank column if `last_child_indexes` holds the
/// level and a bar column if not, then the connector, which is the corner
/// if the entry is the last of its directory and the tee if not.
pub fn create_prefix(
    indent: u32,
    is_last_child: bool,
    last_child_indexes: &HashSet<u32>,
) -> (prefix: String)
    ensures
        prefix@ == prefix_of(indent as nat, is_last_child, level_set(last_child_indexes@)),
        prefix@.len() == 4 * indent + 3,
        forall|level: nat|
            level < indent ==> #[trigger] column_at(prefix@, level) == column(
                last_child_indexes@.contains(level as u32),
            ),
        connector_at(prefix@, indent as nat) == connector(is_last_child),
        forall|level: nat|
            level < indent ==> (#[trigger] column_at(prefix@, level) == column(true)
                <==> last_child_indexes@.contains(level as u32)),
        connector_at(prefix@, indent as nat) == connector(true) <==> is_last_child,
{
    let mut prefix = String::new();
    let mut indent_level: u32 = 0;
    while indent_level < indent
        invariant
            indent_level <= indent,
            prefix@ == columns(indent_level as nat, level_set(last_child_indexes@)),
        decreases indent - indent_level,
    {
        if last_child_indexes.contains(&indent_level) {
            proof {
                reveal_strlit("    ");
            }
            prefix.append(CLOSED_COLUMN);
        } else {
            proof {
                reveal_strlit("|   ");
            }
            prefix.append(OPEN_COLUMN);
        }
        indent_level = indent_level + 1;
    }
    if is_last_child {
        proof {
            reveal_strlit("\u{2514}\u{2500}\u{2500}");
        }
        prefix.append(LAST_CHILD_PREFIX);
    } else {
        proof {
            reveal_strlit("\u{251c}\u{2500}\u{2500}");
        }
        prefix.append(CHILD_PREFIX);
    }
    proof {
        let closed_levels = level_set(last_child_indexes@);
        let whole = prefix_of(indent as nat, is_last_child, closed_levels);
        lemma_prefix_shape(indent as nat, is_last_child, closed_levels);
        assert(prefix@ =~= whole);
        assert forall|level: nat| level < indent implies #[trigger] column_at(prefix@, level)
            == column(last_child_indexes@.contains(level as u32)) by {
            assert(closed_levels.contains(level) == last_child_indexes@.contains(level as u32));
            assert(column_at(whole, level) == column(closed_levels.contains(level)));
        }
        lemma_glyphs_tell_apart(true, is_last_child);
        assert forall|level: nat| level < indent implies (#[trigger] column_at(prefix@, level)
            == column(true) <==> last_child_indexes@.contains(level as u32)) by {
            lemma_glyphs_tell_apart(true, last_child_indexes@.contains(level as u32));
        }
    }
    prefix
}

/// A copy of `levels`. The body calls `HashSet::clone` of the standard
/// library; that the copy holds exactly the levels that `levels` holds is
/// taken from its documentation and not proved here.
#[verifier::external_body]
pub(crate) fn clone_levels(levels: &HashSet<u32>) -> (copy: HashSet<u32>)
    ensures
        copy@ == levels@,
{
    levels.clone()
}

/// The closed levels handed to the subtree of a last entry: those of its
/// directory and `depth`, the level that this entry closes. The set given
/// is left as it was.
pub fn update_indexes(last_child_indexes: &HashSet<u32>, depth: u32) -> (updated: HashSet<u32>)
    ensures
        updated@ == last_child_indexes@.insert(depth),
        level_set(updated@) == level_set(last_child_indexes@).insert(depth as nat),
{
    let mut new_last_child_indexes = clone_levels(last_child_indexes);
    new_last_child_indexes.insert(depth);
    assert(level_set(new_last_child_indexes@) =~= level_set(last_child_indexes@).insert(
        depth as nat,
    ));
    new_last_child_indexes
}

} // verus!
