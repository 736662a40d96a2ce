//! What holds of the rendering of every tree: how many lines it has, where
//! the line of each entry stands, and what that line looks like.

use crate::prefix::{
    column, column_at, connector, connector_at, lemma_glyphs_tell_apart, lemma_prefix_shape,
    prefix_of,
};
use crate::tree::{child_levels, line_of, render_entries, render_lines, Tree};
use vstd::prelude::*;

verus! {

/// The number of the entries `entries[from ..]` and of the entries below
/// them, down to `levels` levels further: with `levels` at 0 the entries
/// themselves and nothing below them.
pub open spec fn count_entries(entries: Seq<Tree>, from: nat, levels: nat) -> nat
    decreases entries, entries.len() - from,
{
    if from >= entries.len() {
        0
    } else {
        let below = if levels > 0 {
            count_entries(entries[from as int].children, 0, (levels - 1) as nat)
        } else {
            0
        };
        1 + below + count_entries(entries, from + 1, levels)
    }
}

/// The entries of a directory at `depth` take one line each, and so does
/// every entry below them that lies in a directory at `max_depth` or
/// above.
pub proof fn lemma_render_entries_len(
    entries: Seq<Tree>,
    from: nat,
    indent: nat,
    closed_levels: Set<nat>,
    depth: nat,
    max_depth: nat,
)
    requires
        depth <= max_depth,
    ensures
        render_entries(entries, from, indent, closed_levels, depth, max_depth).len()
            == count_entries(entries, from, (max_depth - depth) as nat),
    decreases entries, entries.len() - from,
{
    if from < entries.len() {
        let is_last_child = from + 1 == entries.len();
        if depth < max_depth {
            lemma_render_entries_len(
                entries[from as int].children,
                0,
                indent + 1,
                child_levels(closed_levels, depth, is_last_child),
                depth + 1,
                max_depth,
            );
        }
        lemma_render_entries_len(entries, from + 1, indent, closed_levels, depth, max_depth);
    }
}

/// A rendering has one line for the root and one for every entry that
/// lies in a directory nested at most `max_depth` levels below the root,
/// the root itself counting as nested at level 0.
pub proof fn lemma_line_count(tree: Tree, max_depth: nat)
    ensures
        render_lines(tree, max_depth).len() == 1 + count_entries(tree.children, 0, max_depth),
{
    lemma_render_entries_len(tree.children, 0, 0, Set::empty(), 0, max_depth);
}

/// In a directory at `max_depth` the entries are listed and nothing below
/// them: one line for each, in their order.
pub proof fn lemma_boundary_level(
    entries: Seq<Tree>,
    from: nat,
    indent: nat,
    closed_levels: Set<nat>,
    depth: nat,
)
    requires
        from <= entries.len(),
    ensures
        render_entries(entries, from, indent, closed_levels, depth, depth).len() == entries.len()
            - from,
        forall|k: int|
            0 <= k < entries.len() - from ==> #[trigger] render_entries(
                entries,
                from,
                indent,
                closed_levels,
                depth,
                depth,
            )[k] == line_of(
                indent,
                from + k + 1 == entries.len(),
                closed_levels,
                entries[from + k].name,
            ),
    decreases entries.len() - from,
{
    if from < entries.len() {
        lemma_boundary_level(entries, from + 1, indent, closed_levels, depth);
    }
}

/// With `max_depth` at 0 the rendering is the root's line and one line for
/// each entry of the root, with no column before the connector. It is the
/// root's line alone exactly when the root has no entries.
pub proof fn lemma_depth_zero(tree: Tree)
    ensures
        render_lines(tree, 0).len() == 1 + tree.children.len(),
        render_lines(tree, 0)[0] == tree.name,
        forall|k: int|
            0 <= k < tree.children.len() ==> #[trigger] render_lines(tree, 0)[1 + k] == line_of(
                0,
                k + 1 == tree.children.len(),
                Set::empty(),
                tree.children[k].name,
            ),
        render_lines(tree, 0) == seq![tree.name] <==> tree.children.len() == 0,
{
    let below = render_entries(tree.children, 0, 0, Set::empty(), 0, 0);
    lemma_boundary_level(tree.children, 0, 0, Set::empty(), 0);
    assert forall|k: int| 0 <= k < tree.children.len() implies #[trigger] render_lines(tree, 0)[1
        + k] == line_of(0, k + 1 == tree.children.len(), Set::empty(), tree.children[k].name) by {
        assert(render_lines(tree, 0)[1 + k] == below[k]);
    }
    if tree.children.len() == 0 {
        assert(render_lines(tree, 0) =~= seq![tree.name]);
    }
}

/// A tree whose root has no entries is rendered as the root's line alone,
/// whatever the depth limit.
pub proof fn lemma_root_without_entries(tree: Tree, max_depth: nat)
    requires
        tree.children.len() == 0,
    ensures
        render_lines(tree, max_depth) == seq![tree.name],
{
    assert(render_lines(tree, max_depth) =~= seq![tree.name]);
}

/// What is rendered twice is rendered alike: the lines of one tree with
/// one depth limit are the same lines each time.
pub proof fn lemma_rendering_twice(
    tree: Tree,
    max_depth: nat,
    first: Seq<Seq<char>>,
    second: Seq<Seq<char>>,
)
    requires
        first == render_lines(tree, max_depth),
        second == render_lines(tree, max_depth),
    ensures
        first == second,
{
}

/// Whether `path` leads from the entries of a directory to an entry below
/// it: its first step is the index of one of `entries`, and each further
/// step the index of an entry of the one before.
pub open spec fn leads_to_entry(entries: Seq<Tree>, path: Seq<int>) -> bool
    decreases path.len(),
{
    if path.len() == 0 {
        false
    } else if !(0 <= path[0] < entries.len()) {
        false
    } else if path.len() == 1 {
        true
    } else {
        leads_to_entry(entries[path[0]].children, path.drop_first())
    }
}

/// The entry that `path` leads to.
pub open spec fn entry_at(entries: Seq<Tree>, path: Seq<int>) -> Tree
    decreases path.len(),
{
    if path.len() <= 1 {
        entries[path[0]]
    } else {
        entry_at(entries[path[0]].children, path.drop_first())
    }
}

/// Whether the entry that the first `step + 1` steps of `path` lead to is
/// the last entry of its directory.
pub open spec fn last_at(entries: Seq<Tree>, path: Seq<int>, step: nat) -> bool
    decreases step,
{
    if step == 0 {
        path[0] + 1 == entries.len()
    } else {
        last_at(entries[path[0]].children, path.drop_first(), (step - 1) as nat)
    }
}

/// The closed levels on the way down `path`, as the tree gives them: those
/// of `closed_levels`, and `depth + step` for each ancestor of the entry
/// that is the last entry of its directory, the ancestor being what the
/// first `step + 1` steps lead to.
pub open spec fn levels_along(
    closed_levels: Set<nat>,
    depth: nat,
    entries: Seq<Tree>,
    path: Seq<int>,
) -> Set<nat> {
    Set::new(
        |level: nat|
            closed_levels.contains(level) || (level >= depth && level - depth + 1 < path.len()
                && last_at(entries, path, (level - depth) as nat)),
    )
}

/// The position of an entry's line among the lines of `entries`, rendered
/// `levels` levels deep: behind the lines of the earlier entries of each
/// directory on the way and of all that is below those, and behind the
/// line of each ancestor.
pub open spec fn line_index(entries: Seq<Tree>, path: Seq<int>, levels: nat) -> int
    decreases path.len(),
{
    let before = count_entries(entries, 0, levels) - count_entries(
        entries,
        path[0] as nat,
        levels,
    );
    if path.len() <= 1 {
        before
    } else {
        before + 1 + line_index(
            entries[path[0]].children,
            path.drop_first(),
            (levels - 1) as nat,
        )
    }
}

/// The lines of the entries from `mid` on are the end of the lines of the
/// entries from `from` on.
proof fn lemma_render_entries_suffix(
    entries: Seq<Tree>,
    from: nat,
    mid: nat,
    indent: nat,
    closed_levels: Set<nat>,
    depth: nat,
    max_depth: nat,
)
    requires
        from <= mid <= entries.len(),
        depth <= max_depth,
    ensures
        count_entries(entries, mid, (max_depth - depth) as nat) <= count_entries(
            entries,
            from,
            (max_depth - depth) as nat,
        ),
        render_entries(entries, from, indent, closed_levels, depth, max_depth).skip(
            count_entries(entries, from, (max_depth - depth) as nat) - count_entries(
                entries,
                mid,
                (max_depth - depth) as nat,
            ),
        ) == render_entries(entries, mid, indent, closed_levels, depth, max_depth),
    decreases mid - from,
{
    let levels = (max_depth - depth) as nat;
    let whole = render_entries(entries, from, indent, closed_levels, depth, max_depth);
    if from == mid {
        assert(whole.skip(0) =~= whole);
    } else {
        let is_last_child = from + 1 == entries.len();
        let rest = render_entries(entries, from + 1, indent, closed_levels, depth, max_depth);
        let tail = render_entries(entries, mid, indent, closed_levels, depth, max_depth);
        lemma_render_entries_suffix(
            entries,
            from + 1,
            mid,
            indent,
            closed_levels,
            depth,
            max_depth,
        );
        lemma_render_entries_len(entries, from, indent, closed_levels, depth, max_depth);
        lemma_render_entries_len(entries, from + 1, indent, closed_levels, depth, max_depth);
        let step = count_entries(entries, from, levels) - count_entries(entries, from + 1, levels);
        let more = count_entries(entries, from + 1, levels) - count_entries(entries, mid, levels);
        assert(whole.len() == rest.len() + step);
        assert(whole.skip(step) =~= rest);
        assert(whole.skip(step + more) =~= rest.skip(more));
    }
}

/// The line of the entry that `path` leads to stands at `line_index`
/// among the lines of `entries`, and is the line of an entry at
/// `path.len() - 1` levels further in, with the levels closed that
/// `levels_along` gives.
proof fn lemma_entry_line_below(
    entries: Seq<Tree>,
    path: Seq<int>,
    indent: nat,
    closed_levels: Set<nat>,
    depth: nat,
    max_depth: nat,
)
    requires
        leads_to_entry(entries, path),
        depth + path.len() <= max_depth + 1,
    ensures
        line_index(entries, path, (max_depth - depth) as nat) < render_entries(
            entries,
            0,
            indent,
            closed_levels,
            depth,
            max_depth,
        ).len(),
        0 <= line_index(entries, path, (max_depth - depth) as nat),
        render_entries(entries, 0, indent, closed_levels, depth, max_depth)[line_index(
            entries,
            path,
            (max_depth - depth) as nat,
        )] == line_of(
            (indent + path.len() - 1) as nat,
            last_at(entries, path, (path.len() - 1) as nat),
            levels_along(closed_levels, depth, entries, path),
            entry_at(entries, path).name,
        ),
    decreases path.len(),
{
    let levels = (max_depth - depth) as nat;
    let first = path[0] as nat;
    let entry = entries[path[0]];
    let is_last_child = first + 1 == entries.len();
    let whole = render_entries(entries, 0, indent, closed_levels, depth, max_depth);
    let tail = render_entries(entries, first, indent, closed_levels, depth, max_depth);
    let before = count_entries(entries, 0, levels) - count_entries(entries, first, levels);
    lemma_render_entries_suffix(entries, 0, first, indent, closed_levels, depth, max_depth);
    lemma_render_entries_len(entries, 0, indent, closed_levels, depth, max_depth);
    lemma_render_entries_len(entries, first, indent, closed_levels, depth, max_depth);
    assert(whole.skip(before) == tail);
    assert(tail.len() >= 1);
    if path.len() == 1 {
        assert(whole[before] == whole.skip(before)[0]);
        assert(levels_along(closed_levels, depth, entries, path) =~= closed_levels);
    } else {
        let rest = path.drop_first();
        let inner = child_levels(closed_levels, depth, is_last_child);
        let below = render_entries(entry.children, 0, indent + 1, inner, depth + 1, max_depth);
        lemma_entry_line_below(entry.children, rest, indent + 1, inner, depth + 1, max_depth);
        let at = line_index(entry.children, rest, (levels - 1) as nat);
        assert(tail[1 + at] == below[at]);
        assert(whole[before + 1 + at] == whole.skip(before)[1 + at]);
        assert(levels_along(closed_levels, depth, entries, path) =~= levels_along(
            inner,
            depth + 1,
            entry.children,
            rest,
        )) by {
            assert forall|level: nat|
                levels_along(closed_levels, depth, entries, path).contains(level)
                    == levels_along(inner, depth + 1, entry.children, rest).contains(
                    level,
                ) by {
                if level > depth && level - depth + 1 < path.len() {
                    assert(last_at(entries, path, (level - depth) as nat) == last_at(
                        entry.children,
                        rest,
                        (level - depth - 1) as nat,
                    ));
                }
            }
        }
    }
}

/// Every entry that lies in a directory nested at most `max_depth` levels
/// below the root has its line in the rendering, at the place that the
/// entries before it and above it leave, and the tree alone says what the
/// line is. It has one column of four characters for each ancestor below
/// the root; the column of an ancestor is blank if that ancestor is the
/// last entry of its directory, and a bar and three blanks if it is not.
/// Then comes the connector, the corner if the entry itself is the last
/// of its directory and the tee if it is not; then a blank and the name.
pub proof fn lemma_entry_line(tree: Tree, path: Seq<int>, max_depth: nat)
    requires
        leads_to_entry(tree.children, path),
        path.len() <= max_depth + 1,
    ensures
        0 <= line_index(tree.children, path, max_depth),
        1 + line_index(tree.children, path, max_depth) < render_lines(tree, max_depth).len(),
        ({
            let line = render_lines(tree, max_depth)[1 + line_index(
                tree.children,
                path,
                max_depth,
            )];
            let indent = (path.len() - 1) as nat;
            let name = entry_at(tree.children, path).name;
            &&& line == line_of(
                indent,
                last_at(tree.children, path, indent),
                levels_along(Set::empty(), 0, tree.children, path),
                name,
            )
            &&& line.len() == 4 * indent + 3 + 1 + name.len()
            &&& forall|level: nat|
                level < indent ==> #[trigger] column_at(line, level) == column(
                    last_at(tree.children, path, level),
                )
            &&& connector_at(line, indent) == connector(last_at(tree.children, path, indent))
            &&& forall|level: nat|
                level < indent ==> (#[trigger] column_at(line, level) == column(true)
                    <==> last_at(tree.children, path, level))
            &&& connector_at(line, indent) == connector(true) <==> last_at(
                tree.children,
                path,
                indent,
            )
            &&& line[4 * indent as int + 3] == ' '
            &&& line.skip(4 * indent as int + 4) == name
        }),
{
    let indent = (path.len() - 1) as nat;
    let is_last_child = last_at(tree.children, path, indent);
    let closed_levels = levels_along(Set::empty(), 0, tree.children, path);
    let name = entry_at(tree.children, path).name;
    let at = line_index(tree.children, path, max_depth);
    let below = render_entries(tree.children, 0, 0, Set::empty(), 0, max_depth);
    lemma_entry_line_below(tree.children, path, 0, Set::empty(), 0, max_depth);
    assert(render_lines(tree, max_depth)[1 + at] == below[at]);
    let line = line_of(indent, is_last_child, closed_levels, name);
    let prefix = prefix_of(indent, is_last_child, closed_levels);
    lemma_prefix_shape(indent, is_last_child, closed_levels);
    assert forall|level: nat| level < indent implies #[trigger] column_at(line, level) == column(
        last_at(tree.children, path, level),
    ) by {
        assert(column_at(line, level) =~= column_at(prefix, level));
    }
    assert(connector_at(line, indent) =~= connector_at(prefix, indent));
    assert(line.skip(4 * indent as int + 4) =~= name);
    lemma_glyphs_tell_apart(true, is_last_child);
    assert forall|level: nat| level < indent implies (#[trigger] column_at(line, level) == column(
        true,
    ) <==> last_at(tree.children, path, level)) by {
        lemma_glyphs_tell_apart(true, last_at(tree.children, path, level));
    }
}

/// Whether the entry that `path` leads to comes before the entry that
/// `other` leads to when a tree is gone through from the top, each entry
/// before what is below it, and the entries of a directory in their order:
/// at the first step in which the two paths differ `path` takes the
/// earlier entry, or `path` ends where `other` goes on.
pub open spec fn comes_before(path: Seq<int>, other: Seq<int>) -> bool
    decreases path.len(),
{
    if path.len() == 0 {
        other.len() > 0
    } else if other.len() == 0 {
        false
    } else if path[0] != other[0] {
        path[0] < other[0]
    } else {
        comes_before(path.drop_first(), other.drop_first())
    }
}

/// Of the entries from `from` on there are no fewer than from `mid` on.
proof fn lemma_count_entries_suffix(entries: Seq<Tree>, from: nat, mid: nat, levels: nat)
    requires
        from <= mid,
    ensures
        count_entries(entries, mid, levels) <= count_entries(entries, from, levels),
    decreases mid - from,
{
    if from < mid {
        lemma_count_entries_suffix(entries, from + 1, mid, levels);
    }
}

/// The line of an entry stands among the lines of the entry of its
/// directory through which its path goes: behind the lines of the earlier
/// entries and before the lines of the later ones.
proof fn lemma_line_index_in_block(entries: Seq<Tree>, path: Seq<int>, levels: nat)
    requires
        leads_to_entry(entries, path),
        path.len() <= levels + 1,
    ensures
        count_entries(entries, 0, levels) - count_entries(entries, path[0] as nat, levels)
            <= line_index(entries, path, levels),
        line_index(entries, path, levels) < count_entries(entries, 0, levels) - count_entries(
            entries,
            (path[0] + 1) as nat,
            levels,
        ),
    decreases path.len(),
{
    if path.len() > 1 {
        let inner = entries[path[0]].children;
        let rest = path.drop_first();
        lemma_line_index_in_block(inner, rest, (levels - 1) as nat);
        lemma_count_entries_suffix(inner, 0, rest[0] as nat, (levels - 1) as nat);
        lemma_count_entries_suffix(inner, 0, (rest[0] + 1) as nat, (levels - 1) as nat);
    }
}

/// The lines stand in the order in which the tree is gone through from
/// the top: the line of a directory before the lines of all that is below
/// it, and the line of an entry, with the lines of all that is below it,
/// before the line of the next entry of the same directory.
pub proof fn lemma_lines_in_order(
    entries: Seq<Tree>,
    path: Seq<int>,
    other: Seq<int>,
    levels: nat,
)
    requires
        leads_to_entry(entries, path),
        leads_to_entry(entries, other),
        path.len() <= levels + 1,
        other.len() <= levels + 1,
        comes_before(path, other),
    ensures
        line_index(entries, path, levels) < line_index(entries, other, levels),
    decreases path.len(),
{
    lemma_line_index_in_block(entries, path, levels);
    lemma_line_index_in_block(entries, other, levels);
    if path[0] != other[0] {
        lemma_count_entries_suffix(entries, (path[0] + 1) as nat, other[0] as nat, levels);
    } else if path.len() == 1 {
        assert(comes_before(path.drop_first(), other.drop_first()));
        assert(other.len() > 1);
        lemma_line_index_in_block(
            entries[other[0]].children,
            other.drop_first(),
            (levels - 1) as nat,
        );
        lemma_count_entries_suffix(
            entries[other[0]].children,
            0,
            other.drop_first()[0] as nat,
            (levels - 1) as nat,
        );
    } else {
        assert(comes_before(path.drop_first(), other.drop_first()));
        assert(other.len() > 1);
        lemma_lines_in_order(
            entries[path[0]].children,
            path.drop_first(),
            other.drop_first(),
            (levels - 1) as nat,
        );
    }
}

/// The path to the entry whose line is the line `index` among the lines
/// of the entries `entries[from ..]`, rendered `levels` levels deep.
pub open spec fn path_of_line(entries: Seq<Tree>, from: nat, index: int, levels: nat) -> Seq<int>
    decreases entries, entries.len() - from,
{
    if from >= entries.len() {
        Seq::empty()
    } else {
        let below = if levels > 0 {
            count_entries(entries[from as int].children, 0, (levels - 1) as nat)
        } else {
            0
        };
        if index <= 0 {
            seq![from as int]
        } else if index <= below {
            seq![from as int] + path_of_line(
                entries[from as int].children,
                0,
                index - 1,
                (levels - 1) as nat,
            )
        } else {
            path_of_line(entries, from + 1, index - 1 - below, levels)
        }
    }
}

/// The path of a line leads to an entry, and that entry's line is the
/// line.
proof fn lemma_path_of_line(entries: Seq<Tree>, from: nat, index: int, levels: nat)
    requires
        0 <= index < count_entries(entries, from, levels),
    ensures
        leads_to_entry(entries, path_of_line(entries, from, index, levels)),
        path_of_line(entries, from, index, levels).len() <= levels + 1,
        from <= path_of_line(entries, from, index, levels)[0],
        line_index(entries, path_of_line(entries, from, index, levels), levels) == count_entries(
            entries,
            0,
            levels,
        ) - count_entries(entries, from, levels) + index,
    decreases entries, entries.len() - from,
{
    let path = path_of_line(entries, from, index, levels);
    let inner = entries[from as int].children;
    let below = if levels > 0 {
        count_entries(inner, 0, (levels - 1) as nat)
    } else {
        0
    };
    if index == 0 {
    } else if index <= below {
        let rest = path_of_line(inner, 0, index - 1, (levels - 1) as nat);
        lemma_path_of_line(inner, 0, index - 1, (levels - 1) as nat);
        assert(path.drop_first() =~= rest);
    } else {
        lemma_path_of_line(entries, from + 1, index - 1 - below, levels);
    }
}

/// Every line of a rendering but the first is the line of an entry: of
/// the one that `path_of_line` leads to.
pub proof fn lemma_line_is_of_an_entry(tree: Tree, max_depth: nat, index: int)
    requires
        1 <= index < render_lines(tree, max_depth).len(),
    ensures
        leads_to_entry(tree.children, path_of_line(tree.children, 0, index - 1, max_depth)),
        path_of_line(tree.children, 0, index - 1, max_depth).len() <= max_depth + 1,
        1 + line_index(
            tree.children,
            path_of_line(tree.children, 0, index - 1, max_depth),
            max_depth,
        ) == index,
{
    lemma_line_count(tree, max_depth);
    lemma_path_of_line(tree.children, 0, index - 1, max_depth);
}

} // verus!
