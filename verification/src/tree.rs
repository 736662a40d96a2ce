//! A directory tree held in memory, and its rendering as lines of text.

use crate::prefix::{clone_levels, create_prefix, level_set, prefix_of, update_indexes};
use std::collections::HashSet;
use vstd::prelude::*;

verus! {

broadcast use vstd::std_specs::hash::group_hash_axioms;

/// One entry of a directory: its name and, where it is itself a directory,
/// its own entries in the order in which the directory lists them. A file
/// and an empty directory both have no entries. For the root of a tree the
/// name is the path that the tree was asked for.
#[derive(Debug, PartialEq, Eq)]
pub struct Entry {
    pub name: String,
    pub children: Vec<Entry>,
}

/// What an [`Entry`] stands for: a name and a sequence of subtrees.
pub struct Tree {
    pub name: Seq<char>,
    pub children: Seq<Tree>,
}

impl Entry {
    /// The tree that this entry and everything below it make up.
    pub open spec fn tree(&self) -> Tree
        decreases self,
    {
        Tree {
            name: self.name@,
            children: Seq::new(
                self.children@.len(),
                |i: int|
                    if 0 <= i < self.children@.len() {
                        self.children@[i].tree()
                    } else {
                        arbitrary()
                    },
            ),
        }
    }
}

impl View for Entry {
    type V = Tree;

    open spec fn view(&self) -> Tree {
        self.tree()
    }
}

/// The line of one entry: its prefix, a blank, its name.
pub open spec fn line_of(
    indent: nat,
    is_last_child: bool,
    closed_levels: Set<nat>,
    name: Seq<char>,
) -> Seq<char> {
    prefix_of(indent, is_last_child, closed_levels) + seq![' '] + name
}

/// The closed levels that the subtree of an entry is rendered with: a last
/// entry closes the level `depth` of its directory, any other entry leaves
/// the levels as they are.
pub open spec fn child_levels(closed_levels: Set<nat>, depth: nat, is_last_child: bool) -> Set<
    nat,
> {
    if is_last_child {
        closed_levels.insert(depth)
    } else {
        closed_levels
    }
}

/// The lines of the entries `entries[from ..]` of one directory that lies
/// at `depth`, each entry followed by the lines of what is below it. An
/// entry's own entries are rendered only while `depth` is below
/// `max_depth`.
pub open spec fn render_entries(
    entries: Seq<Tree>,
    from: nat,
    indent: nat,
    closed_levels: Set<nat>,
    depth: nat,
    max_depth: nat,
) -> Seq<Seq<char>>
    decreases entries, entries.len() - from,
{
    if from >= entries.len() {
        Seq::empty()
    } else {
        let is_last_child = from + 1 == entries.len();
        let entry = entries[from as int];
        let below = if depth < max_depth {
            render_entries(
                entry.children,
                0,
                indent + 1,
                child_levels(closed_levels, depth, is_last_child),
                depth + 1,
                max_depth,
            )
        } else {
            Seq::empty()
        };
        seq![line_of(indent, is_last_child, closed_levels, entry.name)] + below + render_entries(
            entries,
            from + 1,
            indent,
            closed_levels,
            depth,
            max_depth,
        )
    }
}

/// The lines of one subtree: nothing at all beyond `max_depth`; else the
/// tree's own name if it stands at depth 0, then the lines of its entries.
pub open spec fn render_subtree_lines(
    tree: Tree,
    indent: nat,
    closed_levels: Set<nat>,
    depth: nat,
    max_depth: nat,
) -> Seq<Seq<char>> {
    if depth > max_depth {
        Seq::empty()
    } else {
        let head = if depth == 0 {
            seq![tree.name]
        } else {
            Seq::empty()
        };
        head + render_entries(tree.children, 0, indent, closed_levels, depth, max_depth)
    }
}

/// The lines of a whole tree: the root's name, then the root's entries
/// from the outermost state.
pub open spec fn render_lines(tree: Tree, max_depth: nat) -> Seq<Seq<char>> {
    render_subtree_lines(tree, 0, Set::empty(), 0, max_depth)
}

/// Builds the line of one entry: its prefix, a blank, its name.
pub fn entry_line(
    indent: u32,
    is_last_child: bool,
    last_child_indexes: &HashSet<u32>,
    name: &str,
) -> (line: String)
    ensures
        line@ == line_of(indent as nat, is_last_child, level_set(last_child_indexes@), name@),
{
    let mut line = create_prefix(indent, is_last_child, last_child_indexes);
    line.append(" ");
    line.append(name);
    proof {
        reveal_strlit(" ");
        assert(" "@ =~= seq![' ']);
    }
    line
}

/// How many levels of indentation the rendering of the entries
/// `entries[from ..]`, `levels` levels deep, goes beyond their own: none
/// where nothing below them is rendered, else one more than below the
/// entry where it goes furthest.
pub open spec fn nesting(entries: Seq<Tree>, from: nat, levels: nat) -> nat
    decreases entries, entries.len() - from,
{
    if from >= entries.len() || levels == 0 {
        0
    } else {
        let here = 1 + nesting(entries[from as int].children, 0, (levels - 1) as nat);
        let rest = nesting(entries, from + 1, levels);
        if here >= rest {
            here
        } else {
            rest
        }
    }
}

/// The nesting of entries is one more, at the least, than the nesting of
/// what any one of them holds.
proof fn lemma_nesting_covers(entries: Seq<Tree>, from: nat, at: nat, levels: nat)
    requires
        from <= at < entries.len(),
        levels > 0,
    ensures
        nesting(entries, from, levels) >= 1 + nesting(
            entries[at as int].children,
            0,
            (levels - 1) as nat,
        ),
    decreases at - from,
{
    if from < at {
        lemma_nesting_covers(entries, from + 1, at, levels);
    }
}

/// A rendering that is `levels` levels deep nests no further than that.
pub proof fn lemma_nesting_bound(entries: Seq<Tree>, from: nat, levels: nat)
    ensures
        nesting(entries, from, levels) <= levels,
    decreases entries, entries.len() - from,
{
    if from < entries.len() && levels > 0 {
        lemma_nesting_bound(entries[from as int].children, 0, (levels - 1) as nat);
        lemma_nesting_bound(entries, from + 1, levels);
    }
}

/// Appends to `out` the lines of `entry` as a subtree that stands at
/// `current_depth`: nothing beyond `max_depth`; else the entry's own name
/// if it stands at depth 0, then one line for each of its entries, each
/// followed by the lines of its own subtree at `current_depth + 1`, with
/// one more level of indentation and, below a last entry, with
/// `current_depth` closed.
///
/// The indentation must have room for the levels that are rendered below
/// the entry.
pub fn render_subtree(
    entry: &Entry,
    indent: u32,
    last_child_indexes: HashSet<u32>,
    current_depth: u32,
    max_depth: u32,
    out: &mut Vec<String>,
)
    requires
        current_depth <= max_depth ==> indent + nesting(
            entry@.children,
            0,
            (max_depth - current_depth) as nat,
        ) <= u32::MAX,
    ensures
        final(out).deep_view() == old(out).deep_view() + render_subtree_lines(
            entry@,
            indent as nat,
            level_set(last_child_indexes@),
            current_depth as nat,
            max_depth as nat,
        ),
    decreases entry,
{
    let ghost before = out.deep_view();
    let ghost closed_levels = level_set(last_child_indexes@);
    if current_depth > max_depth {
        assert(out.deep_view() =~= before + Seq::<Seq<char>>::empty());
        return ;
    }
    if current_depth == 0 {
        out.push(entry.name.clone());
        assert(out.deep_view() =~= before + seq![entry@.name]);
    } else {
        assert(out.deep_view() =~= before + Seq::<Seq<char>>::empty());
    }
    let num_children = entry.children.len();
    let mut i: usize = 0;
    while i < num_children
        invariant
            i <= num_children,
            num_children == entry.children@.len(),
            current_depth <= max_depth,
            indent + nesting(entry@.children, 0, (max_depth - current_depth) as nat) <= u32::MAX,
            closed_levels == level_set(last_child_indexes@),
            out.deep_view() + render_entries(
                entry@.children,
                i as nat,
                indent as nat,
                closed_levels,
                current_depth as nat,
                max_depth as nat,
            ) == before + render_subtree_lines(
                entry@,
                indent as nat,
                closed_levels,
                current_depth as nat,
                max_depth as nat,
            ),
        decreases num_children - i,
    {
        let ghost emitted = out.deep_view();
        let child = &entry.children[i];
        let is_last_child = i == num_children - 1;
        let line = entry_line(indent, is_last_child, &last_child_indexes, child.name.as_str());
        assert(child@.name == child.name@);
        out.push(line);
        assert(out.deep_view() =~= emitted + seq![
            line_of(indent as nat, is_last_child, closed_levels, child@.name),
        ]);
        if current_depth < max_depth {
            proof {
                lemma_nesting_covers(
                    entry@.children,
                    0,
                    i as nat,
                    (max_depth - current_depth) as nat,
                );
            }
            let below = if is_last_child {
                update_indexes(&last_child_indexes, current_depth)
            } else {
                clone_levels(&last_child_indexes)
            };
            render_subtree(child, indent + 1, below, current_depth + 1, max_depth, out);
        }
        assert(out.deep_view() + render_entries(
            entry@.children,
            (i + 1) as nat,
            indent as nat,
            closed_levels,
            current_depth as nat,
            max_depth as nat,
        ) =~= emitted + render_entries(
            entry@.children,
            i as nat,
            indent as nat,
            closed_levels,
            current_depth as nat,
            max_depth as nat,
        ));
        i = i + 1;
    }
}

/// The lines of the tree below `root`: the root's name, then its entries
/// down to those of the directories at `max_depth`.
pub fn render(root: &Entry, max_depth: u32) -> (lines: Vec<String>)
    ensures
        lines.deep_view() == render_lines(root@, max_depth as nat),
{
    let mut lines: Vec<String> = Vec::new();
    proof {
        lemma_nesting_bound(root@.children, 0, max_depth as nat);
    }
    render_subtree(root, 0, HashSet::new(), 0, max_depth, &mut lines);
    assert(level_set(Set::<u32>::empty()) =~= Set::<nat>::empty());
    assert(lines.deep_view() =~= render_lines(root@, max_depth as nat));
    lines
}

} // verus!
