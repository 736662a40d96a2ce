//! A walk brings the lines of the rendering: whatever tree the caller's
//! listings come from, the lines that a [`Walker`] has printed together
//! with the lines that its tasks still hold are the rendering of that
//! tree.

use crate::tree::{line_of, render_entries, render_lines, Entry, Tree};
use crate::walk::{
    child_state, event_entries, lemma_state_inv, listing_view, root_state, start_of, state_inv,
    step_of, take_in, take_up, tasks_inv, tasks_of, walk_inv, Action, Event, Listed, Named,
    Request, State, Task, Walk, Walker,
};
use vstd::prelude::*;

verus! {

/// The lines that the tasks will bring, the next task's lines first, where
/// `tree_of` says which tree stands behind a handle: a line brings itself,
/// a visit the lines of the entries of its tree.
pub open spec fn lines_ahead<T>(
    tasks: Seq<Task<T>>,
    tree_of: spec_fn(T) -> Tree,
    max_depth: nat,
) -> Seq<Seq<char>>
    decreases tasks.len(),
{
    if tasks.len() == 0 {
        Seq::empty()
    } else {
        let next = match tasks.last() {
            Task::Line(line) => seq![line],
            Task::Visit(handle, state) => render_entries(
                tree_of(handle).children,
                0,
                state.indent,
                state.closed_levels,
                state.depth,
                max_depth,
            ),
        };
        next + lines_ahead(tasks.drop_last(), tree_of, max_depth)
    }
}

/// Whether `entries` is the listing of `tree`: one entry for each entry of
/// the tree, in order, under its name, and with a handle that stands for
/// it.
pub open spec fn lists<T>(entries: Seq<Named<T>>, tree: Tree, tree_of: spec_fn(T) -> Tree) -> bool {
    &&& entries.len() == tree.children.len()
    &&& forall|i: int|
        0 <= i < entries.len() ==> (#[trigger] entries[i]).name == tree.children[i].name && tree_of(
            entries[i].handle,
        ) == tree.children[i]
}

/// The lines ahead of two stacks of tasks, one on top of the other, are
/// the lines of the upper and then the lines of the lower.
proof fn lemma_lines_ahead_of_both<T>(
    lower: Seq<Task<T>>,
    upper: Seq<Task<T>>,
    tree_of: spec_fn(T) -> Tree,
    max_depth: nat,
)
    ensures
        lines_ahead(lower + upper, tree_of, max_depth) == lines_ahead(upper, tree_of, max_depth)
            + lines_ahead(lower, tree_of, max_depth),
    decreases upper.len(),
{
    if upper.len() == 0 {
        assert(lower + upper =~= lower);
    } else {
        lemma_lines_ahead_of_both(lower, upper.drop_last(), tree_of, max_depth);
        assert((lower + upper).drop_last() =~= lower + upper.drop_last());
    }
}

/// The tasks of the entries `entries[from ..]` of a listing of `tree`
/// bring the lines of these entries.
proof fn lemma_tasks_bring_entries<T>(
    entries: Seq<Named<T>>,
    from: nat,
    tree: Tree,
    tree_of: spec_fn(T) -> Tree,
    state: State,
    max_depth: nat,
)
    requires
        lists(entries, tree, tree_of),
    ensures
        lines_ahead(tasks_of(entries, from, state, max_depth), tree_of, max_depth)
            == render_entries(
            tree.children,
            from,
            state.indent,
            state.closed_levels,
            state.depth,
            max_depth,
        ),
    decreases entries.len() - from,
{
    if from < entries.len() {
        let is_last_child = from + 1 == entries.len();
        let entry = entries[from as int];
        let text = line_of(state.indent, is_last_child, state.closed_levels, entry.name);
        let line = Task::<T>::Line(text);
        let all = tasks_of(entries, from, state, max_depth);
        let later = tasks_of(entries, from + 1, state, max_depth);
        lemma_tasks_bring_entries(entries, from + 1, tree, tree_of, state, max_depth);
        assert(tree_of(entry.handle) == tree.children[from as int]);
        assert(entry.name == tree.children[from as int].name);
        if state.depth < max_depth {
            let inner = child_state(state, is_last_child);
            let visit = Task::Visit(entry.handle, inner);
            let upper = later + seq![visit];
            assert(all == upper + seq![line]);
            assert(all.last() == line);
            assert(all.drop_last() =~= upper);
            assert(upper.last() == visit);
            assert(upper.drop_last() =~= later);
            assert(lines_ahead(upper, tree_of, max_depth) == render_entries(
                tree.children[from as int].children,
                0,
                inner.indent,
                inner.closed_levels,
                inner.depth,
                max_depth,
            ) + lines_ahead(later, tree_of, max_depth));
            assert(lines_ahead(all, tree_of, max_depth) == seq![text] + lines_ahead(
                upper,
                tree_of,
                max_depth,
            ));
        } else {
            assert(all =~= later + seq![line]);
            assert(all.last() == line);
            assert(all.drop_last() =~= later);
            assert(lines_ahead(all, tree_of, max_depth) == seq![text] + lines_ahead(
                later,
                tree_of,
                max_depth,
            ));
        }
    }
}

/// Taking in the listing of the tree that was asked for puts the lines of
/// that tree's entries ahead of the lines that were ahead before.
pub proof fn lemma_listing_brings_entries<T>(
    walk: Walk<T>,
    entries: Seq<Named<T>>,
    tree: Tree,
    tree_of: spec_fn(T) -> Tree,
)
    requires
        walk.awaiting is Some,
        lists(entries, tree, tree_of),
    ensures
        take_in(walk, entries).awaiting is None,
        lines_ahead(take_in(walk, entries).tasks, tree_of, walk.max_depth) == render_entries(
            tree.children,
            0,
            walk.awaiting->0.indent,
            walk.awaiting->0.closed_levels,
            walk.awaiting->0.depth,
            walk.max_depth,
        ) + lines_ahead(walk.tasks, tree_of, walk.max_depth),
{
    let state = walk.awaiting->0;
    lemma_tasks_bring_entries(entries, 0, tree, tree_of, state, walk.max_depth);
    lemma_lines_ahead_of_both(
        walk.tasks,
        tasks_of(entries, 0, state, walk.max_depth),
        tree_of,
        walk.max_depth,
    );
}

/// Taking up a task takes its lines from the lines ahead. A line that the
/// caller is asked to print was the first line ahead. When the caller is
/// asked to list an entry, the lines ahead were the lines of that entry's
/// entries, in the state that is now awaited, and then the lines that are
/// still ahead. The walk is over only when no line is ahead.
pub proof fn lemma_task_brings_lines<T>(walk: Walk<T>, tree_of: spec_fn(T) -> Tree)
    ensures
        ({
            let ahead = lines_ahead(walk.tasks, tree_of, walk.max_depth);
            let rest = lines_ahead(take_up(walk).0.tasks, tree_of, walk.max_depth);
            match take_up(walk).1 {
                Request::Done => ahead == Seq::<Seq<char>>::empty(),
                Request::Print(line) => ahead == seq![line] + rest,
                Request::List(handle) => {
                    &&& take_up(walk).0.awaiting matches Some(state)
                    &&& ahead == render_entries(
                        tree_of(handle).children,
                        0,
                        state.indent,
                        state.closed_levels,
                        state.depth,
                        walk.max_depth,
                    ) + rest
                },
            }
        }),
{
}

/// At the start of a walk the lines ahead are the rendering of the root's
/// tree under the name given.
pub proof fn lemma_start_brings_rendering<T>(
    name: Seq<char>,
    root: T,
    max_depth: nat,
    tree_of: spec_fn(T) -> Tree,
)
    ensures
        lines_ahead(start_of(name, root, max_depth).tasks, tree_of, max_depth) == render_lines(
            Tree { name, children: tree_of(root).children },
            max_depth,
        ),
{
    let tasks = start_of(name, root, max_depth).tasks;
    let visit = seq![Task::Visit(root, root_state())];
    let below = render_entries(tree_of(root).children, 0, 0, Set::empty(), 0, max_depth);
    assert(tasks.last() == Task::<T>::Line(name));
    assert(tasks.drop_last() =~= visit);
    assert(visit.drop_last() =~= Seq::<Task<T>>::empty());
    assert(lines_ahead(visit, tree_of, max_depth) =~= below) by {
        assert(lines_ahead(visit.drop_last(), tree_of, max_depth) =~= Seq::<Seq<char>>::empty());
    }
    assert(lines_ahead(tasks, tree_of, max_depth) == seq![name] + lines_ahead(
        visit,
        tree_of,
        max_depth,
    ));
}

/// The number of steps that the entries `entries[from ..]` take, rendered
/// `levels` levels deep: one for each line, and one more for each entry
/// that is listed.
pub open spec fn steps_for(entries: Seq<Tree>, from: nat, levels: nat) -> nat
    decreases entries, entries.len() - from,
{
    if from >= entries.len() {
        0
    } else {
        let below = if levels > 0 {
            1 + steps_for(entries[from as int].children, 0, (levels - 1) as nat)
        } else {
            0
        };
        1 + below + steps_for(entries, from + 1, levels)
    }
}

/// The number of steps that the tasks take: one for each line, and for
/// each visit one and those of the entries of its tree.
spec fn steps_ahead<T>(tasks: Seq<Task<T>>, tree_of: spec_fn(T) -> Tree, max_depth: nat) -> nat
    decreases tasks.len(),
{
    if tasks.len() == 0 {
        0
    } else {
        let next = match tasks.last() {
            Task::Line(line) => 1,
            Task::Visit(handle, state) => 1 + steps_for(
                tree_of(handle).children,
                0,
                (max_depth - state.depth) as nat,
            ),
        };
        next + steps_ahead(tasks.drop_last(), tree_of, max_depth)
    }
}

proof fn lemma_steps_ahead_of_both<T>(
    lower: Seq<Task<T>>,
    upper: Seq<Task<T>>,
    tree_of: spec_fn(T) -> Tree,
    max_depth: nat,
)
    ensures
        steps_ahead(lower + upper, tree_of, max_depth) == steps_ahead(upper, tree_of, max_depth)
            + steps_ahead(lower, tree_of, max_depth),
    decreases upper.len(),
{
    if upper.len() == 0 {
        assert(lower + upper =~= lower);
    } else {
        lemma_steps_ahead_of_both(lower, upper.drop_last(), tree_of, max_depth);
        assert((lower + upper).drop_last() =~= lower + upper.drop_last());
    }
}

proof fn lemma_tasks_take_steps<T>(
    entries: Seq<Named<T>>,
    from: nat,
    tree: Tree,
    tree_of: spec_fn(T) -> Tree,
    state: State,
    max_depth: nat,
)
    requires
        lists(entries, tree, tree_of),
        state.depth <= max_depth,
    ensures
        steps_ahead(tasks_of(entries, from, state, max_depth), tree_of, max_depth) == steps_for(
            tree.children,
            from,
            (max_depth - state.depth) as nat,
        ),
    decreases entries.len() - from,
{
    if from < entries.len() {
        let is_last_child = from + 1 == entries.len();
        let entry = entries[from as int];
        let text = line_of(state.indent, is_last_child, state.closed_levels, entry.name);
        let line = Task::<T>::Line(text);
        let all = tasks_of(entries, from, state, max_depth);
        let later = tasks_of(entries, from + 1, state, max_depth);
        lemma_tasks_take_steps(entries, from + 1, tree, tree_of, state, max_depth);
        assert(tree_of(entry.handle) == tree.children[from as int]);
        if state.depth < max_depth {
            let inner = child_state(state, is_last_child);
            let visit = Task::Visit(entry.handle, inner);
            let upper = later + seq![visit];
            assert(all == upper + seq![line]);
            assert(all.last() == line);
            assert(all.drop_last() =~= upper);
            assert(upper.last() == visit);
            assert(upper.drop_last() =~= later);
            assert(steps_ahead(upper, tree_of, max_depth) == 1 + steps_for(
                tree.children[from as int].children,
                0,
                (max_depth - inner.depth) as nat,
            ) + steps_ahead(later, tree_of, max_depth));
            assert(steps_ahead(all, tree_of, max_depth) == 1 + steps_ahead(
                upper,
                tree_of,
                max_depth,
            ));
        } else {
            assert(all =~= later + seq![line]);
            assert(all.last() == line);
            assert(all.drop_last() =~= later);
            assert(steps_ahead(all, tree_of, max_depth) == 1 + steps_ahead(
                later,
                tree_of,
                max_depth,
            ));
        }
    }
}

/// The tasks of a listing hold states that are as the state of the
/// directory listed is.
proof fn lemma_tasks_of_inv<T>(entries: Seq<Named<T>>, from: nat, state: State, max_depth: nat)
    requires
        state_inv(state),
        state.depth <= max_depth,
    ensures
        tasks_inv(tasks_of(entries, from, state, max_depth), max_depth),
    decreases entries.len() - from,
{
    if from < entries.len() {
        lemma_tasks_of_inv(entries, from + 1, state, max_depth);
        lemma_state_inv(state, from + 1 == entries.len());
    }
}

/// Every walk starts with states that are as the states on the way down
/// from the root are, and every step keeps them so: indentation and depth
/// are the same number, no level is closed that is not below it, and no
/// directory is to be listed that lies beyond the depth limit.
pub proof fn lemma_step_keeps_inv<T>(
    walk: Walk<T>,
    entries: Seq<Named<T>>,
    name: Seq<char>,
    root: T,
    max_depth: nat,
)
    ensures
        walk_inv(start_of(name, root, max_depth)),
        walk_inv(walk) ==> walk_inv(take_in(walk, entries)),
        walk_inv(walk) ==> walk_inv(take_up(walk).0),
        walk_inv(walk) ==> walk_inv(step_of(walk, entries).0),
{
    lemma_state_inv(root_state(), false);
    if walk_inv(walk) {
        let taken = take_in(walk, entries);
        if walk.awaiting is Some {
            lemma_tasks_of_inv(entries, 0, walk.awaiting->0, walk.max_depth);
        }
        assert(walk_inv(taken));
        lemma_take_up_keeps_inv(walk);
        lemma_take_up_keeps_inv(taken);
    }
}

proof fn lemma_take_up_keeps_inv<T>(walk: Walk<T>)
    requires
        walk_inv(walk),
    ensures
        walk_inv(take_up(walk).0),
{
    if walk.tasks.len() > 0 {
        let rest = walk.tasks.drop_last();
        assert forall|i: int| 0 <= i < rest.len() implies rest[i] == walk.tasks[i] by {}
        assert(walk.tasks[walk.tasks.len() - 1] == walk.tasks.last());
    }
}

/// The lines that a walk prints within `steps` steps, where `brought` is
/// what its caller brings to the first of them, and `find` says what the
/// caller brings when it was asked to list an entry.
pub open spec fn lines_of_walk<T>(
    walk: Walk<T>,
    brought: Seq<Named<T>>,
    find: spec_fn(T) -> Seq<Named<T>>,
    steps: nat,
) -> Seq<Seq<char>>
    decreases steps,
{
    if steps == 0 {
        Seq::empty()
    } else {
        let next = step_of(walk, brought);
        match next.1 {
            Request::Done => Seq::empty(),
            Request::Print(line) => seq![line] + lines_of_walk(
                next.0,
                Seq::empty(),
                find,
                (steps - 1) as nat,
            ),
            Request::List(handle) => lines_of_walk(next.0, find(handle), find, (steps - 1) as nat),
        }
    }
}

/// Whether a walk is over within `steps` steps, where `brought` is what
/// its caller brings to the first of them, and `find` says what the caller
/// brings when it was asked to list an entry.
pub open spec fn walk_ends<T>(
    walk: Walk<T>,
    brought: Seq<Named<T>>,
    find: spec_fn(T) -> Seq<Named<T>>,
    steps: nat,
) -> bool
    decreases steps,
{
    if steps == 0 {
        false
    } else {
        let next = step_of(walk, brought);
        match next.1 {
            Request::Done => true,
            Request::Print(line) => walk_ends(next.0, Seq::empty(), find, (steps - 1) as nat),
            Request::List(handle) => walk_ends(next.0, find(handle), find, (steps - 1) as nat),
        }
    }
}

/// The number of steps of a walk of `tree`: one for the root's line, one
/// to list the root, those of the root's entries, and one to end.
pub open spec fn steps_of_walk(tree: Tree, max_depth: nat) -> nat {
    3 + steps_for(tree.children, 0, max_depth)
}

/// The lines that are still to come in a walk for which `awaited` is the
/// tree of the entry that it has asked to list: the lines of that tree's
/// entries, then the lines of the tasks.
spec fn lines_left<T>(walk: Walk<T>, awaited: Tree, tree_of: spec_fn(T) -> Tree) -> Seq<Seq<char>> {
    let listed = match walk.awaiting {
        Some(state) => render_entries(
            awaited.children,
            0,
            state.indent,
            state.closed_levels,
            state.depth,
            walk.max_depth,
        ),
        None => Seq::empty(),
    };
    listed + lines_ahead(walk.tasks, tree_of, walk.max_depth)
}

/// The number of steps that are still to come in such a walk, the last
/// one left out.
spec fn steps_left<T>(walk: Walk<T>, awaited: Tree, tree_of: spec_fn(T) -> Tree) -> nat {
    let listed = match walk.awaiting {
        Some(state) => steps_for(awaited.children, 0, (walk.max_depth - state.depth) as nat),
        None => 0,
    };
    listed + steps_ahead(walk.tasks, tree_of, walk.max_depth)
}

/// Taking in the listing that was asked for turns the lines and the steps
/// that are left into the lines and the steps of the tasks.
proof fn lemma_take_in_keeps_what_is_left<T>(
    walk: Walk<T>,
    brought: Seq<Named<T>>,
    awaited: Tree,
    tree_of: spec_fn(T) -> Tree,
)
    requires
        walk_inv(walk),
        walk.awaiting is Some ==> lists(brought, awaited, tree_of),
    ensures
        take_in(walk, brought).awaiting is None,
        take_in(walk, brought).max_depth == walk.max_depth,
        lines_ahead(take_in(walk, brought).tasks, tree_of, walk.max_depth) == lines_left(
            walk,
            awaited,
            tree_of,
        ),
        steps_ahead(take_in(walk, brought).tasks, tree_of, walk.max_depth) == steps_left(
            walk,
            awaited,
            tree_of,
        ),
{
    if walk.awaiting is Some {
        let state = walk.awaiting->0;
        lemma_listing_brings_entries(walk, brought, awaited, tree_of);
        lemma_tasks_take_steps(brought, 0, awaited, tree_of, state, walk.max_depth);
        lemma_steps_ahead_of_both(
            walk.tasks,
            tasks_of(brought, 0, state, walk.max_depth),
            tree_of,
            walk.max_depth,
        );
    } else {
        assert(lines_left(walk, awaited, tree_of) =~= lines_ahead(
            walk.tasks,
            tree_of,
            walk.max_depth,
        ));
    }
}

/// Given steps enough, a walk prints the lines that are left, and ends.
proof fn lemma_walk_brings_what_is_left<T>(
    walk: Walk<T>,
    brought: Seq<Named<T>>,
    awaited: Tree,
    find: spec_fn(T) -> Seq<Named<T>>,
    tree_of: spec_fn(T) -> Tree,
    steps: nat,
)
    requires
        walk_inv(walk),
        walk.awaiting is Some ==> lists(brought, awaited, tree_of),
        forall|handle: T| lists(#[trigger] find(handle), tree_of(handle), tree_of),
        steps > steps_left(walk, awaited, tree_of),
    ensures
        lines_of_walk(walk, brought, find, steps) == lines_left(walk, awaited, tree_of),
        walk_ends(walk, brought, find, steps),
    decreases steps,
{
    let taken = take_in(walk, brought);
    let next = take_up(taken);
    lemma_take_in_keeps_what_is_left(walk, brought, awaited, tree_of);
    lemma_step_keeps_inv(walk, brought, Seq::empty(), arbitrary(), 0);
    lemma_task_brings_lines(taken, tree_of);
    match next.1 {
        Request::Done => {},
        Request::Print(line) => {
            lemma_walk_brings_what_is_left(
                next.0,
                Seq::empty(),
                awaited,
                find,
                tree_of,
                (steps - 1) as nat,
            );
            assert(lines_left(next.0, awaited, tree_of) =~= lines_ahead(
                next.0.tasks,
                tree_of,
                walk.max_depth,
            ));
        },
        Request::List(handle) => {
            lemma_walk_brings_what_is_left(
                next.0,
                find(handle),
                tree_of(handle),
                find,
                tree_of,
                (steps - 1) as nat,
            );
        },
    }
}

/// A walk brings the rendering. Let the caller answer each request to
/// list an entry with the listing of one and the same tree: `tree_of`
/// says which tree stands behind a handle, and what the caller finds for
/// a handle lists that tree. Then the walk is over within `steps_of_walk`
/// steps, and the lines that it asks to print, in the order in which it
/// asks, are the rendering of the root's tree under the name given.
pub proof fn lemma_walk_brings_rendering<T>(
    name: Seq<char>,
    root: T,
    max_depth: nat,
    find: spec_fn(T) -> Seq<Named<T>>,
    tree_of: spec_fn(T) -> Tree,
    steps: nat,
)
    requires
        forall|handle: T| lists(#[trigger] find(handle), tree_of(handle), tree_of),
        steps >= steps_of_walk(tree_of(root), max_depth),
    ensures
        lines_of_walk(start_of(name, root, max_depth), Seq::empty(), find, steps) == render_lines(
            Tree { name, children: tree_of(root).children },
            max_depth,
        ),
        walk_ends(start_of(name, root, max_depth), Seq::empty(), find, steps),
{
    let start = start_of(name, root, max_depth);
    lemma_step_keeps_inv(start, Seq::empty(), name, root, max_depth);
    lemma_start_brings_rendering(name, root, max_depth, tree_of);
    assert(steps_left(start, tree_of(root), tree_of) == 2 + steps_for(
        tree_of(root).children,
        0,
        max_depth,
    )) by {
        let visit = seq![Task::Visit(root, root_state())];
        assert(start.tasks.last() == Task::<T>::Line(name));
        assert(start.tasks.drop_last() =~= visit);
        assert(visit.drop_last() =~= Seq::<Task<T>>::empty());
        assert(steps_ahead(visit.drop_last(), tree_of, max_depth) == 0);
        assert(steps_ahead(visit, tree_of, max_depth) == 1 + steps_for(
            tree_of(root).children,
            0,
            max_depth,
        ));
    }
    lemma_walk_brings_what_is_left(start, Seq::empty(), tree_of(root), find, tree_of, steps);
    assert(lines_left(start, tree_of(root), tree_of) =~= lines_ahead(
        start.tasks,
        tree_of,
        max_depth,
    ));
}

/// The tree that stands behind a reference to an entry: the entry's own.
pub open spec fn tree_behind<'a>() -> spec_fn(&'a Entry) -> Tree {
    |entry: &Entry| entry@
}

/// The listing of an entry in memory: the names of its entries, each with
/// a reference to the entry as its handle.
fn listing_of<'a>(entry: &'a Entry) -> (listing: Vec<Listed<&'a Entry>>)
    ensures
        lists(listing_view(listing@), entry@, tree_behind()),
{
    let mut listing: Vec<Listed<&'a Entry>> = Vec::new();
    let mut i: usize = 0;
    while i < entry.children.len()
        invariant
            i <= entry.children@.len(),
            listing@.len() == i,
            forall|k: int|
                0 <= k < i ==> (#[trigger] listing@[k]).name@ == entry.children@[k].name@
                    && listing@[k].handle == &entry.children@[k],
        decreases entry.children@.len() - i,
    {
        let child = &entry.children[i];
        listing.push(Listed { name: child.name.clone(), handle: child });
        i = i + 1;
    }
    proof {
        let entries = listing_view(listing@);
        assert forall|k: int| 0 <= k < entries.len() implies (#[trigger] entries[k]).name
            == entry@.children[k].name && tree_behind()(entries[k].handle)
            == entry@.children[k] by {
            assert(entries[k] == listing@[k]@);
            assert(entry@.children[k] == entry.children@[k]@);
        }
    }
    listing
}

/// The lines of the tree below `root`, got by walking it: a [`Walker`] is
/// stepped until it is done, each line that it asks to print is kept, and
/// each listing that it asks for is taken from the tree in memory. The
/// lines are those of [`render`](crate::tree::render).
pub fn render_stepwise(root: &Entry, max_depth: u32) -> (lines: Vec<String>)
    ensures
        lines.deep_view() == render_lines(root@, max_depth as nat),
{
    let mut walker = Walker::new(root.name.clone(), root, max_depth);
    let mut lines: Vec<String> = Vec::new();
    let mut event: Event<&Entry> = Event::Resume;
    let ghost mut awaited: Tree = root@;
    proof {
        lemma_start_brings_rendering(root@.name, root, max_depth as nat, tree_behind());
        assert(Tree { name: root@.name, children: root@.children } == root@);
        assert(lines.deep_view() + lines_left(walker@, awaited, tree_behind()) =~= render_lines(
            root@,
            max_depth as nat,
        ));
    }
    loop
        invariant
            walker@.max_depth == max_depth,
            walk_inv(walker@),
            walker@.awaiting is Some ==> lists(event_entries(event), awaited, tree_behind()),
            lines.deep_view() + lines_left(walker@, awaited, tree_behind()) == render_lines(
                root@,
                max_depth as nat,
            ),
        decreases steps_left(walker@, awaited, tree_behind()),
    {
        let ghost taken = take_in(walker@, event_entries(event));
        let ghost printed = lines.deep_view();
        proof {
            lemma_take_in_keeps_what_is_left(
                walker@,
                event_entries(event),
                awaited,
                tree_behind(),
            );
            lemma_task_brings_lines(taken, tree_behind());
        }
        let (next, action) = walker.step(event);
        walker = next;
        let ghost ahead = lines_ahead(walker@.tasks, tree_behind(), max_depth as nat);
        match action {
            Action::Print(line) => {
                lines.push(line);
                event = Event::Resume;
                proof {
                    assert(lines.deep_view() =~= printed + seq![line@]);
                    assert(lines.deep_view() + lines_left(walker@, awaited, tree_behind())
                        =~= printed + (seq![line@] + ahead));
                }
            },
            Action::List(entry) => {
                event = Event::Listing(listing_of(entry));
                proof {
                    awaited = entry@;
                    let state = walker@.awaiting->0;
                    let listed = render_entries(
                        awaited.children,
                        0,
                        state.indent,
                        state.closed_levels,
                        state.depth,
                        max_depth as nat,
                    );
                    assert(lines.deep_view() + lines_left(walker@, awaited, tree_behind())
                        =~= printed + (listed + ahead));
                }
            },
            Action::Done => {
                proof {
                    assert(lines.deep_view() =~= printed + Seq::<Seq<char>>::empty());
                }
                return lines;
            },
        }
    }
}

} // verus!
