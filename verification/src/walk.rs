//! Rendering a tree step by step, for a caller that finds out what a
//! directory holds only when it is asked to list it.
//!
//! A [`Walker`] decides; its caller acts. Each call of [`Walker::step`]
//! hands the walker what the last action brought and returns the next
//! action: a line to print, a directory to list, or the end. The walker
//! never asks for a directory that lies beyond the depth limit, and it asks
//! for an entry's directory only after that entry's line went out.

use crate::prefix::{clone_levels, closed_below, level_set, update_indexes};
use crate::tree::{child_levels, entry_line, line_of};
use std::collections::HashSet;
use vstd::prelude::*;

verus! {

broadcast use vstd::std_specs::hash::group_hash_axioms;

/// What a [`DepthState`] stands for.
pub struct State {
    pub indent: nat,
    pub closed_levels: Set<nat>,
    pub depth: nat,
}

/// The state in which the root's entries are rendered: no indentation, no
/// closed level, depth 0.
pub open spec fn root_state() -> State {
    State { indent: 0, closed_levels: Set::empty(), depth: 0 }
}

/// The state in which the entries of an entry are rendered, given the
/// state of the entry's own directory: one level further in and one
/// deeper, and with the directory's depth closed if the entry is the last.
pub open spec fn child_state(state: State, is_last_child: bool) -> State {
    State {
        indent: state.indent + 1,
        closed_levels: child_levels(state.closed_levels, state.depth, is_last_child),
        depth: state.depth + 1,
    }
}

/// What holds of every state on the way down from the root: indentation
/// and depth are the same number, and every closed level lies below it.
pub open spec fn state_inv(state: State) -> bool {
    &&& state.indent == state.depth
    &&& closed_below(state.closed_levels, state.indent)
}

/// The root state is as every state is, and the state of an entry's own
/// entries is so if the state of the entry's directory is.
pub proof fn lemma_state_inv(state: State, is_last_child: bool)
    ensures
        state_inv(root_state()),
        state_inv(state) ==> state_inv(child_state(state, is_last_child)),
{
}

/// The context in which the entries of one directory are rendered: how far
/// they are indented, how deep the directory lies, and which ancestor
/// levels are closed. Each directory gets a state of its own.
pub struct DepthState {
    indent: u32,
    closed: HashSet<u32>,
    depth: u32,
}

impl View for DepthState {
    type V = State;

    closed spec fn view(&self) -> State {
        State {
            indent: self.indent as nat,
            closed_levels: level_set(self.closed@),
            depth: self.depth as nat,
        }
    }
}

impl DepthState {
    #[verifier::type_invariant]
    spec fn inv(&self) -> bool {
        state_inv(self@)
    }

    /// The state of the root's entries.
    pub fn root() -> (state: DepthState)
        ensures
            state@ == root_state(),
    {
        let closed: HashSet<u32> = HashSet::new();
        assert(level_set(closed@) =~= Set::<nat>::empty());
        DepthState { indent: 0, closed, depth: 0 }
    }

    /// The state of the entries of one entry of this state's directory.
    /// This state is left as it was. There must be a deeper level to go to.
    pub fn child(&self, is_last_child: bool) -> (state: DepthState)
        requires
            self@.depth < u32::MAX,
        ensures
            state@ == child_state(self@, is_last_child),
    {
        proof {
            use_type_invariant(self);
            lemma_state_inv(self@, is_last_child);
        }
        let closed = if is_last_child {
            update_indexes(&self.closed, self.depth)
        } else {
            clone_levels(&self.closed)
        };
        DepthState { indent: self.indent + 1, closed, depth: self.depth + 1 }
    }

    /// The line of an entry of this state's directory.
    pub fn line(&self, is_last_child: bool, name: &str) -> (line: String)
        ensures
            line@ == line_of(self@.indent, is_last_child, self@.closed_levels, name@),
    {
        entry_line(self.indent, is_last_child, &self.closed, name)
    }

    /// How far the entries of this state's directory are indented. It is
    /// also how deep the directory lies.
    pub fn indent(&self) -> (indent: u32)
        ensures
            indent == self@.indent,
            indent == self@.depth,
    {
        proof {
            use_type_invariant(self);
        }
        self.indent
    }

    /// How deep this state's directory lies.
    pub fn depth(&self) -> (depth: u32)
        ensures
            depth == self@.depth,
    {
        self.depth
    }

    /// Whether `level` is closed. No level is closed that is not below the
    /// indentation.
    pub fn is_closed(&self, level: u32) -> (closed: bool)
        ensures
            closed == self@.closed_levels.contains(level as nat),
            closed ==> level < self@.indent,
    {
        let closed = self.closed.contains(&level);
        proof {
            use_type_invariant(self);
            assert(self@.closed_levels.contains(level as nat) == closed);
        }
        closed
    }
}

/// One entry of a listing: its name, and the handle by which the caller
/// will find the entry again when asked to list it.
#[derive(Debug, PartialEq, Eq)]
pub struct Listed<T> {
    pub name: String,
    pub handle: T,
}

/// What a [`Listed`] stands for.
pub struct Named<T> {
    pub name: Seq<char>,
    pub handle: T,
}

impl<T> View for Listed<T> {
    type V = Named<T>;

    open spec fn view(&self) -> Named<T> {
        Named { name: self.name@, handle: self.handle }
    }
}

/// The names and handles of a listing, in its order.
pub open spec fn listing_view<T>(listing: Seq<Listed<T>>) -> Seq<Named<T>> {
    Seq::new(listing.len(), |i: int| listing[i]@)
}

/// What the caller hands to the walker.
#[derive(Debug, PartialEq, Eq)]
pub enum Event<T> {
    /// Nothing to report: the walk starts, or a line was printed, or what
    /// was to be listed is no directory.
    Resume,
    /// The entries of the directory that the walker asked for, in the
    /// order in which the directory lists them.
    Listing(Vec<Listed<T>>),
}

/// What an [`Event`] stands for: the entries that it brings.
pub open spec fn event_entries<T>(event: Event<T>) -> Seq<Named<T>> {
    match event {
        Event::Resume => Seq::empty(),
        Event::Listing(listing) => listing_view(listing@),
    }
}

/// What the walker asks of its caller.
#[derive(Debug, PartialEq, Eq)]
pub enum Action<T> {
    /// Print this line.
    Print(String),
    /// List the entry with this handle, and hand the listing to the next
    /// step.
    List(T),
    /// The walk is over.
    Done,
}

/// What an [`Action`] stands for.
pub enum Request<T> {
    Print(Seq<char>),
    List(T),
    Done,
}

impl<T> View for Action<T> {
    type V = Request<T>;

    open spec fn view(&self) -> Request<T> {
        match self {
            Action::Print(line) => Request::Print(line@),
            Action::List(handle) => Request::List(*handle),
            Action::Done => Request::Done,
        }
    }
}

/// A piece of work that the walker has put off.
enum Work<T> {
    Line(String),
    Visit(T, DepthState),
}

/// What a piece of work stands for: a line to print, or an entry whose
/// own entries are to be listed and rendered in a given state.
pub enum Task<T> {
    Line(Seq<char>),
    Visit(T, State),
}

impl<T> View for Work<T> {
    type V = Task<T>;

    closed spec fn view(&self) -> Task<T> {
        match self {
            Work::Line(line) => Task::Line(line@),
            Work::Visit(handle, state) => Task::Visit(*handle, state@),
        }
    }
}

/// What a [`Walker`] stands for.
pub struct Walk<T> {
    /// The depth limit.
    pub max_depth: nat,
    /// The work put off; the last task is the next to be taken up.
    pub tasks: Seq<Task<T>>,
    /// The state of the directory whose listing the walker has asked for
    /// and not yet got.
    pub awaiting: Option<State>,
}

/// The tasks that the entries `entries[from ..]` of a listing give rise
/// to, the first entry's tasks standing last: for each entry its line,
/// and before that, while the directory's depth is below the limit, the
/// visit of the entry.
pub open spec fn tasks_of<T>(
    entries: Seq<Named<T>>,
    from: nat,
    state: State,
    max_depth: nat,
) -> Seq<Task<T>>
    decreases entries.len() - from,
{
    if from >= entries.len() {
        Seq::empty()
    } else {
        let is_last_child = from + 1 == entries.len();
        let entry = entries[from as int];
        let visit = if state.depth < max_depth {
            seq![Task::Visit(entry.handle, child_state(state, is_last_child))]
        } else {
            Seq::empty()
        };
        tasks_of(entries, from + 1, state, max_depth) + visit + seq![
            Task::Line(line_of(state.indent, is_last_child, state.closed_levels, entry.name)),
        ]
    }
}

/// The walk after it has taken in what the caller brought: where a
/// listing was awaited, the tasks of the entries brought are put on top of
/// the work, and nothing is awaited any more. Entries that were not asked
/// for are left aside.
pub open spec fn take_in<T>(walk: Walk<T>, entries: Seq<Named<T>>) -> Walk<T> {
    match walk.awaiting {
        Some(state) => Walk {
            max_depth: walk.max_depth,
            tasks: walk.tasks + tasks_of(entries, 0, state, walk.max_depth),
            awaiting: None,
        },
        None => walk,
    }
}

/// The walk after its next task has been taken up, and what the caller is
/// asked to do for it: to print the line, or to list the entry, whose
/// listing is then awaited. Without a task the walk is over.
pub open spec fn take_up<T>(walk: Walk<T>) -> (Walk<T>, Request<T>) {
    if walk.tasks.len() == 0 {
        (walk, Request::Done)
    } else {
        let rest = Walk {
            max_depth: walk.max_depth,
            tasks: walk.tasks.drop_last(),
            awaiting: walk.awaiting,
        };
        match walk.tasks.last() {
            Task::Line(line) => (rest, Request::Print(line)),
            Task::Visit(handle, state) => (
                Walk { max_depth: walk.max_depth, tasks: rest.tasks, awaiting: Some(state) },
                Request::List(handle),
            ),
        }
    }
}

/// One step of a walk: take in what the caller brought, then take up the
/// next task.
pub open spec fn step_of<T>(walk: Walk<T>, entries: Seq<Named<T>>) -> (Walk<T>, Request<T>) {
    take_up(take_in(walk, entries))
}

/// The walk that renders the tree below `root` under the name `name`: the
/// root's line is the next task, the visit of the root the one after.
pub open spec fn start_of<T>(name: Seq<char>, root: T, max_depth: nat) -> Walk<T> {
    Walk {
        max_depth,
        tasks: seq![Task::Visit(root, root_state()), Task::Line(name)],
        awaiting: None,
    }
}

/// Whether every state that the tasks hold is as the states on the way
/// down from the root are, and lies at the depth limit or above.
pub open spec fn tasks_inv<T>(tasks: Seq<Task<T>>, max_depth: nat) -> bool {
    forall|i: int|
        0 <= i < tasks.len() ==> (#[trigger] tasks[i] matches Task::Visit(_, state) ==> state_inv(
            state,
        ) && state.depth <= max_depth)
}

/// Whether every state that the walk holds is as the states on the way
/// down from the root are, and lies at the depth limit or above.
pub open spec fn walk_inv<T>(walk: Walk<T>) -> bool {
    &&& tasks_inv(walk.tasks, walk.max_depth)
    &&& walk.awaiting matches Some(state) ==> state_inv(state) && state.depth <= walk.max_depth
}

/// The tasks that a stack of work stands for.
spec fn work_tasks<T>(work: Seq<Work<T>>) -> Seq<Task<T>> {
    Seq::new(work.len(), |i: int| work[i]@)
}

/// A walk in progress.
pub struct Walker<T> {
    max_depth: u32,
    work: Vec<Work<T>>,
    awaiting: Option<DepthState>,
}

impl<T> View for Walker<T> {
    type V = Walk<T>;

    closed spec fn view(&self) -> Walk<T> {
        Walk {
            max_depth: self.max_depth as nat,
            tasks: work_tasks(self.work@),
            awaiting: match self.awaiting {
                Some(state) => Some(state@),
                None => None,
            },
        }
    }
}

/// Puts the tasks of a listing on top of the work.
fn put_off<T>(work: &mut Vec<Work<T>>, state: DepthState, listing: Vec<Listed<T>>, max_depth: u32)
    requires
        state@.depth <= max_depth,
        tasks_inv(work_tasks(old(work)@), max_depth as nat),
    ensures
        work_tasks(final(work)@) == work_tasks(old(work)@) + tasks_of(
            listing_view(listing@),
            0,
            state@,
            max_depth as nat,
        ),
        tasks_inv(work_tasks(final(work)@), max_depth as nat),
{
    proof {
        use_type_invariant(&state);
    }
    let ghost entries = listing_view(listing@);
    let ghost before = work_tasks(work@);
    let mut listing = listing;
    let num_children = listing.len();
    while listing.len() > 0
        invariant
            num_children == entries.len(),
            listing@.len() <= num_children,
            forall|i: int| 0 <= i < listing@.len() ==> #[trigger] listing@[i]@ == entries[i],
            state@.depth <= max_depth,
            state_inv(state@),
            tasks_inv(work_tasks(work@), max_depth as nat),
            work_tasks(work@) == before + tasks_of(
                entries,
                listing@.len() as nat,
                state@,
                max_depth as nat,
            ),
        decreases listing.len(),
    {
        let ghost above = work_tasks(work@);
        let ghost rest = listing@.len() as nat;
        let is_last_child = listing.len() == num_children;
        let entry = listing.pop().unwrap();
        assert(entry@ == entries[listing@.len() as int]);
        let ghost visit = if state@.depth < max_depth {
            seq![Task::Visit(entry.handle, child_state(state@, is_last_child))]
        } else {
            Seq::empty()
        };
        if state.depth() < max_depth {
            let below = state.child(is_last_child);
            proof {
                lemma_state_inv(state@, is_last_child);
            }
            work.push(Work::Visit(entry.handle, below));
        }
        assert(work_tasks(work@) =~= above + visit);
        let line = state.line(is_last_child, entry.name.as_str());
        work.push(Work::Line(line));
        assert(work_tasks(work@) =~= above + visit + seq![Task::Line(line@)]);
        assert(tasks_of(entries, listing@.len() as nat, state@, max_depth as nat) == tasks_of(
            entries,
            rest,
            state@,
            max_depth as nat,
        ) + visit + seq![Task::Line(line@)]);
        assert(work_tasks(work@) =~= before + tasks_of(
            entries,
            listing@.len() as nat,
            state@,
            max_depth as nat,
        ));
    }
}

impl<T> Walker<T> {
    #[verifier::type_invariant]
    spec fn inv(&self) -> bool {
        walk_inv(self@)
    }

    /// A walker for the tree below `root`, whose line is `name`.
    pub fn new(name: String, root: T, max_depth: u32) -> (walker: Walker<T>)
        ensures
            walker@ == start_of(name@, root, max_depth as nat),
            walk_inv(walker@),
    {
        let mut work: Vec<Work<T>> = Vec::new();
        work.push(Work::Visit(root, DepthState::root()));
        work.push(Work::Line(name));
        assert(work_tasks(work@) =~= start_of(name@, root, max_depth as nat).tasks);
        Walker { max_depth, work, awaiting: None }
    }

    /// One step of the walk: the walker after the step, and what it asks
    /// of its caller. The walker takes in what the caller brought: where
    /// it awaited a listing, the entries of `event` are the entries of the
    /// directory asked for, and none if `event` brings none; where it
    /// awaited none, they are left aside. Then it takes up what is next:
    /// the next line, or the next entry to list, or the end.
    pub fn step(self, event: Event<T>) -> (next: (Walker<T>, Action<T>))
        ensures
            next.0@ == step_of(self@, event_entries(event)).0,
            next.1@ == step_of(self@, event_entries(event)).1,
            walk_inv(self@),
            walk_inv(next.0@),
    {
        let ghost entries = event_entries(event);
        proof {
            use_type_invariant(&self);
        }
        let Walker { max_depth, mut work, awaiting } = self;
        match awaiting {
            Some(state) => {
                let listing = match event {
                    Event::Resume => Vec::new(),
                    Event::Listing(listing) => listing,
                };
                assert(listing_view(listing@) =~= entries);
                put_off(&mut work, state, listing, max_depth);
            },
            None => {},
        }
        let ghost taken = work_tasks(work@);
        assert(taken == take_in(self@, entries).tasks);
        match work.pop() {
            None => (Walker { max_depth, work, awaiting: None }, Action::Done),
            Some(Work::Line(line)) => {
                assert(work_tasks(work@) =~= taken.drop_last());
                assert forall|i: int| 0 <= i < work@.len() implies work_tasks(work@)[i]
                    == taken[i] by {}
                (Walker { max_depth, work, awaiting: None }, Action::Print(line))
            },
            Some(Work::Visit(handle, state)) => {
                assert(work_tasks(work@) =~= taken.drop_last());
                assert forall|i: int| 0 <= i < work@.len() implies work_tasks(work@)[i]
                    == taken[i] by {}
                assert(taken[taken.len() - 1] == Task::Visit(handle, state@));
                (Walker { max_depth, work, awaiting: Some(state) }, Action::List(handle))
            },
        }
    }
}

} // verus!
