//! The second pass: each file that the walk finds is given the first free
//! name in the root and moved there. The caller performs each action that
//! the pass returns and hands back what came of it.
use vstd::prelude::*;
use crate::filter::FilterRules;
use crate::naming::{candidate, candidate_name};
use crate::walk::{Entry, EntryKind, Found, FoundView, Walk, WalkView, clone_names, listing_view, root, root_view};

verus! {

/// Where a flatten pass stands.
pub enum Phase {
    /// It waits for the listing of this directory.
    Listing(Found),
    /// It waits to learn whether the candidate name of this number is taken
    /// in the root.
    Probing(Found, usize),
    /// It waits to learn whether the file was moved to this name.
    Renaming(Found, String),
    /// The walk is over.
    Finished,
}

/// What the caller learned by performing the last action.
pub enum Event {
    /// The entries of the directory that was to be listed.
    Listed(Vec<Entry>),
    /// Whether anything stands in the root under the probed name.
    Probed(bool),
    /// Whether the rename succeeded.
    Renamed(bool),
}

/// What the caller is to do next.
#[derive(Debug)]
pub enum Action {
    /// List the directory at this path below the root.
    ReadDir(Vec<String>),
    /// Tell whether anything stands in the root under this name.
    Probe(String),
    /// Rename the file at this path below the root to this name in the root.
    Rename(Vec<String>, String),
    /// Nothing is left; so many files were moved.
    Finish(usize),
}

/// The model of a phase.
pub enum PhaseView {
    Listing(FoundView),
    Probing(FoundView, usize),
    Renaming(FoundView, Seq<char>),
    Finished,
}

/// The model of an event.
pub enum EventView {
    Listed(Seq<(Seq<char>, EntryKind)>),
    Probed(bool),
    Renamed(bool),
}

/// The model of an action.
pub enum ActionView {
    ReadDir(Seq<Seq<char>>),
    Probe(Seq<char>),
    Rename(Seq<Seq<char>>, Seq<char>),
    Finish(usize),
}

impl View for Phase {
    type V = PhaseView;

    open spec fn view(&self) -> PhaseView {
        match self {
            Phase::Listing(d) => PhaseView::Listing(d@),
            Phase::Probing(f, k) => PhaseView::Probing(f@, *k),
            Phase::Renaming(f, to) => PhaseView::Renaming(f@, to@),
            Phase::Finished => PhaseView::Finished,
        }
    }
}

impl View for Event {
    type V = EventView;

    open spec fn view(&self) -> EventView {
        match self {
            Event::Listed(es) => EventView::Listed(listing_view(es@)),
            Event::Probed(b) => EventView::Probed(*b),
            Event::Renamed(b) => EventView::Renamed(*b),
        }
    }
}

impl View for Action {
    type V = ActionView;

    open spec fn view(&self) -> ActionView {
        match self {
            Action::ReadDir(p) => ActionView::ReadDir(p.deep_view()),
            Action::Probe(n) => ActionView::Probe(n@),
            Action::Rename(p, n) => ActionView::Rename(p.deep_view(), n@),
            Action::Finish(c) => ActionView::Finish(*c),
        }
    }
}

/// The model of a flatten pass.
pub struct FlattenPassView {
    pub walk: WalkView,
    pub phase: PhaseView,
    pub moved: usize,
}

/// The name of a found file: the last name of its path.
pub open spec fn file_name(f: FoundView) -> Seq<char> {
    f.path.last()
}

/// Hands out the next item: a directory is to be listed; a file's own name
/// is probed first; with nothing left, the count of moved files is reported.
pub open spec fn advance(walk: WalkView, moved: usize) -> (FlattenPassView, ActionView) {
    if walk.pending.len() == 0 {
        (FlattenPassView { walk, phase: PhaseView::Finished, moved }, ActionView::Finish(moved))
    } else {
        let f = walk.pending.last();
        if f.is_dir {
            (
                FlattenPassView { walk: walk.popped(), phase: PhaseView::Listing(f), moved },
                ActionView::ReadDir(f.path),
            )
        } else {
            (
                FlattenPassView { walk: walk.popped(), phase: PhaseView::Probing(f, 0), moved },
                ActionView::Probe(candidate(file_name(f), 0)),
            )
        }
    }
}

/// The pass and the next action once `e` is taken in. A listing goes onto
/// the walk. A taken name leads to the next candidate, a free one to the
/// rename (a file whose candidates run out is left where it is). A rename
/// that succeeded adds one to the count, which stops at `usize::MAX`.
pub open spec fn flatten_step(v: FlattenPassView, e: EventView) -> (FlattenPassView, ActionView) {
    match (v.phase, e) {
        (PhaseView::Listing(d), EventView::Listed(es)) => advance(v.walk.expanded(d, es), v.moved),
        (PhaseView::Probing(f, k), EventView::Probed(taken)) => if !taken {
            (
                FlattenPassView {
                    phase: PhaseView::Renaming(f, candidate(file_name(f), k as nat)),
                    ..v
                },
                ActionView::Rename(f.path, candidate(file_name(f), k as nat)),
            )
        } else if k < usize::MAX {
            (
                FlattenPassView { phase: PhaseView::Probing(f, (k + 1) as usize), ..v },
                ActionView::Probe(candidate(file_name(f), (k + 1) as nat)),
            )
        } else {
            advance(v.walk, v.moved)
        },
        (PhaseView::Renaming(_, _), EventView::Renamed(ok)) => advance(
            v.walk,
            if ok && v.moved < usize::MAX {
                (v.moved + 1) as usize
            } else {
                v.moved
            },
        ),
        _ => (v, ActionView::Finish(v.moved)),
    }
}

impl FlattenPassView {
    /// The event answers the action that the pass is waiting on.
    pub open spec fn accepts(self, e: EventView) -> bool {
        match (self.phase, e) {
            (PhaseView::Listing(_), EventView::Listed(_)) => true,
            (PhaseView::Probing(_, _), EventView::Probed(_)) => true,
            (PhaseView::Renaming(_, _), EventView::Renamed(_)) => true,
            _ => false,
        }
    }

    /// The walk is well formed; the awaited directory may be listed; the file
    /// in hand is admissible; a finished pass holds nothing.
    pub open spec fn wf(self) -> bool {
        &&& self.walk.wf()
        &&& match self.phase {
            PhaseView::Listing(d) => self.walk.listable(d),
            PhaseView::Probing(f, _) => self.walk.admissible(f) && !f.is_dir,
            PhaseView::Renaming(f, _) => self.walk.admissible(f) && !f.is_dir,
            PhaseView::Finished => self.walk.pending.len() == 0,
        }
    }
}

/// The flatten pass: a walk whose visitor moves each file into the root.
pub struct FlattenPass {
    pub walk: Walk,
    pub phase: Phase,
    pub moved: usize,
}

impl View for FlattenPass {
    type V = FlattenPassView;

    open spec fn view(&self) -> FlattenPassView {
        FlattenPassView { walk: self.walk@, phase: self.phase@, moved: self.moved }
    }
}

impl FlattenPass {
    /// A pass that waits for the listing of the root, with nothing moved yet.
    pub fn new(max_depth: Option<usize>, rules: FilterRules) -> (r: FlattenPass)
        requires
            rules.wf(),
        ensures
            r@.wf(),
            r@.phase == PhaseView::Listing(root_view()),
            r@.walk.pending.len() == 0,
            r@.walk.max_depth == max_depth,
            r@.walk.includes == rules.includes.deep_view(),
            r@.walk.excludes == rules.excludes.deep_view(),
            r@.moved == 0,
    {
        FlattenPass { walk: Walk::new(max_depth, rules), phase: Phase::Listing(root()), moved: 0 }
    }

    /// Whether `event` answers the action that the pass waits on.
    pub fn accepts(&self, event: &Event) -> (r: bool)
        ensures
            r == self@.accepts(event@),
    {
        match (&self.phase, event) {
            (Phase::Listing(_), Event::Listed(_)) => true,
            (Phase::Probing(_, _), Event::Probed(_)) => true,
            (Phase::Renaming(_, _), Event::Renamed(_)) => true,
            _ => false,
        }
    }

    /// Hands out the next item of the walk.
    fn advance(&mut self) -> (r: Action)
        requires
            old(self).walk@.wf(),
        ensures
            (final(self)@, r@) == advance(old(self).walk@, old(self).moved),
            final(self)@.wf(),
    {
        let ghost w0 = self.walk@;
        match self.walk.next() {
            None => {
                self.phase = Phase::Finished;
                Action::Finish(self.moved)
            },
            Some(f) => {
                if f.is_dir {
                    let path = clone_names(&f.path);
                    self.phase = Phase::Listing(f);
                    Action::ReadDir(path)
                } else {
                    let name = candidate_name(f.path[f.path.len() - 1].as_str(), 0);
                    assert(f@.path.last() == f.path@[f.path@.len() - 1]@);
                    self.phase = Phase::Probing(f, 0);
                    Action::Probe(name)
                }
            },
        }
    }
}

/// Takes in what came of the last action and returns the next one: list a
/// directory, probe a name in the root, rename a file into the root, or
/// finish with the count of files moved.
pub fn flatten_directory_by_traversal(pass: &mut FlattenPass, event: Event) -> (r: Action)
    requires
        old(pass)@.wf(),
        old(pass)@.accepts(event@),
    ensures
        (final(pass)@, r@) == flatten_step(old(pass)@, event@),
        final(pass)@.wf(),
        r matches Action::Rename(from, _) ==> from@.len() >= 2 && old(pass)@.walk.admits(
            from.deep_view()[0],
        ) && within_bound(old(pass)@.walk.max_depth, from.deep_view()),
{
    let mut phase = Phase::Finished;
    core::mem::swap(&mut pass.phase, &mut phase);
    match (phase, event) {
        (Phase::Listing(d), Event::Listed(entries)) => {
            pass.walk.expand(&d, &entries);
            pass.advance()
        },
        (Phase::Probing(f, k), Event::Probed(taken)) => {
            let name = f.path[f.path.len() - 1].as_str();
            assert(f@.path.last() == f.path@[f.path@.len() - 1]@);
            if !taken {
                let to = candidate_name(name, k);
                let from = clone_names(&f.path);
                let dest = to.clone();
                pass.phase = Phase::Renaming(f, to);
                Action::Rename(from, dest)
            } else if k < usize::MAX {
                let next = candidate_name(name, k + 1);
                pass.phase = Phase::Probing(f, k + 1);
                Action::Probe(next)
            } else {
                pass.advance()
            }
        },
        (Phase::Renaming(_, _), Event::Renamed(ok)) => {
            if ok && pass.moved < usize::MAX {
                pass.moved = pass.moved + 1;
            }
            pass.advance()
        },
        (_, _) => {
            Action::Finish(pass.moved)
        },
    }
}

/// A file at `path` sits in a directory at depth 1 to the bound.
pub open spec fn within_bound(max_depth: Option<usize>, path: Seq<Seq<char>>) -> bool {
    path.len() >= 2 && crate::walk::within_depth(max_depth, (path.len() - 1) as nat)
}

} // verus!
