//! What a whole flatten pass over a directory tree does.
use vstd::prelude::*;
use crate::flatten::{EventView, FlattenPassView, PhaseView, advance, flatten_step};
use crate::laws::{lemma_expanded_wf, lemma_popped_wf};
use crate::tree::{
    Tree, config, contents_at, expansion, files_below, lemma_stack_expansion, lemma_stacked_config,
    listing_of, stack_files, well_named,
};
use crate::walk::{FoundView, WalkView, root_view};

verus! {

/// The files that a flatten pass over the tree has still to finish with,
/// the one in hand first.
pub open spec fn files_pending(v: FlattenPassView, cs: Seq<Tree>) -> Seq<FoundView> {
    let w = config(v.walk);
    match v.phase {
        PhaseView::Listing(d) => expansion(w, cs, d) + stack_files(w, cs, v.walk.pending),
        PhaseView::Probing(f, _) => seq![f] + stack_files(w, cs, v.walk.pending),
        PhaseView::Renaming(f, _) => seq![f] + stack_files(w, cs, v.walk.pending),
        PhaseView::Finished => stack_files(w, cs, v.walk.pending),
    }
}

/// The pass accepts the event, and a listing is the tree's listing of the
/// directory that the pass waits for.
pub open spec fn tree_event(v: FlattenPassView, cs: Seq<Tree>, e: EventView) -> bool {
    &&& v.accepts(e)
    &&& (v.phase matches PhaseView::Listing(d) ==> e == EventView::Listed(
        listing_of(contents_at(cs, d.path)),
    ))
}

/// The file that the pass is done with once it takes in `e`: the answer to
/// its rename, or a taken answer for its last candidate.
pub open spec fn done_with(v: FlattenPassView, e: EventView) -> Seq<FoundView> {
    match (v.phase, e) {
        (PhaseView::Renaming(f, _), EventView::Renamed(_)) => seq![f],
        (PhaseView::Probing(f, k), EventView::Probed(taken)) => if taken && k == usize::MAX {
            seq![f]
        } else {
            Seq::empty()
        },
        _ => Seq::empty(),
    }
}

/// The pass after the events `evs`, in order.
pub open spec fn run(v: FlattenPassView, evs: Seq<EventView>) -> FlattenPassView
    decreases evs.len(),
{
    if evs.len() == 0 {
        v
    } else {
        run(flatten_step(v, evs[0]).0, evs.drop_first())
    }
}

/// The files that the pass is done with over the events `evs`, in order.
pub open spec fn done_over(v: FlattenPassView, evs: Seq<EventView>) -> Seq<FoundView>
    decreases evs.len(),
{
    if evs.len() == 0 {
        Seq::empty()
    } else {
        done_with(v, evs[0]) + done_over(flatten_step(v, evs[0]).0, evs.drop_first())
    }
}

/// Each event of `evs` is one that the tree gives the pass at that point.
pub open spec fn tree_run(v: FlattenPassView, cs: Seq<Tree>, evs: Seq<EventView>) -> bool
    decreases evs.len(),
{
    evs.len() == 0 || (tree_event(v, cs, evs[0]) && tree_run(
        flatten_step(v, evs[0]).0,
        cs,
        evs.drop_first(),
    ))
}

proof fn lemma_advance(w: WalkView, m: usize, cs: Seq<Tree>)
    requires
        w.wf(),
    ensures
        advance(w, m).0.wf(),
        files_pending(advance(w, m).0, cs) == stack_files(config(w), cs, w.pending),
{
    if w.pending.len() > 0 {
        lemma_popped_wf(w);
        assert(config(w.popped()) == config(w));
    }
}

/// A step keeps the pass well formed.
pub proof fn lemma_flatten_step_wf(v: FlattenPassView, e: EventView)
    requires
        v.wf(),
        v.accepts(e),
    ensures
        flatten_step(v, e).0.wf(),
{
    match (v.phase, e) {
        (PhaseView::Listing(d), EventView::Listed(es)) => {
            lemma_expanded_wf(v.walk, d, es);
            lemma_advance(v.walk.expanded(d, es), v.moved, Seq::empty());
        },
        _ => {
            lemma_advance(v.walk, 0, Seq::empty());
            lemma_advance(v.walk, v.moved, Seq::empty());
            if v.moved < usize::MAX {
                lemma_advance(v.walk, (v.moved + 1) as usize, Seq::empty());
            }
        },
    }
}

proof fn lemma_step_pending(v: FlattenPassView, cs: Seq<Tree>, e: EventView)
    requires
        v.wf(),
        well_named(cs),
        tree_event(v, cs, e),
    ensures
        done_with(v, e) + files_pending(flatten_step(v, e).0, cs) == files_pending(v, cs),
{
    let w = config(v.walk);
    match (v.phase, e) {
        (PhaseView::Listing(d), EventView::Listed(es)) => {
            let l = contents_at(cs, d.path);
            lemma_stack_expansion(w, cs, d, v.walk.pending, 0);
            assert(l.subrange(0, l.len() as int) =~= l);
            lemma_stacked_config(v.walk, d, es);
            lemma_expanded_wf(v.walk, d, es);
            lemma_advance(v.walk.expanded(d, es), v.moved, cs);
            assert(config(v.walk.expanded(d, es)) == w);
            assert(Seq::<FoundView>::empty() + files_pending(flatten_step(v, e).0, cs)
                =~= files_pending(flatten_step(v, e).0, cs));
        },
        (PhaseView::Probing(f, k), EventView::Probed(taken)) => {
            if taken && k == usize::MAX {
                lemma_advance(v.walk, v.moved, cs);
            } else {
                assert(Seq::<FoundView>::empty() + files_pending(flatten_step(v, e).0, cs)
                    =~= files_pending(flatten_step(v, e).0, cs));
            }
        },
        (PhaseView::Renaming(f, _), EventView::Renamed(ok)) => {
            lemma_advance(v.walk, v.moved, cs);
            if v.moved < usize::MAX {
                lemma_advance(v.walk, (v.moved + 1) as usize, cs);
            }
        },
        _ => {},
    }
}

proof fn lemma_run_pending(v: FlattenPassView, cs: Seq<Tree>, evs: Seq<EventView>)
    requires
        v.wf(),
        well_named(cs),
        tree_run(v, cs, evs),
    ensures
        run(v, evs).wf(),
        done_over(v, evs) + files_pending(run(v, evs), cs) == files_pending(v, cs),
    decreases evs.len(),
{
    if evs.len() == 0 {
        assert(Seq::<FoundView>::empty() + files_pending(v, cs) =~= files_pending(v, cs));
    } else {
        let e = evs[0];
        let v2 = flatten_step(v, e).0;
        lemma_step_pending(v, cs, e);
        lemma_flatten_step_wf(v, e);
        lemma_run_pending(v2, cs, evs.drop_first());
        let a = done_with(v, e);
        let b = done_over(v2, evs.drop_first());
        let c = files_pending(run(v2, evs.drop_first()), cs);
        assert((a + b) + c =~= a + (b + c));
    }
}

/// A whole flatten pass over a tree: fed the tree's listing of each
/// directory it asks for, and any answers to its probes and renames, the
/// pass, once finished, has dealt with exactly the files that `files_below`
/// gives for the root, one after the other in that order: each file in turn
/// is probed and renamed to its first free candidate (`lemma_first_free_name`),
/// or left where it is when the rename fails or its names run out. These are
/// the files that a summary pass with the same bound and filter counts
/// (`lemma_summary_over_tree`), and `lemma_eligible_iff_handed_out` says
/// which they are.
pub proof fn lemma_flatten_over_tree(v: FlattenPassView, cs: Seq<Tree>, evs: Seq<EventView>)
    requires
        v.wf(),
        well_named(cs),
        v.phase == PhaseView::Listing(root_view()),
        v.walk.pending.len() == 0,
        tree_run(v, cs, evs),
    ensures
        run(v, evs).phase == PhaseView::Finished ==> done_over(v, evs) == files_below(
            config(v.walk),
            root_view(),
            cs,
        ),
{
    lemma_run_pending(v, cs, evs);
    let w = config(v.walk);
    assert(contents_at(cs, root_view().path) == cs);
    assert(stack_files(w, cs, v.walk.pending) == Seq::<FoundView>::empty());
    assert(files_pending(v, cs) =~= files_below(w, root_view(), cs));
    let e = run(v, evs);
    if e.phase == PhaseView::Finished {
        assert(files_pending(e, cs) == Seq::<FoundView>::empty());
        assert(done_over(v, evs) + Seq::<FoundView>::empty() =~= done_over(v, evs));
    }
}

} // verus!
