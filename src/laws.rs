//! What holds of every run of the two passes.
use vstd::prelude::*;
use crate::flatten::{ActionView, EventView, FlattenPassView, PhaseView, file_name, flatten_step};
use crate::naming::{candidate, lemma_candidates_distinct};
use crate::summary::{SummaryPassView, recorded, settle, summary_step};
use crate::walk::{EntryKind, FoundView, WalkView, lemma_stacked_admissible, root_view, within_depth};

verus! {

/// Taking in the listing of a listable directory keeps the walk well formed.
pub proof fn lemma_expanded_wf(w: WalkView, dir: FoundView, es: Seq<(Seq<char>, EntryKind)>)
    requires
        w.wf(),
        w.listable(dir),
    ensures
        w.expanded(dir, es).wf(),
{
    lemma_stacked_admissible(w, dir, es);
    let w2 = w.expanded(dir, es);
    let s = w.stacked(dir, es);
    assert forall|i: int| 0 <= i < w2.pending.len() implies w2.admissible(
        #[trigger] w2.pending[i],
    ) by {
        if i < w.pending.len() {
            assert(w2.pending[i] == w.pending[i]);
        } else {
            assert(w2.pending[i] == s[i - w.pending.len()]);
        }
    }
}

/// Handing out an item keeps the walk well formed, and the item is admissible.
pub proof fn lemma_popped_wf(w: WalkView)
    requires
        w.wf(),
        w.pending.len() > 0,
    ensures
        w.popped().wf(),
        w.admissible(w.pending.last()),
{
    let w2 = w.popped();
    assert forall|i: int| 0 <= i < w2.pending.len() implies w2.admissible(
        #[trigger] w2.pending[i],
    ) by {
        assert(w2.pending[i] == w.pending[i]);
    }
    assert(w.admissible(w.pending[w.pending.len() - 1]));
}

/// When the walk keeps nothing of any entry, a listing adds nothing.
pub proof fn lemma_stacked_nothing(w: WalkView, dir: FoundView, es: Seq<(Seq<char>, EntryKind)>)
    requires
        forall|i: int| 0 <= i < es.len() ==> w.queued(dir, #[trigger] es[i]) is None,
    ensures
        w.stacked(dir, es).len() == 0,
    decreases es.len(),
{
    if es.len() > 0 {
        assert forall|i: int| 0 <= i < es.drop_first().len() implies w.queued(
            dir,
            #[trigger] es.drop_first()[i],
        ) is None by {
            assert(es.drop_first()[i] == es[i + 1]);
        }
        lemma_stacked_nothing(w, dir, es.drop_first());
        assert(w.queued(dir, es[0]) is None);
    }
}

/// Handing out items up to the next directory keeps a summary pass well
/// formed and leaves its bound and filter as they were.
pub proof fn lemma_settle_wf(v: SummaryPassView)
    requires
        v.wf(),
    ensures
        settle(v).wf(),
        settle(v).walk.max_depth == v.walk.max_depth,
        settle(v).walk.includes == v.walk.includes,
        settle(v).walk.excludes == v.walk.excludes,
    decreases v.walk.pending.len(),
{
    if v.listing is None && v.walk.pending.len() > 0 {
        lemma_popped_wf(v.walk);
        let f = v.walk.pending.last();
        if !f.is_dir {
            let next = SummaryPassView {
                walk: v.walk.popped(),
                summary: recorded(v.summary, f.top),
                ..v
            };
            let dirs = v.summary.dirs;
            let t = f.path[0];
            if !dirs.contains(t) {
                assert forall|i: int, j: int|
                    0 <= i < j < dirs.push(t).len() implies dirs.push(t)[i] != dirs.push(t)[j] by {
                    if j == dirs.len() {
                        assert(dirs.push(t)[i] == dirs[i]);
                    } else {
                        assert(dirs.push(t)[i] == dirs[i]);
                        assert(dirs.push(t)[j] == dirs[j]);
                    }
                }
            }
            assert forall|i: int| 0 <= i < next.summary.dirs.len() implies next.walk.admits(
                #[trigger] next.summary.dirs[i],
            ) by {
                if i < dirs.len() {
                    assert(next.summary.dirs[i] == dirs[i]);
                }
            }
            lemma_settle_wf(next);
        }
    }
}

/// A summary pass step keeps the pass well formed.
pub proof fn lemma_summary_step_wf(v: SummaryPassView, es: Seq<(Seq<char>, EntryKind)>)
    requires
        v.wf(),
        !v.finished(),
    ensures
        summary_step(v, es).wf(),
        summary_step(v, es).walk.includes == v.walk.includes,
        summary_step(v, es).walk.excludes == v.walk.excludes,
{
    lemma_expanded_wf(v.walk, v.listing->0, es);
    lemma_settle_wf(SummaryPassView { walk: v.walk.expanded(v.listing->0, es), listing: None, ..v });
}

/// A file that sits directly in the root is never moved: the walk keeps no
/// file of the root's own listing, and every rename that a flatten pass asks
/// for takes a file from a directory below the root.
pub proof fn lemma_root_files_stay(v: FlattenPassView, e: EventView)
    requires
        v.wf(),
        v.accepts(e),
    ensures
        forall|n: Seq<char>| v.walk.queued(root_view(), (n, EntryKind::File)) is None,
        flatten_step(v, e).1 matches ActionView::Rename(from, _) ==> from.len() >= 2,
{
}

/// The depth bound: of a directory at depth d that the walk lists, a file is
/// taken exactly when 1 <= d and d is within the bound, a subdirectory
/// exactly when d + 1 is within it (and, below the root, the filter admits
/// it), and d itself is always within it. So the files handed out are those
/// whose directory lies at depth 1 to the bound.
pub proof fn lemma_depth_bound(w: WalkView, dir: FoundView, name: Seq<char>)
    requires
        w.wf(),
        w.listable(dir),
    ensures
        within_depth(w.max_depth, dir.path.len()),
        w.queued(dir, (name, EntryKind::File)) is Some <==> (1 <= dir.path.len() && within_depth(
            w.max_depth,
            dir.path.len(),
        )),
        w.queued(dir, (name, EntryKind::Dir)) is Some <==> (within_depth(
            w.max_depth,
            dir.path.len() + 1,
        ) && (dir.path.len() == 0 ==> w.admits(name))),
{
}

/// With the bound 0 no file is eligible: the walk keeps nothing of the
/// root's listing, so the flatten pass finishes at once with nothing moved
/// and the summary pass counts no file.
pub proof fn lemma_depth_zero_takes_nothing(
    v: FlattenPassView,
    s: SummaryPassView,
    es: Seq<(Seq<char>, EntryKind)>,
)
    requires
        v.wf(),
        v.walk.max_depth == Some(0usize),
        v.phase == PhaseView::Listing(root_view()),
        s.wf(),
        s.walk.max_depth == Some(0usize),
        s.listing == Some(root_view()),
    ensures
        flatten_step(v, EventView::Listed(es)).1 == ActionView::Finish(v.moved),
        summary_step(s, es).finished(),
        summary_step(s, es).summary == s.summary,
{
    assert forall|i: int| 0 <= i < es.len() implies v.walk.queued(root_view(), #[trigger] es[i])
        is None by {}
    assert forall|i: int| 0 <= i < es.len() implies s.walk.queued(root_view(), #[trigger] es[i])
        is None by {}
    lemma_stacked_nothing(v.walk, root_view(), es);
    lemma_stacked_nothing(s.walk, root_view(), es);
    if v.walk.pending.len() > 0 {
        assert(v.walk.admissible(v.walk.pending[0]));
    }
    if s.walk.pending.len() > 0 {
        assert(s.walk.admissible(s.walk.pending[0]));
    }
    assert(v.walk.expanded(root_view(), es).pending =~= v.walk.pending);
    assert(s.walk.expanded(root_view(), es).pending =~= s.walk.pending);
}

/// On a root that holds no subdirectory the whole flatten does nothing: the
/// summary pass finds no file and no top-level directory, so that none is
/// removed, and the flatten pass moves no file.
pub proof fn lemma_flat_root_is_untouched(
    s: SummaryPassView,
    v: FlattenPassView,
    es: Seq<(Seq<char>, EntryKind)>,
)
    requires
        s.wf(),
        s.listing == Some(root_view()),
        s.walk.pending.len() == 0,
        s.summary.file_count == 0,
        s.summary.dirs.len() == 0,
        v.wf(),
        v.phase == PhaseView::Listing(root_view()),
        v.walk.pending.len() == 0,
        v.moved == 0,
        forall|i: int| 0 <= i < es.len() ==> (#[trigger] es[i]).1 != EntryKind::Dir,
    ensures
        summary_step(s, es).finished(),
        summary_step(s, es).summary.file_count == 0,
        summary_step(s, es).summary.dirs.len() == 0,
        flatten_step(v, EventView::Listed(es)).1 == ActionView::Finish(0),
{
    assert forall|i: int| 0 <= i < es.len() implies v.walk.queued(root_view(), #[trigger] es[i])
        is None by {}
    assert forall|i: int| 0 <= i < es.len() implies s.walk.queued(root_view(), #[trigger] es[i])
        is None by {}
    lemma_stacked_nothing(v.walk, root_view(), es);
    lemma_stacked_nothing(s.walk, root_view(), es);
    assert(v.walk.expanded(root_view(), es).pending =~= Seq::<FoundView>::empty());
    assert(s.walk.expanded(root_view(), es).pending =~= Seq::<FoundView>::empty());
}

/// The filter confines the flatten: every file that a flatten pass moves lies
/// below a top-level directory that the filter admits, and every directory
/// that the summary records, and that is removed afterwards, is admitted.
pub proof fn lemma_filter_confines(
    v: FlattenPassView,
    e: EventView,
    s: SummaryPassView,
    es: Seq<(Seq<char>, EntryKind)>,
)
    requires
        v.wf(),
        v.accepts(e),
        s.wf(),
        !s.finished(),
    ensures
        flatten_step(v, e).1 matches ActionView::Rename(from, _) ==> from.len() >= 1
            && v.walk.admits(from[0]),
        forall|i: int|
            0 <= i < summary_step(s, es).summary.dirs.len() ==> s.walk.admits(
                #[trigger] summary_step(s, es).summary.dirs[i],
            ),
{
    lemma_summary_step_wf(s, es);
}

/// The pass after `n` probes in a row that found the name taken.
pub open spec fn after_taken(v: FlattenPassView, n: nat) -> FlattenPassView
    decreases n,
{
    if n == 0 {
        v
    } else {
        flatten_step(after_taken(v, (n - 1) as nat), EventView::Probed(true)).0
    }
}

/// Collision resolution is deterministic and exhaustive: the names of a file
/// are probed in order, its own name first and then the candidates 1, 2, ...;
/// when those below `k` are taken and the `k`-th is free, the file is renamed
/// to the `k`-th candidate. No name is probed twice.
pub proof fn lemma_first_free_name(v: FlattenPassView, f: FoundView, k: nat)
    requires
        v.wf(),
        v.phase == PhaseView::Probing(f, 0),
        k < usize::MAX,
    ensures
        forall|j: nat| j <= k ==> (#[trigger] after_taken(v, j)).phase == PhaseView::Probing(f, j as usize),
        forall|j: nat|
            0 < j <= k ==> flatten_step(#[trigger] after_taken(v, (j - 1) as nat), EventView::Probed(true)).1
                == ActionView::Probe(candidate(file_name(f), j)),
        flatten_step(after_taken(v, k), EventView::Probed(false)).1 == ActionView::Rename(
            f.path,
            candidate(file_name(f), k),
        ),
        forall|i: nat, j: nat|
            i < j <= k ==> #[trigger] candidate(file_name(f), i) != #[trigger] candidate(
                file_name(f),
                j,
            ),
    decreases k,
{
    assert forall|i: nat, j: nat| i < j <= k implies #[trigger] candidate(file_name(f), i)
        != #[trigger] candidate(file_name(f), j) by {
        lemma_candidates_distinct(file_name(f), i, j);
    }
    if k > 0 {
        lemma_first_free_name(v, f, (k - 1) as nat);
        assert(after_taken(v, (k - 1) as nat).phase == PhaseView::Probing(f, (k - 1) as usize));
        assert(after_taken(v, k).phase == PhaseView::Probing(f, k as usize));
        assert forall|j: nat| j <= k implies (#[trigger] after_taken(v, j)).phase == PhaseView::Probing(f, j as usize) by {
        }
    }
}

} // verus!
