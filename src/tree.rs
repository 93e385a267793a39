//! A directory tree as a model, and what a whole summary pass over it yields.
use vstd::prelude::*;
use crate::summary::{SummaryPassView, SummaryView, recorded, settle, summary_step};
use crate::laws::lemma_summary_step_wf;
use crate::walk::{EntryKind, FoundView, WalkView, root_view, within_depth};

verus! {

/// A directory tree: each directory holds its entries in listing order.
pub enum Tree {
    File(Seq<char>),
    Dir(Seq<char>, Seq<Tree>),
    Other(Seq<char>),
}

/// The listing entry of a tree node.
pub open spec fn entry_of(t: Tree) -> (Seq<char>, EntryKind) {
    match t {
        Tree::File(n) => (n, EntryKind::File),
        Tree::Dir(n, _) => (n, EntryKind::Dir),
        Tree::Other(n) => (n, EntryKind::Other),
    }
}

/// The listing of a directory's entries.
pub open spec fn listing_of(cs: Seq<Tree>) -> Seq<(Seq<char>, EntryKind)> {
    cs.map_values(|t: Tree| entry_of(t))
}

/// The files that the walk hands out below `dir`, whose entries are `cs`, in
/// depth-first listing order.
pub open spec fn files_below(w: WalkView, dir: FoundView, cs: Seq<Tree>) -> Seq<FoundView>
    decreases cs,
{
    if cs.len() == 0 {
        Seq::empty()
    } else {
        let first = match w.queued(dir, entry_of(cs[0])) {
            Some(f) => match cs[0] {
                Tree::Dir(_, sub) => files_below(w, f, sub),
                _ => seq![f],
            },
            None => Seq::empty(),
        };
        first + files_below(w, dir, cs.drop_first())
    }
}

/// The first entry named `n` among `cs`.
pub open spec fn find(cs: Seq<Tree>, n: Seq<char>) -> Option<Tree>
    decreases cs.len(),
{
    if cs.len() == 0 {
        None
    } else if entry_of(cs[0]).0 == n {
        Some(cs[0])
    } else {
        find(cs.drop_first(), n)
    }
}

/// The entries of the directory at `path` below a root whose entries are
/// `cs`; none where no directory stands there.
pub open spec fn contents_at(cs: Seq<Tree>, path: Seq<Seq<char>>) -> Seq<Tree>
    decreases path.len(),
{
    if path.len() == 0 {
        cs
    } else {
        match find(cs, path[0]) {
            Some(Tree::Dir(_, sub)) => contents_at(sub, path.drop_first()),
            _ => Seq::empty(),
        }
    }
}

/// No two entries of the directory share a name.
pub open spec fn distinct_names(cs: Seq<Tree>) -> bool {
    forall|i: int, j: int|
        0 <= i < j < cs.len() ==> entry_of(#[trigger] cs[i]).0 != entry_of(#[trigger] cs[j]).0
}

/// No directory of the tree holds two entries of one name, as a file system
/// keeps it.
pub open spec fn well_named(cs: Seq<Tree>) -> bool {
    forall|p: Seq<Seq<char>>| distinct_names(#[trigger] contents_at(cs, p))
}

proof fn lemma_find_distinct(cs: Seq<Tree>, i: int)
    requires
        distinct_names(cs),
        0 <= i < cs.len(),
    ensures
        find(cs, entry_of(cs[i]).0) == Some(cs[i]),
    decreases cs.len(),
{
    if i > 0 {
        assert(entry_of(cs[0]).0 != entry_of(cs[i]).0);
        let t = cs.drop_first();
        assert forall|a: int, b: int| 0 <= a < b < t.len() implies entry_of(#[trigger] t[a]).0
            != entry_of(#[trigger] t[b]).0 by {
            assert(t[a] == cs[a + 1]);
            assert(t[b] == cs[b + 1]);
        }
        assert(t[i - 1] == cs[i]);
        lemma_find_distinct(t, i - 1);
    }
}

proof fn lemma_contents_push(cs: Seq<Tree>, p: Seq<Seq<char>>, n: Seq<char>)
    ensures
        contents_at(cs, p.push(n)) == match find(contents_at(cs, p), n) {
            Some(Tree::Dir(_, sub)) => sub,
            _ => Seq::empty(),
        },
    decreases p.len(),
{
    assert(p.push(n)[0] == if p.len() == 0 { n } else { p[0] });
    assert(p.push(n).drop_first() =~= if p.len() == 0 { p } else { p.drop_first().push(n) });
    let q = p.push(n);
    if p.len() > 0 {
        match find(cs, p[0]) {
            Some(Tree::Dir(_, sub)) => {
                lemma_contents_push(sub, p.drop_first(), n);
                assert(contents_at(cs, q) == contents_at(sub, q.drop_first()));
            },
            _ => {
                assert(contents_at(cs, p) == Seq::<Tree>::empty());
                assert(find(Seq::<Tree>::empty(), n) is None);
                assert(contents_at(cs, q) == Seq::<Tree>::empty());
            },
        }
    } else {
        assert(q.drop_first().len() == 0);
        match find(cs, n) {
            Some(Tree::Dir(_, sub)) => {
                assert(contents_at(sub, q.drop_first()) == sub);
            },
            _ => {},
        }
    }
}

/// What an item of the walk still stands for: a file itself, or the files
/// below a directory.
pub open spec fn expansion(w: WalkView, cs: Seq<Tree>, f: FoundView) -> Seq<FoundView> {
    if f.is_dir {
        files_below(w, f, contents_at(cs, f.path))
    } else {
        seq![f]
    }
}

/// The files that a stack of items stands for, the top one first.
pub open spec fn stack_files(w: WalkView, cs: Seq<Tree>, items: Seq<FoundView>) -> Seq<FoundView>
    decreases items.len(),
{
    if items.len() == 0 {
        Seq::empty()
    } else {
        expansion(w, cs, items.last()) + stack_files(w, cs, items.drop_last())
    }
}

/// The bound and the filter of a walk, with nothing held.
pub open spec fn config(w: WalkView) -> WalkView {
    WalkView { pending: Seq::empty(), ..w }
}

/// The files that a summary pass over the tree has still to count.
pub open spec fn files_left(s: SummaryPassView, cs: Seq<Tree>) -> Seq<FoundView> {
    let w = config(s.walk);
    match s.listing {
        Some(d) => expansion(w, cs, d) + stack_files(w, cs, s.walk.pending),
        None => stack_files(w, cs, s.walk.pending),
    }
}

/// The summary once the files `fs` are counted in order.
pub open spec fn recorded_all(sm: SummaryView, fs: Seq<FoundView>) -> SummaryView
    decreases fs.len(),
{
    if fs.len() == 0 {
        sm
    } else {
        recorded_all(recorded(sm, fs[0].top), fs.drop_first())
    }
}

/// The summary that the pass will end with.
pub open spec fn outcome(s: SummaryPassView, cs: Seq<Tree>) -> SummaryView {
    recorded_all(s.summary, files_left(s, cs))
}

proof fn lemma_recorded_all_concat(sm: SummaryView, a: Seq<FoundView>, b: Seq<FoundView>)
    ensures
        recorded_all(sm, a + b) == recorded_all(recorded_all(sm, a), b),
    decreases a.len(),
{
    if a.len() > 0 {
        assert((a + b).drop_first() =~= a.drop_first() + b);
        assert((a + b)[0] == a[0]);
        lemma_recorded_all_concat(recorded(sm, a[0].top), a.drop_first(), b);
    } else {
        assert(a + b =~= b);
    }
}

/// Pushing the entries `es[k..]` of the listed directory `d` onto a stack
/// adds, at its front, the files below those entries.
pub proof fn lemma_stack_expansion(
    w: WalkView,
    cs: Seq<Tree>,
    d: FoundView,
    pending: Seq<FoundView>,
    k: int,
)
    requires
        well_named(cs),
        w.listable(d),
        0 <= k <= contents_at(cs, d.path).len(),
    ensures
        stack_files(
            w,
            cs,
            pending + w.stacked(d, listing_of(contents_at(cs, d.path).subrange(k, contents_at(cs, d.path).len() as int))),
        ) == files_below(w, d, contents_at(cs, d.path).subrange(k, contents_at(cs, d.path).len() as int))
            + stack_files(w, cs, pending),
    decreases contents_at(cs, d.path).len() - k,
{
    let es = contents_at(cs, d.path);
    let tail = es.subrange(k, es.len() as int);
    if k == es.len() {
        assert(tail.len() == 0);
        assert(listing_of(tail).len() == 0);
        assert(pending + Seq::<FoundView>::empty() =~= pending);
        assert(Seq::<FoundView>::empty() + stack_files(w, cs, pending) =~= stack_files(w, cs, pending));
    } else {
        lemma_stack_expansion(w, cs, d, pending, k + 1);
        let rest = es.subrange(k + 1, es.len() as int);
        assert(tail.drop_first() =~= rest);
        assert(listing_of(tail).drop_first() =~= listing_of(rest));
        assert(listing_of(tail)[0] == entry_of(es[k]));
        assert(tail[0] == es[k]);
        let below_rest = pending + w.stacked(d, listing_of(rest));
        match w.queued(d, entry_of(es[k])) {
            Some(f) => {
                assert(pending + w.stacked(d, listing_of(tail)) =~= below_rest.push(f));
                assert(below_rest.push(f).drop_last() =~= below_rest);
                if f.is_dir {
                    assert(distinct_names(contents_at(cs, d.path)));
                    lemma_find_distinct(es, k);
                    lemma_contents_push(cs, d.path, entry_of(es[k]).0);
                    assert(f.path == d.path.push(entry_of(es[k]).0));
                }
                assert(expansion(w, cs, f) == match es[k] {
                    Tree::Dir(_, sub) => files_below(w, f, sub),
                    _ => seq![f],
                });
                assert(files_below(w, d, tail) == expansion(w, cs, f) + files_below(w, d, rest));
                assert(stack_files(w, cs, below_rest.push(f)) == expansion(w, cs, f)
                    + stack_files(w, cs, below_rest));
                assert((expansion(w, cs, f) + files_below(w, d, rest)) + stack_files(w, cs, pending)
                    =~= expansion(w, cs, f) + (files_below(w, d, rest) + stack_files(w, cs, pending)));
            },
            None => {
                assert(pending + w.stacked(d, listing_of(tail)) =~= below_rest);
                assert(files_below(w, d, tail) =~= files_below(w, d, rest));
            },
        }
    }
}

/// What the walk keeps of a listing depends on its bound and filter alone.
pub proof fn lemma_stacked_config(w: WalkView, d: FoundView, es: Seq<(Seq<char>, EntryKind)>)
    ensures
        w.stacked(d, es) == config(w).stacked(d, es),
    decreases es.len(),
{
    if es.len() > 0 {
        lemma_stacked_config(w, d, es.drop_first());
        assert(w.queued(d, es[0]) == config(w).queued(d, es[0]));
    }
}

/// Handing out items up to the next directory leaves the outcome as it
/// was, and a pass that this ends holds nothing.
proof fn lemma_settle_outcome(x: SummaryPassView, cs: Seq<Tree>)
    requires
        x.listing is None,
    ensures
        outcome(settle(x), cs) == outcome(x, cs),
        settle(x).finished() ==> settle(x).walk.pending.len() == 0,
    decreases x.walk.pending.len(),
{
    if x.walk.pending.len() > 0 {
        let f = x.walk.pending.last();
        let w = config(x.walk);
        let rest = x.walk.pending.drop_last();
        assert(config(x.walk.popped()) == w);
        assert(stack_files(w, cs, x.walk.pending) == expansion(w, cs, f) + stack_files(w, cs, rest));
        if !f.is_dir {
            let next = SummaryPassView {
                walk: x.walk.popped(),
                summary: recorded(x.summary, f.top),
                ..x
            };
            let fs = seq![f] + stack_files(w, cs, rest);
            assert(fs[0] == f);
            assert(fs.drop_first() =~= stack_files(w, cs, rest));
            lemma_settle_outcome(next, cs);
        }
    }
}

/// Taking in the listing that the tree gives of the awaited directory leaves
/// the outcome as it was.
proof fn lemma_step_outcome(s: SummaryPassView, cs: Seq<Tree>)
    requires
        s.wf(),
        !s.finished(),
        well_named(cs),
    ensures
        outcome(summary_step(s, listing_of(contents_at(cs, s.listing->0.path))), cs) == outcome(s, cs),
        summary_step(s, listing_of(contents_at(cs, s.listing->0.path))).finished()
            ==> summary_step(s, listing_of(contents_at(cs, s.listing->0.path))).walk.pending.len() == 0,
{
    let d = s.listing->0;
    let es = contents_at(cs, d.path);
    let w = config(s.walk);
    let x = SummaryPassView { walk: s.walk.expanded(d, listing_of(es)), listing: None, ..s };
    lemma_stack_expansion(w, cs, d, s.walk.pending, 0);
    assert(es.subrange(0, es.len() as int) =~= es);
    lemma_stacked_config(s.walk, d, listing_of(es));
    assert(config(x.walk) == w);
    assert(files_left(x, cs) == files_left(s, cs));
    lemma_settle_outcome(x, cs);
}

/// A summary pass after at most `n` listings, each the tree's listing of
/// the directory that the pass waits for.
pub open spec fn summary_run(s: SummaryPassView, cs: Seq<Tree>, n: nat) -> SummaryPassView
    decreases n,
{
    if n == 0 || s.finished() {
        s
    } else {
        summary_run(summary_step(s, listing_of(contents_at(cs, s.listing->0.path))), cs, (n - 1) as nat)
    }
}

proof fn lemma_run_outcome(s: SummaryPassView, cs: Seq<Tree>, n: nat)
    requires
        s.wf(),
        well_named(cs),
        s.finished() ==> s.walk.pending.len() == 0,
    ensures
        outcome(summary_run(s, cs, n), cs) == outcome(s, cs),
        summary_run(s, cs, n).finished() ==> summary_run(s, cs, n).walk.pending.len() == 0,
    decreases n,
{
    if n > 0 && !s.finished() {
        let l = listing_of(contents_at(cs, s.listing->0.path));
        lemma_step_outcome(s, cs);
        lemma_summary_step_wf(s, l);
        lemma_run_outcome(summary_step(s, l), cs, (n - 1) as nat);
    }
}

/// A whole summary pass over a tree: fed, for each directory it asks for,
/// the tree's listing of that directory, the pass ends having counted
/// exactly the files that `files_below` gives for the root, in that order.
/// Which files those are, `lemma_eligible_iff_handed_out` says.
pub proof fn lemma_summary_over_tree(s: SummaryPassView, cs: Seq<Tree>, n: nat)
    requires
        s.wf(),
        well_named(cs),
        s.listing == Some(root_view()),
        s.walk.pending.len() == 0,
    ensures
        summary_run(s, cs, n).finished() ==> summary_run(s, cs, n).summary == recorded_all(
            s.summary,
            files_below(config(s.walk), root_view(), cs),
        ),
{
    lemma_run_outcome(s, cs, n);
    let w = config(s.walk);
    assert(contents_at(cs, root_view().path) == cs);
    assert(stack_files(w, cs, s.walk.pending) == Seq::<FoundView>::empty());
    assert(files_left(s, cs) =~= files_below(w, root_view(), cs));
    let e = summary_run(s, cs, n);
    if e.finished() {
        assert(files_left(e, cs) == Seq::<FoundView>::empty());
    }
}

/// A file stands at `path` in the tree.
pub open spec fn file_at(cs: Seq<Tree>, path: Seq<Seq<char>>) -> bool {
    &&& path.len() >= 1
    &&& find(contents_at(cs, path.drop_last()), path.last()) matches Some(Tree::File(_))
}

/// A file at `path` is eligible: its directory lies at depth 1 to the bound,
/// below a top-level directory that the filter admits.
pub open spec fn eligible(w: WalkView, path: Seq<Seq<char>>) -> bool {
    &&& path.len() >= 2
    &&& within_depth(w.max_depth, (path.len() - 1) as nat)
    &&& w.admits(path[0])
}

/// Some file of the sequence lies at `path`.
pub open spec fn has_path(fs: Seq<FoundView>, path: Seq<Seq<char>>) -> bool {
    exists|i: int| 0 <= i < fs.len() && (#[trigger] fs[i]).path == path
}

proof fn lemma_find_index(cs: Seq<Tree>, n: Seq<char>)
    requires
        find(cs, n) is Some,
    ensures
        exists|i: int| 0 <= i < cs.len() && cs[i] == find(cs, n)->0 && entry_of(#[trigger] cs[i]).0 == n,
    decreases cs.len(),
{
    if entry_of(cs[0]).0 != n {
        lemma_find_index(cs.drop_first(), n);
        let i = choose|i: int| 0 <= i < cs.drop_first().len() && cs.drop_first()[i] == find(cs.drop_first(), n)->0
            && entry_of(#[trigger] cs.drop_first()[i]).0 == n;
        assert(cs[i + 1] == cs.drop_first()[i]);
    } else {
        assert(cs[0] == find(cs, n)->0);
    }
}

/// The files below a listed directory are files of the tree, and eligible.
proof fn lemma_files_below_sound(w: WalkView, cs: Seq<Tree>, d: FoundView, k: int)
    requires
        well_named(cs),
        w.listable(d),
        0 <= k <= contents_at(cs, d.path).len(),
    ensures
        forall|i: int|
            0 <= i < files_below(w, d, contents_at(cs, d.path).subrange(k, contents_at(cs, d.path).len() as int)).len()
                ==> {
                let f = #[trigger] files_below(w, d, contents_at(cs, d.path).subrange(k, contents_at(cs, d.path).len() as int))[i];
                file_at(cs, f.path) && eligible(w, f.path) && f.top == Some(f.path[0])
            },
    decreases contents_at(cs, d.path), contents_at(cs, d.path).len() - k,
{
    let es = contents_at(cs, d.path);
    let tail = es.subrange(k, es.len() as int);
    if k < es.len() {
        lemma_files_below_sound(w, cs, d, k + 1);
        let rest = es.subrange(k + 1, es.len() as int);
        assert(tail.drop_first() =~= rest);
        assert(tail[0] == es[k]);
        let name = entry_of(es[k]).0;
        assert(distinct_names(contents_at(cs, d.path)));
        lemma_find_distinct(es, k);
        let piece = match w.queued(d, entry_of(es[k])) {
            Some(f) => match es[k] {
                Tree::Dir(_, sub) => files_below(w, f, sub),
                _ => seq![f],
            },
            None => Seq::empty(),
        };
        assert(files_below(w, d, tail) == piece + files_below(w, d, rest));
        match w.queued(d, entry_of(es[k])) {
            Some(f) => {
                crate::walk::lemma_queued_admissible(w, d, entry_of(es[k]));
                assert(f.path == d.path.push(name));
                match es[k] {
                    Tree::Dir(_, sub) => {
                        lemma_contents_push(cs, d.path, name);
                        assert(contents_at(cs, f.path) == sub);
                        assert(sub.subrange(0, sub.len() as int) =~= sub);
                        assert(decreases_to!(es => es[k]));
                        lemma_files_below_sound(w, cs, f, 0);
                    },
                    _ => {
                        assert(f.path.drop_last() =~= d.path);
                        assert(f.path.last() == name);
                    },
                }
            },
            None => {},
        }
        assert forall|i: int| 0 <= i < files_below(w, d, tail).len() implies {
            let f = #[trigger] files_below(w, d, tail)[i];
            file_at(cs, f.path) && eligible(w, f.path) && f.top == Some(f.path[0])
        } by {
            if i < piece.len() {
                assert(files_below(w, d, tail)[i] == piece[i]);
            } else {
                assert(files_below(w, d, tail)[i] == files_below(w, d, rest)[i - piece.len()]);
            }
        }
    }
}

/// A file of the piece that the `i`-th entry contributes is among the files
/// below the directory.
proof fn lemma_piece_in(w: WalkView, d: FoundView, es: Seq<Tree>, i: int, f: FoundView, k: int)
    requires
        0 <= k <= i < es.len(),
        w.queued(d, entry_of(es[i])) matches Some(g) && has_path(
            match es[i] {
                Tree::Dir(_, sub) => files_below(w, g, sub),
                _ => seq![g],
            },
            f.path,
        ),
    ensures
        has_path(files_below(w, d, es.subrange(k, es.len() as int)), f.path),
    decreases i - k,
{
    let tail = es.subrange(k, es.len() as int);
    let rest = es.subrange(k + 1, es.len() as int);
    assert(tail.drop_first() =~= rest);
    assert(tail[0] == es[k]);
    let piece = match w.queued(d, entry_of(es[k])) {
        Some(g) => match es[k] {
            Tree::Dir(_, sub) => files_below(w, g, sub),
            _ => seq![g],
        },
        None => Seq::empty(),
    };
    assert(files_below(w, d, tail) == piece + files_below(w, d, rest));
    if k == i {
        let j = choose|j: int| 0 <= j < piece.len() && (#[trigger] piece[j]).path == f.path;
        assert(files_below(w, d, tail)[j] == piece[j]);
    } else {
        lemma_piece_in(w, d, es, i, f, k + 1);
        let j = choose|j: int|
            0 <= j < files_below(w, d, rest).len() && (#[trigger] files_below(w, d, rest)[j]).path == f.path;
        assert(files_below(w, d, tail)[piece.len() + j] == files_below(w, d, rest)[j]);
    }
}

/// No two files of the sequence lie at one path.
pub open spec fn distinct_paths(fs: Seq<FoundView>) -> bool {
    forall|i: int, j: int| 0 <= i < j < fs.len() ==> (#[trigger] fs[i]).path != (#[trigger] fs[j]).path
}

/// The files below a listed directory lie below it, each under one of its
/// entries from the `k`-th on, and no two at one path.
proof fn lemma_files_below_distinct(w: WalkView, cs: Seq<Tree>, d: FoundView, k: int)
    requires
        well_named(cs),
        w.listable(d),
        0 <= k <= contents_at(cs, d.path).len(),
    ensures
        distinct_paths(files_below(w, d, contents_at(cs, d.path).subrange(k, contents_at(cs, d.path).len() as int))),
        forall|i: int|
            0 <= i < files_below(w, d, contents_at(cs, d.path).subrange(k, contents_at(cs, d.path).len() as int)).len()
                ==> {
                let f = #[trigger] files_below(w, d, contents_at(cs, d.path).subrange(k, contents_at(cs, d.path).len() as int))[i];
                &&& f.path.len() > d.path.len()
                &&& f.path.subrange(0, d.path.len() as int) == d.path
                &&& exists|j: int| k <= j < contents_at(cs, d.path).len() && f.path[d.path.len() as int]
                    == entry_of(#[trigger] contents_at(cs, d.path)[j]).0
            },
    decreases contents_at(cs, d.path), contents_at(cs, d.path).len() - k,
{
    let es = contents_at(cs, d.path);
    let tail = es.subrange(k, es.len() as int);
    let n = d.path.len() as int;
    if k < es.len() {
        lemma_files_below_distinct(w, cs, d, k + 1);
        let rest = es.subrange(k + 1, es.len() as int);
        assert(tail.drop_first() =~= rest);
        assert(tail[0] == es[k]);
        let name = entry_of(es[k]).0;
        assert(distinct_names(contents_at(cs, d.path)));
        lemma_find_distinct(es, k);
        let piece = match w.queued(d, entry_of(es[k])) {
            Some(f) => match es[k] {
                Tree::Dir(_, sub) => files_below(w, f, sub),
                _ => seq![f],
            },
            None => Seq::empty(),
        };
        assert(files_below(w, d, tail) == piece + files_below(w, d, rest));
        // every file of the piece lies under the k-th entry
        assert(distinct_paths(piece) && forall|i: int| 0 <= i < piece.len() ==> {
            let f = #[trigger] piece[i];
            f.path.len() > n && f.path.subrange(0, n) == d.path && f.path[n] == name
        }) by {
            match w.queued(d, entry_of(es[k])) {
                Some(g) => {
                    crate::walk::lemma_queued_admissible(w, d, entry_of(es[k]));
                    assert(g.path == d.path.push(name));
                    match es[k] {
                        Tree::Dir(_, sub) => {
                            lemma_contents_push(cs, d.path, name);
                            assert(contents_at(cs, g.path) == sub);
                            assert(sub.subrange(0, sub.len() as int) =~= sub);
                            assert(decreases_to!(es => es[k]));
                            lemma_files_below_distinct(w, cs, g, 0);
                            assert forall|i: int| 0 <= i < piece.len() implies {
                                let f = #[trigger] piece[i];
                                f.path.len() > n && f.path.subrange(0, n) == d.path && f.path[n] == name
                            } by {
                                let f = piece[i];
                                assert(f.path.subrange(0, n + 1) == g.path);
                                assert(f.path.subrange(0, n) =~= f.path.subrange(0, n + 1).subrange(0, n));
                                assert(f.path[n] == f.path.subrange(0, n + 1)[n]);
                            }
                        },
                        _ => {
                            assert(piece[0] == g);
                            assert(g.path.subrange(0, n) =~= d.path);
                        },
                    }
                },
                None => {},
            }
        }
        let all = files_below(w, d, tail);
        let r = files_below(w, d, rest);
        assert forall|i: int| 0 <= i < all.len() implies {
            let f = #[trigger] all[i];
            &&& f.path.len() > n
            &&& f.path.subrange(0, n) == d.path
            &&& exists|j: int| k <= j < es.len() && f.path[n] == entry_of(#[trigger] es[j]).0
        } by {
            if i < piece.len() {
                assert(all[i] == piece[i]);
                assert(all[i].path[n] == entry_of(es[k]).0);
            } else {
                assert(all[i] == r[i - piece.len()]);
            }
        }
        assert forall|i: int, j: int| 0 <= i < j < all.len() implies (#[trigger] all[i]).path
            != (#[trigger] all[j]).path by {
            if j < piece.len() {
                assert(all[i] == piece[i]);
                assert(all[j] == piece[j]);
            } else if i >= piece.len() {
                assert(all[i] == r[i - piece.len()]);
                assert(all[j] == r[j - piece.len()]);
            } else {
                assert(all[i] == piece[i]);
                assert(all[j] == r[j - piece.len()]);
                let f = r[j - piece.len()];
                let jj = choose|jj: int| k + 1 <= jj < es.len() && f.path[n] == entry_of(#[trigger] es[jj]).0;
                assert(entry_of(es[k]).0 != entry_of(es[jj]).0);
            }
        }
    } else {
        assert(tail.len() == 0);
    }
}

/// The summary once the files `fs` are counted: the count grows by their
/// number, up to `usize::MAX`.
pub proof fn lemma_recorded_all_count(sm: SummaryView, fs: Seq<FoundView>)
    ensures
        recorded_all(sm, fs).file_count == if sm.file_count + fs.len() <= usize::MAX {
            sm.file_count + fs.len()
        } else {
            usize::MAX as int
        },
    decreases fs.len(),
{
    if fs.len() > 0 {
        lemma_recorded_all_count(recorded(sm, fs[0].top), fs.drop_first());
    }
}

/// No file is handed out twice, so a finished summary pass over a tree
/// counts each eligible file of the tree once: its count is the number of
/// those files, up to `usize::MAX`.
pub proof fn lemma_summary_counts_each_file_once(s: SummaryPassView, cs: Seq<Tree>, n: nat)
    requires
        s.wf(),
        well_named(cs),
        s.listing == Some(root_view()),
        s.walk.pending.len() == 0,
        s.summary.file_count == 0,
    ensures
        distinct_paths(files_below(config(s.walk), root_view(), cs)),
        summary_run(s, cs, n).finished() ==> summary_run(s, cs, n).summary.file_count == if files_below(
            config(s.walk),
            root_view(),
            cs,
        ).len() <= usize::MAX {
            files_below(config(s.walk), root_view(), cs).len() as int
        } else {
            usize::MAX as int
        },
{
    let c = config(s.walk);
    assert(contents_at(cs, root_view().path) == cs);
    assert(cs.subrange(0, cs.len() as int) =~= cs);
    lemma_files_below_distinct(c, cs, root_view(), 0);
    lemma_summary_over_tree(s, cs, n);
    lemma_recorded_all_count(s.summary, files_below(c, root_view(), cs));
}

/// The directory at the first `j` names of `p`, as the walk finds it.
pub open spec fn dir_on_path(p: Seq<Seq<char>>, j: int) -> FoundView {
    FoundView {
        path: p.subrange(0, j),
        top: if j == 0 {
            None
        } else {
            Some(p[0])
        },
        is_dir: true,
    }
}

/// An eligible file of the tree is among the files below each directory on
/// its way from the root.
proof fn lemma_files_below_complete_from(w: WalkView, cs: Seq<Tree>, p: Seq<Seq<char>>, j: int)
    requires
        file_at(cs, p),
        eligible(w, p),
        0 <= j < p.len(),
    ensures
        has_path(files_below(w, dir_on_path(p, j), contents_at(cs, p.subrange(0, j))), p),
    decreases p.len() - j,
{
    let d = dir_on_path(p, j);
    let es = contents_at(cs, p.subrange(0, j));
    assert(es.subrange(0, es.len() as int) =~= es);
    if j == p.len() - 1 {
        assert(p.subrange(0, j) =~= p.drop_last());
        let t = find(es, p.last());
        lemma_find_index(es, p.last());
        let i = choose|i: int| 0 <= i < es.len() && es[i] == t->0 && entry_of(#[trigger] es[i]).0 == p.last();
        let g = w.queued(d, entry_of(es[i]))->0;
        assert(g.path =~= p);
        assert(seq![g][0] == g);
        lemma_piece_in(w, d, es, i, g, 0);
    } else {
        lemma_files_below_complete_from(w, cs, p, j + 1);
        let inner = contents_at(cs, p.subrange(0, j + 1));
        let d2 = dir_on_path(p, j + 1);
        assert(p.subrange(0, j + 1) =~= p.subrange(0, j).push(p[j]));
        lemma_contents_push(cs, p.subrange(0, j), p[j]);
        assert(inner.len() > 0);
        let t = find(es, p[j]);
        lemma_find_index(es, p[j]);
        let i = choose|i: int| 0 <= i < es.len() && es[i] == t->0 && entry_of(#[trigger] es[i]).0 == p[j];
        assert(w.queued(d, entry_of(es[i])) == Some(d2));
        let f = choose|k: int|
            0 <= k < files_below(w, d2, inner).len() && (#[trigger] files_below(w, d2, inner)[k]).path == p;
        lemma_piece_in(w, d, es, i, files_below(w, d2, inner)[f], 0);
    }
}

/// The files that a flatten or summary pass over the tree hands out are
/// exactly its eligible files: each lies in a directory at depth 1 to the
/// bound, below a top-level directory that the filter admits; and each such
/// file of the tree is handed out.
pub proof fn lemma_eligible_iff_handed_out(w: WalkView, cs: Seq<Tree>, p: Seq<Seq<char>>)
    requires
        well_named(cs),
        w.wf(),
    ensures
        has_path(files_below(config(w), root_view(), cs), p) <==> file_at(cs, p) && eligible(w, p),
{
    let c = config(w);
    assert(contents_at(cs, root_view().path) == cs);
    assert(cs.subrange(0, cs.len() as int) =~= cs);
    lemma_files_below_sound(c, cs, root_view(), 0);
    if file_at(cs, p) && eligible(w, p) {
        lemma_files_below_complete_from(c, cs, p, 0);
        assert(p.subrange(0, 0) =~= root_view().path);
        assert(dir_on_path(p, 0) == root_view());
    }
}

/// The subdirectories among the entries, in order.
pub open spec fn subdirs_of(cs: Seq<Tree>) -> Seq<Tree>
    decreases cs.len(),
{
    if cs.len() == 0 {
        Seq::empty()
    } else if cs[0] is Dir {
        seq![cs[0]] + subdirs_of(cs.drop_first())
    } else {
        subdirs_of(cs.drop_first())
    }
}

proof fn lemma_root_files_ignored(w: WalkView, cs: Seq<Tree>)
    ensures
        files_below(w, root_view(), cs) == files_below(w, root_view(), subdirs_of(cs)),
    decreases cs.len(),
{
    if cs.len() > 0 {
        lemma_root_files_ignored(w, cs.drop_first());
        if cs[0] is Dir {
            let t = seq![cs[0]] + subdirs_of(cs.drop_first());
            assert(t[0] == cs[0]);
            assert(t.drop_first() =~= subdirs_of(cs.drop_first()));
        }
    }
}

/// Files that sit directly in the root change nothing: two roots with the
/// same subdirectories, in the same order, give the same files to hand out,
/// so that a summary pass counts the same and a flatten pass moves the same
/// files over both (`lemma_summary_over_tree`, `lemma_flatten_over_tree`).
pub proof fn lemma_root_files_change_nothing(w: WalkView, cs1: Seq<Tree>, cs2: Seq<Tree>)
    requires
        subdirs_of(cs1) == subdirs_of(cs2),
    ensures
        files_below(config(w), root_view(), cs1) == files_below(config(w), root_view(), cs2),
{
    lemma_root_files_ignored(config(w), cs1);
    lemma_root_files_ignored(config(w), cs2);
}

/// The bound `b2` admits every depth that `b1` does.
pub open spec fn bound_le(b1: Option<usize>, b2: Option<usize>) -> bool {
    match (b1, b2) {
        (_, None) => true,
        (Some(a), Some(b)) => a <= b,
        (None, Some(_)) => false,
    }
}

/// Raising the depth bound, or lifting it, loses no file: every file handed
/// out under the lower bound is handed out under the higher one, with the
/// same filter.
pub proof fn lemma_bound_monotone(w1: WalkView, w2: WalkView, cs: Seq<Tree>, p: Seq<Seq<char>>)
    requires
        well_named(cs),
        w1.wf(),
        w2.wf(),
        w1.includes == w2.includes,
        w1.excludes == w2.excludes,
        bound_le(w1.max_depth, w2.max_depth),
        has_path(files_below(config(w1), root_view(), cs), p),
    ensures
        has_path(files_below(config(w2), root_view(), cs), p),
{
    lemma_eligible_iff_handed_out(w1, cs, p);
    lemma_eligible_iff_handed_out(w2, cs, p);
}

/// The directories that counting the files `fs` adds are their top-level
/// directories.
pub proof fn lemma_recorded_all_dirs(sm: SummaryView, fs: Seq<FoundView>, t: Seq<char>)
    ensures
        recorded_all(sm, fs).dirs.contains(t) <==> (sm.dirs.contains(t) || exists|i: int|
            0 <= i < fs.len() && (#[trigger] fs[i]).top == Some(t)),
    decreases fs.len(),
{
    if fs.len() > 0 {
        let sm2 = recorded(sm, fs[0].top);
        lemma_recorded_all_dirs(sm2, fs.drop_first(), t);
        if sm2.dirs.contains(t) && !sm.dirs.contains(t) {
            assert(fs[0].top == Some(t)) by {
                if fs[0].top != Some(t) {
                    match fs[0].top {
                        Some(u) => {
                            if !sm.dirs.contains(u) {
                                let i = choose|i: int| 0 <= i < sm.dirs.push(u).len() && sm.dirs.push(u)[i] == t;
                                if i < sm.dirs.len() {
                                    assert(sm.dirs[i] == t);
                                }
                            }
                        },
                        None => {},
                    }
                }
            }
        }
        if fs[0].top == Some(t) {
            if !sm.dirs.contains(t) {
                assert(sm2.dirs[sm.dirs.len() as int] == t);
            }
        }
        if sm.dirs.contains(t) {
            let i = choose|i: int| 0 <= i < sm.dirs.len() && sm.dirs[i] == t;
            match fs[0].top {
                Some(u) => {
                    if !sm.dirs.contains(u) {
                        assert(sm2.dirs[i] == t);
                    }
                },
                None => {},
            }
        }
        assert forall|i: int| 0 <= i < fs.drop_first().len() && (#[trigger] fs.drop_first()[i]).top == Some(t)
            implies exists|j: int| 0 <= j < fs.len() && (#[trigger] fs[j]).top == Some(t) by {
            assert(fs[i + 1] == fs.drop_first()[i]);
        }
        if exists|i: int| 0 <= i < fs.len() && (#[trigger] fs[i]).top == Some(t) {
            let i = choose|i: int| 0 <= i < fs.len() && (#[trigger] fs[i]).top == Some(t);
            if i > 0 {
                assert(fs.drop_first()[i - 1] == fs[i]);
            }
        }
    }
}

/// The filter decides what is removed afterwards: once a summary pass over a
/// tree finishes, it has recorded exactly the top-level directories under
/// which an eligible file of the tree lies, and so none that the filter
/// turns away.
pub proof fn lemma_summary_records_eligible_dirs(s: SummaryPassView, cs: Seq<Tree>, n: nat, t: Seq<char>)
    requires
        s.wf(),
        well_named(cs),
        s.listing == Some(root_view()),
        s.walk.pending.len() == 0,
        s.summary.dirs.len() == 0,
    ensures
        summary_run(s, cs, n).finished() ==> (summary_run(s, cs, n).summary.dirs.contains(t) <==> exists|p: Seq<Seq<char>>|
            file_at(cs, p) && eligible(s.walk, p) && #[trigger] p[0] == t),
{
    let c = config(s.walk);
    let fs = files_below(c, root_view(), cs);
    assert(contents_at(cs, root_view().path) == cs);
    assert(cs.subrange(0, cs.len() as int) =~= cs);
    lemma_files_below_sound(c, cs, root_view(), 0);
    lemma_summary_over_tree(s, cs, n);
    lemma_recorded_all_dirs(s.summary, fs, t);
    if exists|i: int| 0 <= i < fs.len() && (#[trigger] fs[i]).top == Some(t) {
        let i = choose|i: int| 0 <= i < fs.len() && (#[trigger] fs[i]).top == Some(t);
        assert(file_at(cs, fs[i].path) && eligible(s.walk, fs[i].path) && fs[i].path[0] == t);
    }
    if exists|p: Seq<Seq<char>>| file_at(cs, p) && eligible(s.walk, p) && #[trigger] p[0] == t {
        let p = choose|p: Seq<Seq<char>>| file_at(cs, p) && eligible(s.walk, p) && #[trigger] p[0] == t;
        lemma_eligible_iff_handed_out(s.walk, cs, p);
        let i = choose|i: int| 0 <= i < fs.len() && (#[trigger] fs[i]).path == p;
        assert(fs[i].top == Some(t));
    }
}

} // verus!
