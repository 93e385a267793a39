//! The depth-bounded traversal below the root, as an explicit stack of
//! found items. The caller lists the directories that the walk asks for; the
//! walk decides what of each listing it keeps and in which order it hands
//! the items out.
use vstd::prelude::*;
use crate::filter::FilterRules;

verus! {

/// What a directory entry is, as the listing classifies it without following links.
#[derive(Clone, Copy, Debug, PartialEq, Eq, Structural)]
pub enum EntryKind {
    Dir,
    File,
    Other,
}

/// One entry of a directory listing.
#[derive(Debug)]
pub struct Entry {
    pub name: String,
    pub kind: EntryKind,
}

impl View for Entry {
    type V = (Seq<char>, EntryKind);

    open spec fn view(&self) -> (Seq<char>, EntryKind) {
        (self.name@, self.kind)
    }
}

/// The model of a listing, entry by entry.
pub open spec fn listing_view(entries: Seq<Entry>) -> Seq<(Seq<char>, EntryKind)> {
    entries.map_values(|e: Entry| e@)
}

/// A directory still to list, or a file to visit. `path` holds the names from
/// the root down; `top_level_dir` is the name of the root's child that the item
/// descends from, handed down from directory to subdirectory.
#[derive(Debug)]
pub struct Found {
    pub path: Vec<String>,
    pub top_level_dir: Option<String>,
    pub is_dir: bool,
}

/// The model of a found item.
pub struct FoundView {
    pub path: Seq<Seq<char>>,
    pub top: Option<Seq<char>>,
    pub is_dir: bool,
}

impl View for Found {
    type V = FoundView;

    open spec fn view(&self) -> FoundView {
        FoundView {
            path: self.path.deep_view(),
            top: self.top_level_dir.deep_view(),
            is_dir: self.is_dir,
        }
    }
}

/// The root itself, as the first directory to list.
pub open spec fn root_view() -> FoundView {
    FoundView { path: Seq::empty(), top: None, is_dir: true }
}

/// The model of a walk: its bound, its filter, and the stack of found items;
/// the last one is handed out next.
pub struct WalkView {
    pub max_depth: Option<usize>,
    pub includes: Option<Seq<Seq<char>>>,
    pub excludes: Option<Seq<Seq<char>>>,
    pub pending: Seq<FoundView>,
}

/// `depth` is no deeper than the bound, if there is one.
pub open spec fn within_depth(max_depth: Option<usize>, depth: nat) -> bool {
    match max_depth {
        Some(m) => depth <= m,
        None => true,
    }
}

impl WalkView {
    /// The top-level directory `name` takes part.
    pub open spec fn admits(self, name: Seq<char>) -> bool {
        crate::filter::dir_eligible(name, self.includes, self.excludes)
    }

    /// An item that the walk may hold: it lies below an admitted top-level
    /// directory, whose name it carries; a directory lies within the bound,
    /// and a file sits in a directory at depth 1 to the bound.
    pub open spec fn admissible(self, f: FoundView) -> bool {
        &&& f.path.len() >= 1
        &&& f.top == Some(f.path[0])
        &&& self.admits(f.path[0])
        &&& if f.is_dir {
            within_depth(self.max_depth, f.path.len())
        } else {
            f.path.len() >= 2 && within_depth(self.max_depth, (f.path.len() - 1) as nat)
        }
    }

    /// A directory the walk may ask to list: the root, or an admissible directory.
    pub open spec fn listable(self, d: FoundView) -> bool {
        d == root_view() || (d.is_dir && self.admissible(d))
    }

    /// The two lists are never given together, and every held item is admissible.
    pub open spec fn wf(self) -> bool {
        &&& !(self.includes is Some && self.excludes is Some)
        &&& forall|i: int| 0 <= i < self.pending.len() ==> self.admissible(#[trigger] self.pending[i])
    }

    /// What the walk keeps of the entry `e` of the directory `dir`, which lies
    /// at depth `dir.path.len()`. A subdirectory is kept when it is within the
    /// bound and, directly below the root, admitted by the filter; a file is
    /// kept when its directory is not the root; anything else is dropped.
    pub open spec fn queued(self, dir: FoundView, e: (Seq<char>, EntryKind)) -> Option<FoundView> {
        let depth = dir.path.len();
        let path = dir.path.push(e.0);
        match e.1 {
            EntryKind::Dir => if within_depth(self.max_depth, depth + 1) && (depth == 0
                ==> self.admits(e.0)) {
                Some(
                    FoundView {
                        path,
                        top: if depth == 0 {
                            Some(e.0)
                        } else {
                            dir.top
                        },
                        is_dir: true,
                    },
                )
            } else {
                None
            },
            EntryKind::File => if depth >= 1 {
                Some(FoundView { path, top: dir.top, is_dir: false })
            } else {
                None
            },
            EntryKind::Other => None,
        }
    }

    /// What the walk keeps of a listing, in stack order: the item of the first
    /// entry comes last, so that it is handed out first.
    pub open spec fn stacked(self, dir: FoundView, entries: Seq<(Seq<char>, EntryKind)>) -> Seq<
        FoundView,
    >
        decreases entries.len(),
    {
        if entries.len() == 0 {
            Seq::empty()
        } else {
            let rest = self.stacked(dir, entries.drop_first());
            match self.queued(dir, entries[0]) {
                Some(f) => rest.push(f),
                None => rest,
            }
        }
    }

    /// The walk once the listing of `dir` is taken in.
    pub open spec fn expanded(self, dir: FoundView, entries: Seq<(Seq<char>, EntryKind)>) -> WalkView {
        WalkView { pending: self.pending + self.stacked(dir, entries), ..self }
    }

    /// The walk once the next item is handed out.
    pub open spec fn popped(self) -> WalkView {
        WalkView { pending: self.pending.drop_last(), ..self }
    }
}

/// Whatever a listable directory lists, what the walk keeps of it is admissible.
pub proof fn lemma_queued_admissible(w: WalkView, dir: FoundView, e: (Seq<char>, EntryKind))
    requires
        w.listable(dir),
    ensures
        w.queued(dir, e) matches Some(f) ==> w.admissible(f) && f.path.last() == e.0
            && f.path.drop_last() == dir.path,
{
    if let Some(f) = w.queued(dir, e) {
        assert(f.path.drop_last() =~= dir.path);
        if dir.path.len() > 0 {
            assert(f.path[0] == dir.path[0]);
        }
    }
}

/// Every item that the walk keeps of a listing of a listable directory is admissible.
pub proof fn lemma_stacked_admissible(
    w: WalkView,
    dir: FoundView,
    entries: Seq<(Seq<char>, EntryKind)>,
)
    requires
        w.listable(dir),
    ensures
        forall|i: int|
            0 <= i < w.stacked(dir, entries).len() ==> w.admissible(
                #[trigger] w.stacked(dir, entries)[i],
            ),
    decreases entries.len(),
{
    if entries.len() > 0 {
        lemma_stacked_admissible(w, dir, entries.drop_first());
        lemma_queued_admissible(w, dir, entries[0]);
        let rest = w.stacked(dir, entries.drop_first());
        assert forall|i: int| 0 <= i < w.stacked(dir, entries).len() implies w.admissible(
            #[trigger] w.stacked(dir, entries)[i],
        ) by {
            if i < rest.len() {
                assert(w.stacked(dir, entries)[i] == rest[i]);
            }
        }
    }
}

/// A copy of a list of names.
pub fn clone_names(v: &Vec<String>) -> (r: Vec<String>)
    ensures
        r.deep_view() == v.deep_view(),
{
    let mut r: Vec<String> = Vec::new();
    let mut i: usize = 0;
    while i < v.len()
        invariant
            i <= v.len(),
            r@.len() == i,
            forall|j: int| 0 <= j < i ==> r@[j]@ == v@[j]@,
        decreases v.len() - i,
    {
        r.push(v[i].clone());
        i = i + 1;
    }
    assert(r.deep_view() =~= v.deep_view());
    r
}

/// The depth-bounded walk below the root.
pub struct Walk {
    pub max_depth: Option<usize>,
    pub rules: FilterRules,
    pub pending: Vec<Found>,
}

impl View for Walk {
    type V = WalkView;

    open spec fn view(&self) -> WalkView {
        WalkView {
            max_depth: self.max_depth,
            includes: self.rules.includes.deep_view(),
            excludes: self.rules.excludes.deep_view(),
            pending: self.pending@.map_values(|f: Found| f@),
        }
    }
}

/// The root as the first directory to list.
pub fn root() -> (r: Found)
    ensures
        r@ == root_view(),
{
    let path: Vec<String> = Vec::new();
    assert(path.deep_view() =~= Seq::<Seq<char>>::empty());
    Found { path, top_level_dir: None, is_dir: true }
}

impl Walk {
    /// A walk that holds nothing yet: the root is listed first.
    pub fn new(max_depth: Option<usize>, rules: FilterRules) -> (r: Walk)
        requires
            rules.wf(),
        ensures
            r@.wf(),
            r@.pending.len() == 0,
            r@.max_depth == max_depth,
            r@.includes == rules.includes.deep_view(),
            r@.excludes == rules.excludes.deep_view(),
    {
        let r = Walk { max_depth, rules, pending: Vec::new() };
        assert(r@.pending =~= Seq::<FoundView>::empty());
        r
    }

    /// What the walk keeps of the entry `e` of the directory `dir`.
    fn keep(&self, dir: &Found, e: &Entry) -> (r: Option<Found>)
        requires
            self@.wf(),
        ensures
            match r {
                Some(f) => self@.queued(dir@, e@) == Some(f@),
                None => self@.queued(dir@, e@) is None,
            },
    {
        let depth = dir.path.len();
        match e.kind {
            EntryKind::Dir => {
                let deep_enough = match self.max_depth {
                    Some(m) => depth < m,
                    None => true,
                };
                if !deep_enough {
                    return None;
                }
                let top = if depth == 0 {
                    if !self.rules.admits(e.name.as_str()) {
                        return None;
                    }
                    Some(e.name.clone())
                } else {
                    match &dir.top_level_dir {
                        Some(t) => Some(t.clone()),
                        None => None,
                    }
                };
                let mut path = clone_names(&dir.path);
                path.push(e.name.clone());
                let f = Found { path, top_level_dir: top, is_dir: true };
                assert(f@.path =~= dir@.path.push(e.name@));
                assert(f@ == self@.queued(dir@, e@)->0);
                Some(f)
            },
            EntryKind::File => {
                if depth == 0 {
                    return None;
                }
                let top = match &dir.top_level_dir {
                    Some(t) => Some(t.clone()),
                    None => None,
                };
                let mut path = clone_names(&dir.path);
                path.push(e.name.clone());
                let f = Found { path, top_level_dir: top, is_dir: false };
                assert(f@.path =~= dir@.path.push(e.name@));
                assert(f@ == self@.queued(dir@, e@)->0);
                Some(f)
            },
            EntryKind::Other => None,
        }
    }

    /// Takes in the listing of `dir`: what it keeps of the entries goes on
    /// the stack so that they come out in listing order.
    pub fn expand(&mut self, dir: &Found, entries: &Vec<Entry>)
        requires
            old(self)@.wf(),
            old(self)@.listable(dir@),
        ensures
            final(self)@ == old(self)@.expanded(dir@, listing_view(entries@)),
            final(self)@.wf(),
    {
        let ghost w0 = self@;
        let ghost es = listing_view(entries@);
        let mut i: usize = entries.len();
        proof {
            assert(es.subrange(i as int, i as int) =~= Seq::<(Seq<char>, EntryKind)>::empty());
            assert(w0.pending + Seq::<FoundView>::empty() =~= w0.pending);
        }
        while i > 0
            invariant
                i <= entries@.len() == es.len(),
                es == listing_view(entries@),
                self@.wf(),
                w0.listable(dir@),
                self@ == w0.expanded(dir@, es.subrange(i as int, es.len() as int)),
            decreases i,
        {
            let ghost before = self@;
            let ghost tail = es.subrange(i - 1, es.len() as int);
            assert(tail.drop_first() =~= es.subrange(i as int, es.len() as int));
            assert(tail[0] == entries@[i - 1]@);
            let kept = self.keep(dir, &entries[i - 1]);
            proof {
                lemma_queued_admissible(w0, dir@, entries@[i - 1]@);
            }
            match kept {
                Some(f) => {
                    self.pending.push(f);
                    assert(self@.pending =~= before.pending.push(f@));
                },
                None => {},
            }
            i = i - 1;
            assert(self@.pending =~= w0.pending + w0.stacked(dir@, tail));
        }
        assert(es.subrange(0, es.len() as int) =~= es);
    }

    /// Hands out the next item, or `None` when the walk is over.
    pub fn next(&mut self) -> (r: Option<Found>)
        requires
            old(self)@.wf(),
        ensures
            final(self)@.wf(),
            old(self)@.pending.len() == 0 ==> r is None && final(self)@ == old(self)@,
            old(self)@.pending.len() > 0 ==> (r matches Some(f) && f@ == old(self)@.pending.last()
                && final(self)@ == old(self)@.popped()),
            r matches Some(f) ==> old(self)@.admissible(f@),
    {
        let ghost w0 = self@;
        let r = self.pending.pop();
        proof {
            if w0.pending.len() > 0 {
                assert(self@.pending =~= w0.pending.drop_last());
                assert(w0.admissible(w0.pending[w0.pending.len() - 1]));
            }
        }
        r
    }
}

} // verus!
