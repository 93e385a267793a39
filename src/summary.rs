//! The first pass: how many files a flatten would move, and from which
//! top-level directories, without holding a path per file.
use vstd::prelude::*;
use vstd::string::*;
use crate::filter::FilterRules;
use crate::walk::{Entry, EntryKind, Found, FoundView, Walk, WalkView, clone_names, listing_view, root, root_view};

verus! {

/// The model of a summary: the count of files and the top-level directories
/// they come from, in the order first met.
pub struct SummaryView {
    pub file_count: usize,
    pub dirs: Seq<Seq<char>>,
}

/// The summary once one more file is counted; the count stops at `usize::MAX`.
pub open spec fn recorded(s: SummaryView, top: Option<Seq<char>>) -> SummaryView {
    SummaryView {
        file_count: if s.file_count < usize::MAX {
            (s.file_count + 1) as usize
        } else {
            s.file_count
        },
        dirs: match top {
            Some(t) => if s.dirs.contains(t) {
                s.dirs
            } else {
                s.dirs.push(t)
            },
            None => s.dirs,
        },
    }
}

/// The count of files to move and the set of top-level directories they
/// come from, each named once.
pub struct FileSummary {
    pub file_count: usize,
    pub top_level_dirs: Vec<String>,
}

impl View for FileSummary {
    type V = SummaryView;

    open spec fn view(&self) -> SummaryView {
        SummaryView { file_count: self.file_count, dirs: self.top_level_dirs.deep_view() }
    }
}

impl FileSummary {
    /// No directory is named twice.
    pub open spec fn wf(&self) -> bool {
        self@.dirs.no_duplicates()
    }

    /// No file and no directory.
    pub fn new() -> (r: FileSummary)
        ensures
            r@.file_count == 0,
            r@.dirs.len() == 0,
            r.wf(),
    {
        let r = FileSummary { file_count: 0, top_level_dirs: Vec::new() };
        assert(r@.dirs =~= Seq::<Seq<char>>::empty());
        r
    }

    /// Whether `name` is among the top-level directories.
    pub fn contains_top_level_dir(&self, name: &str) -> (r: bool)
        ensures
            r == self@.dirs.contains(name@),
    {
        let wanted = String::from_str(name);
        let mut i: usize = 0;
        while i < self.top_level_dirs.len()
            invariant
                i <= self.top_level_dirs.len(),
                wanted@ == name@,
                forall|j: int| 0 <= j < i ==> self@.dirs[j] != name@,
            decreases self.top_level_dirs.len() - i,
        {
            if self.top_level_dirs[i] == wanted {
                assert(self@.dirs[i as int] == name@);
                return true;
            }
            i = i + 1;
        }
        false
    }

    /// Counts one more file, which descends from the top-level directory `top`.
    pub fn record(&mut self, top: &Option<String>)
        requires
            old(self).wf(),
        ensures
            final(self)@ == recorded(old(self)@, top.deep_view()),
            final(self).wf(),
    {
        if self.file_count < usize::MAX {
            self.file_count = self.file_count + 1;
        }
        if let Some(t) = top {
            if !self.contains_top_level_dir(t.as_str()) {
                let ghost before = self@.dirs;
                self.top_level_dirs.push(t.clone());
                assert(self@.dirs =~= before.push(t@));
            }
        }
    }
}

/// The model of a summary pass: the walk, the directory whose listing it
/// waits for, and the summary so far.
pub struct SummaryPassView {
    pub walk: WalkView,
    pub listing: Option<FoundView>,
    pub summary: SummaryView,
}

/// Hands out items until a directory is to be listed or the walk is over:
/// each file on the way is counted.
pub open spec fn settle(v: SummaryPassView) -> SummaryPassView
    decreases v.walk.pending.len(),
{
    if v.listing is Some || v.walk.pending.len() == 0 {
        v
    } else {
        let f = v.walk.pending.last();
        if f.is_dir {
            SummaryPassView { walk: v.walk.popped(), listing: Some(f), ..v }
        } else {
            settle(
                SummaryPassView {
                    walk: v.walk.popped(),
                    summary: recorded(v.summary, f.top),
                    ..v
                },
            )
        }
    }
}

/// The pass once the awaited listing is taken in.
pub open spec fn summary_step(v: SummaryPassView, entries: Seq<(Seq<char>, EntryKind)>) -> SummaryPassView {
    settle(
        SummaryPassView {
            walk: v.walk.expanded(v.listing->0, entries),
            listing: None,
            ..v
        },
    )
}

impl SummaryPassView {
    /// The walk is well formed, the awaited directory may be listed, no
    /// directory is recorded twice, and each recorded directory is admitted.
    pub open spec fn wf(self) -> bool {
        &&& self.walk.wf()
        &&& (self.listing matches Some(d) ==> self.walk.listable(d))
        &&& self.summary.dirs.no_duplicates()
        &&& forall|i: int|
            0 <= i < self.summary.dirs.len() ==> self.walk.admits(#[trigger] self.summary.dirs[i])
    }

    /// No directory is awaited: the pass is over.
    pub open spec fn finished(self) -> bool {
        self.listing is None
    }
}

/// The summary pass: a walk whose visitor counts each file and notes its
/// top-level directory.
pub struct SummaryPass {
    pub walk: Walk,
    pub listing: Option<Found>,
    pub summary: FileSummary,
}

impl View for SummaryPass {
    type V = SummaryPassView;

    open spec fn view(&self) -> SummaryPassView {
        SummaryPassView {
            walk: self.walk@,
            listing: match self.listing {
                Some(d) => Some(d@),
                None => None,
            },
            summary: self.summary@,
        }
    }
}

impl SummaryPass {
    /// A pass that waits for the listing of the root.
    pub fn new(max_depth: Option<usize>, rules: FilterRules) -> (r: SummaryPass)
        requires
            rules.wf(),
        ensures
            r@.wf(),
            r@.listing == Some(root_view()),
            r@.walk.pending.len() == 0,
            r@.walk.max_depth == max_depth,
            r@.walk.includes == rules.includes.deep_view(),
            r@.walk.excludes == rules.excludes.deep_view(),
            r@.summary.file_count == 0,
            r@.summary.dirs.len() == 0,
    {
        SummaryPass { walk: Walk::new(max_depth, rules), listing: Some(root()), summary: FileSummary::new() }
    }

    /// Whether the pass is over.
    pub fn is_finished(&self) -> (r: bool)
        ensures
            r == self@.finished(),
    {
        self.listing.is_none()
    }
}

/// Takes in the listing of the directory that the pass waits for, counts the
/// files that follow, and returns the path of the next directory to list, or
/// `None` when the summary is complete.
pub fn collect_file_summary(pass: &mut SummaryPass, entries: &Vec<Entry>) -> (r: Option<Vec<String>>)
    requires
        old(pass)@.wf(),
        !old(pass)@.finished(),
    ensures
        final(pass)@ == summary_step(old(pass)@, listing_view(entries@)),
        final(pass)@.wf(),
        match r {
            Some(p) => final(pass)@.listing matches Some(d) && p.deep_view() == d.path,
            None => final(pass)@.finished() && final(pass)@.walk.pending.len() == 0,
        },
{
    let ghost v0 = pass@;
    let dir = pass.listing.take().unwrap();
    pass.walk.expand(&dir, entries);
    let ghost goal = summary_step(v0, listing_view(entries@));
    assert(pass@ == SummaryPassView {
        walk: v0.walk.expanded(v0.listing->0, listing_view(entries@)),
        listing: None,
        ..v0
    });
    loop
        invariant
            pass@.wf(),
            settle(pass@) == goal,
            goal == summary_step(old(pass)@, listing_view(entries@)),
            pass@.listing is None,
        decreases pass@.walk.pending.len(),
    {
        let ghost before = pass@;
        match pass.walk.next() {
            None => {
                assert(settle(before) == before);
                return None;
            },
            Some(f) => {
                if f.is_dir {
                    let path = clone_names(&f.path);
                    pass.listing = Some(f);
                    assert(pass@ == settle(before));
                    return Some(path);
                } else {
                    pass.summary.record(&f.top_level_dir);
                    assert(pass@ == SummaryPassView {
                        walk: before.walk.popped(),
                        summary: recorded(before.summary, f@.top),
                        ..before
                    });
                }
            },
        }
    }
}

} // verus!
