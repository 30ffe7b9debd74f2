//! A whole scan of a source folder, depth first: the scan asks for the
//! listing of one folder at a time, decides with `scan_folder_plan` what to
//! keep and where to descend, and keeps the scripts found in order. Paths are
//! lists of names below the source folder.

use vstd::prelude::*;

use crate::route::texts;
use crate::sources::first_init_file;
use crate::sources::lemma_first_init_file_sound;
use crate::sources::lemma_walk_steps_sound;
use crate::sources::listing_view;
use crate::sources::scan_folder_plan;
use crate::sources::valid_source;
use crate::sources::walk_steps;
use crate::sources::DirEntryInfo;
use crate::sources::ScanPlan;
use crate::sources::ScanStep;

verus! {

/// Work left to a scan: a folder to list, or a script to keep.
pub enum ScanWork {
    List(Vec<String>),
    Keep(Vec<String>),
}

/// The plain view of work left to a scan.
pub enum WorkView {
    List(Seq<Seq<char>>),
    Keep(Seq<Seq<char>>),
}

pub open spec fn work_view(w: ScanWork) -> WorkView {
    match w {
        ScanWork::List(p) => WorkView::List(texts(p@)),
        ScanWork::Keep(p) => WorkView::Keep(texts(p@)),
    }
}

pub open spec fn works_view(ws: Seq<ScanWork>) -> Seq<WorkView> {
    ws.map_values(|w: ScanWork| work_view(w))
}

/// What the scan needs next.
pub enum ScanAction {
    /// The listing of the folder at this path below the source folder.
    ListFolder(Vec<String>),
    /// Nothing: the scan is over.
    Done,
}

/// The state of a scan: the work left (the last item is done first), and the
/// scripts kept so far, in order.
pub struct FolderScan {
    pending: Vec<ScanWork>,
    found: Vec<Vec<String>>,
}

/// A path names a script: it is not empty and its last name is a script's.
pub open spec fn script_path(p: Seq<Seq<char>>) -> bool {
    p.len() > 0 && valid_source(p.last())
}

/// Every script kept, and every script still to keep, is a script.
pub open spec fn only_scripts(pending: Seq<WorkView>, found: Seq<Seq<Seq<char>>>) -> bool {
    &&& forall|i: int| 0 <= i < found.len() ==> script_path(#[trigger] found[i])
    &&& forall|i: int| 0 <= i < pending.len() ==> (#[trigger] pending[i] matches WorkView::Keep(p)
        ==> script_path(p))
}

/// The work that the listing of the folder at `path` gives, in listing
/// order: its first init script alone, if it has one; otherwise each
/// sub-folder to list and each script to keep.
pub open spec fn works_for(path: Seq<Seq<char>>, listing: Seq<(Seq<char>, bool, bool)>) -> Seq<
    WorkView,
> {
    match first_init_file(listing) {
        Some(i) => seq![WorkView::Keep(path.push(listing[i].0))],
        None => walk_steps(listing).map_values(
            |s: ScanStep|
                match s {
                    ScanStep::Descend(i) => WorkView::List(path.push(listing[i as int].0)),
                    ScanStep::Collect(i) => WorkView::Keep(path.push(listing[i as int].0)),
                },
        ),
    }
}

/// The scan after taking work from the top until a folder is to be listed:
/// the work left, the scripts kept, and the folder to list (`None` when no
/// work is left).
pub open spec fn drained(pending: Seq<WorkView>, found: Seq<Seq<Seq<char>>>) -> (
    Seq<WorkView>,
    Seq<Seq<Seq<char>>>,
    Option<Seq<Seq<char>>>,
)
    decreases pending.len(),
{
    if pending.len() == 0 {
        (pending, found, None)
    } else {
        match pending.last() {
            WorkView::Keep(p) => drained(pending.drop_last(), found.push(p)),
            WorkView::List(p) => (pending.drop_last(), found, Some(p)),
        }
    }
}

impl FolderScan {
    pub closed spec fn pending_view(&self) -> Seq<WorkView> {
        works_view(self.pending@)
    }

    pub closed spec fn found_view(&self) -> Seq<Seq<Seq<char>>> {
        self.found@.map_values(|p: Vec<String>| texts(p@))
    }

    /// The scan keeps only scripts.
    pub open spec fn wf(&self) -> bool {
        only_scripts(self.pending_view(), self.found_view())
    }

    /// A scan of the source folder: its listing comes first.
    pub fn new() -> (s: FolderScan)
        ensures
            s.wf(),
            s.pending_view() == seq![WorkView::List(Seq::empty())],
            s.found_view() == Seq::<Seq<Seq<char>>>::empty(),
    {
        let root: Vec<String> = Vec::new();
        assert(texts(root@) =~= Seq::<Seq<char>>::empty());
        let s = FolderScan { pending: vec![ScanWork::List(root)], found: Vec::new() };
        assert(works_view(s.pending@)[0] == work_view(s.pending@[0]));
        assert(s.pending_view() =~= seq![WorkView::List(Seq::empty())]);
        assert(s.found_view() =~= Seq::<Seq<Seq<char>>>::empty());
        s
    }

    /// The next thing the scan needs: scripts on top of the work are kept,
    /// in order, until a folder is to be listed; `Done` when no work is left.
    pub fn next_action(&mut self) -> (a: ScanAction)
        requires
            old(self).wf(),
        ensures
            final(self).wf(),
            ({
                let (pending, found, next) = drained(old(self).pending_view(), old(self).found_view());
                &&& final(self).pending_view() == pending
                &&& final(self).found_view() == found
                &&& match a {
                    ScanAction::ListFolder(p) => next == Some(texts(p@)),
                    ScanAction::Done => next is None,
                }
            }),
    {
        let ghost target = drained(self.pending_view(), self.found_view());
        loop
            invariant
                self.wf(),
                drained(self.pending_view(), self.found_view()) == target,
                target == drained(old(self).pending_view(), old(self).found_view()),
            decreases self.pending@.len(),
        {
            let ghost before_pending = self.pending@;
            let ghost before_found = self.found@;
            match self.pending.pop() {
                None => {
                    assert(self.pending@ == before_pending);
                    assert(self.pending_view().len() == 0);
                    assert(target == (self.pending_view(), self.found_view(), None::<Seq<Seq<char>>>));
                    return ScanAction::Done;
                },
                Some(ScanWork::Keep(p)) => {
                    proof {
                        assert(works_view(self.pending@) =~= works_view(before_pending).drop_last());
                        let last = works_view(before_pending)[before_pending.len() - 1];
                        assert(last == work_view(ScanWork::Keep(p)));
                    }
                    self.found.push(p);
                    proof {
                        assert(self.found_view() =~= before_found.map_values(
                            |q: Vec<String>| texts(q@),
                        ).push(texts(p@)));
                        assert forall|i: int| 0 <= i < self.found_view().len() implies script_path(
                            #[trigger] self.found_view()[i],
                        ) by {
                            if i < before_found.len() {
                                assert(self.found_view()[i] == before_found.map_values(
                                    |q: Vec<String>| texts(q@),
                                )[i]);
                            }
                        }
                        assert forall|i: int| 0 <= i < self.pending_view().len() implies (
                        #[trigger] self.pending_view()[i] matches WorkView::Keep(q) ==> script_path(
                            q,
                        )) by {
                            assert(self.pending_view()[i] == works_view(before_pending)[i]);
                        }
                    }
                },
                Some(ScanWork::List(p)) => {
                    proof {
                        assert(works_view(self.pending@) =~= works_view(before_pending).drop_last());
                        let last = works_view(before_pending)[before_pending.len() - 1];
                        assert(last == work_view(ScanWork::List(p)));
                        assert forall|i: int| 0 <= i < self.pending_view().len() implies (
                        #[trigger] self.pending_view()[i] matches WorkView::Keep(q) ==> script_path(
                            q,
                        )) by {
                            assert(self.pending_view()[i] == works_view(before_pending)[i]);
                        }
                    }
                    assert(target == (self.pending_view(), self.found_view(), Some(texts(p@))));
                    return ScanAction::ListFolder(p);
                },
            }
        }
    }

    /// Takes the listing of the folder at `path`: its work (see `works_for`)
    /// goes on top, so that it is done next, in listing order.
    pub fn take_listing(&mut self, path: &Vec<String>, entries: &Vec<DirEntryInfo>)
        requires
            old(self).wf(),
        ensures
            final(self).wf(),
            final(self).found_view() == old(self).found_view(),
            final(self).pending_view() == old(self).pending_view() + works_for(
                texts(path@),
                listing_view(entries@),
            ).reverse(),
    {
        let ghost lv = listing_view(entries@);
        let ghost pv = texts(path@);
        let ghost works = works_for(pv, lv);
        let ghost start = self.pending_view();
        let n_entries: usize = entries.len();
        assert(lv.len() == n_entries);
        proof {
            lemma_works_for_sound(pv, lv);
            lemma_first_init_file_sound(lv);
            lemma_walk_steps_sound(lv);
        }
        let mut todo: Vec<ScanWork> = Vec::new();
        match scan_folder_plan(entries) {
            ScanPlan::InitFile(i) => {
                let mut p = copy_path(path);
                p.push(entries[i].name.clone());
                assert(texts(p@) =~= pv.push(lv[i as int].0));
                todo.push(ScanWork::Keep(p));
            },
            ScanPlan::Walk(steps) => {
                let mut k: usize = 0;
                while k < steps.len()
                    invariant
                        works == works_for(pv, lv),
                        pv == texts(path@),
                        lv == listing_view(entries@),
                        first_init_file(lv) is None,
                        steps@ == walk_steps(lv),
                        k <= steps@.len(),
                        works_view(todo@) == works.take(k as int),
                        forall|j: int|
                            0 <= j < steps@.len() ==> match #[trigger] steps@[j] {
                                ScanStep::Descend(i) => i < lv.len(),
                                ScanStep::Collect(i) => i < lv.len(),
                            },
                    decreases steps.len() - k,
                {
                    let ghost before = todo@;
                    let step = steps[k];
                    let i = match step {
                        ScanStep::Descend(i) => i,
                        ScanStep::Collect(i) => i,
                    };
                    let mut p = copy_path(path);
                    p.push(entries[i].name.clone());
                    assert(texts(p@) =~= pv.push(lv[i as int].0));
                    let w = match step {
                        ScanStep::Descend(_) => ScanWork::List(p),
                        ScanStep::Collect(_) => ScanWork::Keep(p),
                    };
                    todo.push(w);
                    assert(works_view(todo@) =~= works_view(before).push(work_view(w)));
                    assert(works.take(k + 1) =~= works.take(k as int).push(works[k as int]));
                    k = k + 1;
                }
                assert(works.take(steps.len() as int) =~= works);
            },
        }
        assert(works_view(todo@) =~= works);
        let ghost todo_view = works_view(todo@);
        let mut m: usize = todo.len();
        assert(works.reverse().take(0) =~= Seq::<WorkView>::empty());
        assert(self.pending_view() =~= start + works.reverse().take(0));
        while m > 0
            invariant
                m == todo@.len(),
                m <= works.len(),
                works_view(todo@) == works.take(m as int),
                todo_view == works,
                works.len() == todo_view.len(),
                self.pending_view() == start + works.reverse().take(works.len() - m),
                self.found_view() == old(self).found_view(),
            decreases m,
        {
            let ghost before_todo = todo@;
            let ghost before_pending = self.pending@;
            let w = todo.pop().unwrap();
            assert(w == before_todo[m - 1]);
            assert(works_view(before_todo)[m - 1] == work_view(before_todo[m - 1]));
            assert(works.take(m as int)[m - 1] == works[m - 1]);
            assert(work_view(w) == works[m - 1]);
            assert(works_view(todo@) =~= works.take(m - 1));
            self.pending.push(w);
            assert(works.reverse().take(works.len() - m + 1) =~= works.reverse().take(
                works.len() - m,
            ).push(works[m - 1]));
            assert(self.pending_view() =~= works_view(before_pending).push(work_view(w)));
            m = m - 1;
        }
        assert(works.reverse().take(works.len() as int) =~= works.reverse());
        assert forall|i: int| 0 <= i < self.pending_view().len() implies (
        #[trigger] self.pending_view()[i] matches WorkView::Keep(q) ==> script_path(q)) by {
            if i >= start.len() {
                assert(self.pending_view()[i] == works[works.len() - 1 - (i - start.len())]);
            } else {
                assert(self.pending_view()[i] == start[i]);
            }
        }
    }

    /// The scripts kept, in order.
    pub fn into_found(self) -> (found: Vec<Vec<String>>)
        ensures
            found@.map_values(|p: Vec<String>| texts(p@)) == self.found_view(),
    {
        self.found
    }
}

/// A copy of a path.
fn copy_path(path: &Vec<String>) -> (r: Vec<String>)
    ensures
        texts(r@) == texts(path@),
{
    let mut r: Vec<String> = Vec::new();
    let mut i: usize = 0;
    while i < path.len()
        invariant
            i <= path@.len(),
            texts(r@) == texts(path@).take(i as int),
        decreases path.len() - i,
    {
        let ghost before = r@;
        r.push(path[i].clone());
        assert(texts(r@) =~= texts(before).push(path@[i as int]@));
        assert(texts(path@).take(i + 1) =~= texts(path@).take(i as int).push(path@[i as int]@));
        i = i + 1;
    }
    assert(texts(path@).take(path@.len() as int) =~= texts(path@));
    r
}

/// What a listing gives: a script to keep is the folder's path followed by
/// the name of a listed entry that is a file and an init script, or that is
/// not a folder and is a script; a folder to list is the path followed by the
/// name of a listed folder. So a scan keeps only scripts, each below the
/// source folder through folders it listed.
pub proof fn lemma_works_for_sound(path: Seq<Seq<char>>, listing: Seq<(Seq<char>, bool, bool)>)
    requires
        listing.len() <= usize::MAX,
    ensures
        forall|k: int|
            0 <= k < works_for(path, listing).len() ==> match #[trigger] works_for(path, listing)[k] {
                WorkView::Keep(p) => script_path(p) && exists|i: int|
                    0 <= i < listing.len() && p == path.push(listing[i].0) && (listing[i].1
                        || !listing[i].2),
                WorkView::List(p) => exists|i: int|
                    0 <= i < listing.len() && p == path.push(listing[i].0) && listing[i].2,
            },
{
    lemma_first_init_file_sound(listing);
    lemma_walk_steps_sound(listing);
    let works = works_for(path, listing);
    assert forall|k: int| 0 <= k < works.len() implies match #[trigger] works[k] {
        WorkView::Keep(p) => script_path(p) && exists|i: int|
            0 <= i < listing.len() && p == path.push(listing[i].0) && (listing[i].1 || !listing[i].2),
        WorkView::List(p) => exists|i: int|
            0 <= i < listing.len() && p == path.push(listing[i].0) && listing[i].2,
    } by {
        match first_init_file(listing) {
            Some(i) => {
                assert(path.push(listing[i].0).last() == listing[i].0);
            },
            None => {
                match walk_steps(listing)[k] {
                    ScanStep::Descend(i) => {
                        assert(works[k] == WorkView::List(path.push(listing[i as int].0)));
                    },
                    ScanStep::Collect(i) => {
                        assert(works[k] == WorkView::Keep(path.push(listing[i as int].0)));
                        assert(path.push(listing[i as int].0).last() == listing[i as int].0);
                    },
                }
            },
        }
    }
}

} // verus!
