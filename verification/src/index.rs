//! The frame index: which processes own each physical frame.
//!
//! A [`FrameIndex`] maps each 55-bit page frame number to the set of
//! processes that have the frame resident. Partial indices, one per scanned
//! process, are merged by key union; the merge is commutative and
//! associative, so partial results may be combined in any order.

use vstd::prelude::*;

use crate::pagemap::{spec_in_ram, spec_page_frame_number, Page, MAX_FRAME};
use crate::process::Process;

verus! {

/// One frame and its owners, kept sorted by pid with no duplicates.
#[derive(Debug, PartialEq, Eq, Clone)]
pub struct FrameEntry {
    pub frame: u64,
    pub owners: Vec<Process>,
}

impl FrameEntry {
    pub open spec fn owner_set(&self) -> Set<Process> {
        self.owners@.to_set()
    }

    pub open spec fn wf(&self) -> bool {
        &&& self.owners@.len() > 0
        &&& forall|i: int, j: int|
            0 <= i < j < self.owners@.len() ==> self.owners@[i].pid < self.owners@[j].pid
    }
}

/// The owner set a map gives a frame, or the empty set where the frame is
/// not indexed.
pub open spec fn owners_or_empty(m: Map<u64, Set<Process>>, f: u64) -> Set<Process> {
    if m.dom().contains(f) {
        m[f]
    } else {
        Set::empty()
    }
}

/// A map with one more observation recorded: process `p` owns frame `f`.
pub open spec fn add_owner(m: Map<u64, Set<Process>>, f: u64, p: Process) -> Map<
    u64,
    Set<Process>,
> {
    m.insert(f, owners_or_empty(m, f).insert(p))
}

/// Key union of two frame indices: a frame's owners are the union of the
/// owners the two sides give it.
pub open spec fn merge_view(m1: Map<u64, Set<Process>>, m2: Map<u64, Set<Process>>) -> Map<
    u64,
    Set<Process>,
> {
    Map::new(
        |f: u64| m1.dom().contains(f) || m2.dom().contains(f),
        |f: u64| owners_or_empty(m1, f).union(owners_or_empty(m2, f)),
    )
}

pub open spec fn has_frame(es: Seq<FrameEntry>, f: u64) -> bool {
    exists|i: int| 0 <= i < es.len() && es[i].frame == f
}

pub open spec fn entry_owners(es: Seq<FrameEntry>, f: u64) -> Set<Process> {
    let i = choose|i: int| 0 <= i < es.len() && es[i].frame == f;
    es[i].owner_set()
}

pub open spec fn frames_sorted(es: Seq<FrameEntry>) -> bool {
    forall|i: int, j: int| 0 <= i < j < es.len() ==> es[i].frame < es[j].frame
}

/// In a strictly sorted entry sequence, a frame occurs at most once.
proof fn lemma_frames_unique(es: Seq<FrameEntry>)
    requires
        frames_sorted(es),
    ensures
        forall|i: int, j: int|
            0 <= i < es.len() && 0 <= j < es.len() && es[i].frame == es[j].frame ==> i == j,
{
    assert forall|i: int, j: int|
        0 <= i < es.len() && 0 <= j < es.len() && es[i].frame == es[j].frame implies i == j by {
        if i < j {
            assert(es[i].frame < es[j].frame);
        }
        if j < i {
            assert(es[j].frame < es[i].frame);
        }
    }
}

/// Index from page frame number to the set of owning processes. Entries are
/// kept sorted by frame number, each owner list sorted by pid, so reports
/// come out in deterministic ascending order.
#[derive(Debug, PartialEq, Eq, Clone)]
pub struct FrameIndex {
    pub entries: Vec<FrameEntry>,
}

impl View for FrameIndex {
    type V = Map<u64, Set<Process>>;

    open spec fn view(&self) -> Map<u64, Set<Process>> {
        Map::new(|f: u64| has_frame(self.entries@, f), |f: u64| entry_owners(self.entries@, f))
    }
}

impl FrameIndex {
    /// Entries strictly sorted by frame, every frame within the 55-bit
    /// bound, every owner list sorted by pid and non-empty.
    pub open spec fn wf(&self) -> bool {
        &&& frames_sorted(self.entries@)
        &&& forall|i: int| 0 <= i < self.entries@.len() ==> (#[trigger] self.entries@[i]).wf()
        &&& forall|i: int|
            0 <= i < self.entries@.len() ==> (#[trigger] self.entries@[i]).frame <= MAX_FRAME
    }

    /// The entries in ascending frame order.
    pub open spec fn seq(&self) -> Seq<FrameEntry> {
        self.entries@
    }

    pub fn new() -> (r: FrameIndex)
        ensures
            r.wf(),
            r@ == Map::<u64, Set<Process>>::empty(),
            r.seq() == Seq::<FrameEntry>::empty(),
    {
        let r = FrameIndex { entries: Vec::new() };
        proof {
            assert(r.seq() =~= Seq::<FrameEntry>::empty());
            assert(r@ =~= Map::<u64, Set<Process>>::empty());
        }
        r
    }

    /// How many distinct frames the index holds.
    pub fn len(&self) -> (r: usize)
        ensures
            r == self.seq().len(),
    {
        self.entries.len()
    }

    /// Record one observation: process `p` owns frame `frame`.
    pub fn record(&mut self, frame: u64, p: Process)
        requires
            old(self).wf(),
            frame <= MAX_FRAME,
        ensures
            final(self).wf(),
            final(self)@ == add_owner(old(self)@, frame, p),
    {
        let ghost es0 = self.entries@;
        let ghost m0 = old(self)@;
        let mut i: usize = 0;
        while i < self.entries.len() && self.entries[i].frame < frame
            invariant
                self == old(self),
                i <= self.entries@.len(),
                forall|k: int| 0 <= k < i ==> self.entries@[k].frame < frame,
            decreases self.entries@.len() - i,
        {
            i = i + 1;
        }
        proof {
            lemma_frames_unique(es0);
        }
        if i < self.entries.len() && self.entries[i].frame == frame {
            let e = self.entries.remove(i);
            let owners = insert_pid_sorted(e.owners, p);
            self.entries.insert(i, FrameEntry { frame, owners });
            proof {
                let es1 = self.entries@;
                assert(es1 =~= es0.update(i as int, es1[i as int]));
                assert(forall|k: int| 0 <= k < es1.len() ==> es1[k].frame == es0[k].frame);
                lemma_frames_unique(es1);
                assert(has_frame(es0, frame)) by {
                    assert(es0[i as int].frame == frame);
                }
                assert(has_frame(es1, frame)) by {
                    assert(es1[i as int].frame == frame);
                }
                assert forall|f: u64| has_frame(es1, f) implies has_frame(es0, f) by {
                    let k = choose|k: int| 0 <= k < es1.len() && es1[k].frame == f;
                    assert(es0[k].frame == f);
                }
                assert forall|f: u64| has_frame(es0, f) implies has_frame(es1, f) by {
                    let k = choose|k: int| 0 <= k < es0.len() && es0[k].frame == f;
                    assert(es1[k].frame == f);
                }
                assert(entry_owners(es0, frame) == es0[i as int].owner_set()) by {
                    let k = choose|k: int| 0 <= k < es0.len() && es0[k].frame == frame;
                    assert(k == i as int);
                }
                assert(entry_owners(es1, frame) == es1[i as int].owner_set()) by {
                    let k = choose|k: int| 0 <= k < es1.len() && es1[k].frame == frame;
                    assert(k == i as int);
                }
                assert(es1[i as int].owner_set() =~= es0[i as int].owner_set().insert(p));
                assert forall|f: u64| f != frame && has_frame(es1, f) implies entry_owners(
                    es1,
                    f,
                ) == entry_owners(es0, f) by {
                    let k = choose|k: int| 0 <= k < es1.len() && es1[k].frame == f;
                    let k0 = choose|k0: int| 0 <= k0 < es0.len() && es0[k0].frame == f;
                    assert(es0[k].frame == f);
                    assert(k0 == k);
                    assert(k != i as int);
                }
                assert(self@ =~= add_owner(m0, frame, p));
            }
        } else {
            let mut owners: Vec<Process> = Vec::new();
            owners.push(p);
            let ghost e = FrameEntry { frame, owners };
            self.entries.insert(i, FrameEntry { frame, owners });
            proof {
                let es1 = self.entries@;
                assert(es1 =~= es0.subrange(0, i as int) + seq![e] + es0.subrange(
                    i as int,
                    es0.len() as int,
                ));
                assert(forall|k: int| 0 <= k < i ==> es1[k] == es0[k]);
                assert(es1[i as int] == e);
                assert(forall|k: int| i < k < es1.len() ==> es1[k] == es0[k - 1]);
                assert(forall|k: int| i <= k < es0.len() ==> es0[k].frame > frame);
                assert(!has_frame(es0, frame)) by {
                    assert forall|k: int| 0 <= k < es0.len() implies es0[k].frame != frame by {
                        if k < i as int {
                            assert(es0[k].frame < frame);
                        } else {
                            assert(es0[k].frame > frame);
                        }
                    }
                }
                assert(frames_sorted(es1)) by {
                    assert forall|a: int, b: int| 0 <= a < b < es1.len() implies es1[a].frame
                        < es1[b].frame by {
                        if b < i as int {
                        } else if a == i as int {
                            assert(es1[b] == es0[b - 1]);
                        } else if b == i as int {
                            assert(es1[a] == es0[a]);
                        } else if a > i as int {
                            assert(es1[a] == es0[a - 1]);
                            assert(es1[b] == es0[b - 1]);
                        } else {
                            assert(es1[a] == es0[a]);
                            assert(es1[b] == es0[b - 1]);
                        }
                    }
                }
                lemma_frames_unique(es1);
                assert(e.owners@.contains(p)) by {
                    assert(e.owners@[0] == p);
                }
                assert forall|x: Process| e.owners@.contains(x) implies x == p by {
                    let k = choose|k: int| 0 <= k < e.owners@.len() && e.owners@[k] == x;
                    assert(k == 0);
                }
                assert(e.owner_set() =~= Set::<Process>::empty().insert(p));
                assert(has_frame(es1, frame)) by {
                    assert(es1[i as int].frame == frame);
                }
                assert forall|f: u64| f != frame implies (has_frame(es1, f) <==> has_frame(
                    es0,
                    f,
                )) by {
                    if has_frame(es1, f) {
                        let k = choose|k: int| 0 <= k < es1.len() && es1[k].frame == f;
                        if k < i as int {
                            assert(es0[k].frame == f);
                        } else {
                            assert(k != i as int);
                            assert(es0[k - 1].frame == f);
                        }
                    }
                    if has_frame(es0, f) {
                        let k = choose|k: int| 0 <= k < es0.len() && es0[k].frame == f;
                        if k < i as int {
                            assert(es1[k].frame == f);
                        } else {
                            assert(es1[k + 1].frame == f);
                        }
                    }
                }
                assert(entry_owners(es1, frame) == e.owner_set()) by {
                    let k = choose|k: int| 0 <= k < es1.len() && es1[k].frame == frame;
                    assert(k == i as int);
                }
                assert forall|f: u64| f != frame && has_frame(es1, f) implies entry_owners(
                    es1,
                    f,
                ) == entry_owners(es0, f) by {
                    let k = choose|k: int| 0 <= k < es1.len() && es1[k].frame == f;
                    let k0 = choose|k0: int| 0 <= k0 < es0.len() && es0[k0].frame == f;
                    assert(es0[k0].frame == f);
                    if k0 < i as int {
                        assert(es1[k0].frame == f);
                        assert(k == k0);
                    } else {
                        assert(es1[k0 + 1].frame == f);
                        assert(k == k0 + 1);
                        assert(es1[k] == es0[k0]);
                    }
                }
                assert(self@ =~= add_owner(m0, frame, p));
            }
        }
    }
}

/// The observations one scanned process contributes: every page of `pages`
/// whose resident-in-memory flag is set is recorded under its frame number
/// for process `p`; pages not resident contribute nothing.
pub open spec fn with_pages(
    m: Map<u64, Set<Process>>,
    p: Process,
    pages: Seq<Page>,
) -> Map<u64, Set<Process>>
    decreases pages.len(),
{
    if pages.len() == 0 {
        m
    } else {
        let m2 = with_pages(m, p, pages.drop_last());
        if spec_in_ram(pages.last().0) {
            add_owner(m2, spec_page_frame_number(pages.last().0), p)
        } else {
            m2
        }
    }
}

/// The frames of the pages of `pages` that are resident in memory.
pub open spec fn resident_frames(pages: Seq<Page>) -> Set<u64> {
    Set::new(
        |f: u64|
            exists|i: int|
                0 <= i < pages.len() && spec_in_ram((#[trigger] pages[i]).0)
                    && spec_page_frame_number(pages[i].0) == f,
    )
}

/// What one process's scan does to an index, frame by frame: exactly the
/// resident pages' frames gain `p` as an owner, every other frame keeps its
/// owner set, and no frame is invented or dropped.
pub proof fn lemma_with_pages_characterized(
    m: Map<u64, Set<Process>>,
    p: Process,
    pages: Seq<Page>,
)
    ensures
        with_pages(m, p, pages).dom() =~= m.dom().union(resident_frames(pages)),
        forall|f: u64|
            resident_frames(pages).contains(f) ==> with_pages(m, p, pages)[f]
                == owners_or_empty(m, f).insert(p),
        forall|f: u64|
            !resident_frames(pages).contains(f) && m.dom().contains(f) ==> with_pages(
                m,
                p,
                pages,
            )[f] == m[f],
    decreases pages.len(),
{
    if pages.len() == 0 {
        assert forall|f: u64| !resident_frames(pages).contains(f) by {}
    } else {
        let dl = pages.drop_last();
        let last = pages.last();
        lemma_with_pages_characterized(m, p, dl);
        let m2 = with_pages(m, p, dl);
        assert(forall|k: int| 0 <= k < dl.len() ==> dl[k] == pages[k]);
        assert forall|f: u64|
            resident_frames(pages).contains(f) <==> (resident_frames(dl).contains(f) || (
            spec_in_ram(last.0) && spec_page_frame_number(last.0) == f)) by {
            if resident_frames(pages).contains(f) {
                let i = choose|i: int|
                    0 <= i < pages.len() && spec_in_ram((#[trigger] pages[i]).0)
                        && spec_page_frame_number(pages[i].0) == f;
                if i < pages.len() - 1 {
                    assert(dl[i] == pages[i]);
                    assert(resident_frames(dl).contains(f));
                }
            }
            if resident_frames(dl).contains(f) {
                let i = choose|i: int|
                    0 <= i < dl.len() && spec_in_ram((#[trigger] dl[i]).0)
                        && spec_page_frame_number(dl[i].0) == f;
                assert(pages[i] == dl[i]);
                assert(resident_frames(pages).contains(f));
            }
            if spec_in_ram(last.0) && spec_page_frame_number(last.0) == f {
                assert(pages[pages.len() - 1] == last);
                assert(resident_frames(pages).contains(f));
            }
        }
        if spec_in_ram(last.0) {
            let lf = spec_page_frame_number(last.0);
            assert(with_pages(m, p, pages) == add_owner(m2, lf, p));
            assert forall|f: u64|
                resident_frames(pages).contains(f) implies with_pages(m, p, pages)[f]
                == owners_or_empty(m, f).insert(p) by {
                if f == lf {
                    if resident_frames(dl).contains(f) {
                        assert(owners_or_empty(m2, f) == owners_or_empty(m, f).insert(p));
                        assert(owners_or_empty(m, f).insert(p).insert(p) =~= owners_or_empty(
                            m,
                            f,
                        ).insert(p));
                    } else {
                        assert(owners_or_empty(m2, f) =~= owners_or_empty(m, f));
                    }
                }
            }
        } else {
            assert(with_pages(m, p, pages) == m2);
        }
    }
}

/// Every owner of `ps` recorded for frame `f`, in order.
pub open spec fn with_owner_list(
    m: Map<u64, Set<Process>>,
    f: u64,
    ps: Seq<Process>,
) -> Map<u64, Set<Process>>
    decreases ps.len(),
{
    if ps.len() == 0 {
        m
    } else {
        add_owner(with_owner_list(m, f, ps.drop_last()), f, ps.last())
    }
}

/// Every (frame, owner) observation of `es` recorded, in order.
pub open spec fn with_entries(m: Map<u64, Set<Process>>, es: Seq<FrameEntry>) -> Map<
    u64,
    Set<Process>,
>
    decreases es.len(),
{
    if es.len() == 0 {
        m
    } else {
        with_owner_list(with_entries(m, es.drop_last()), es.last().frame, es.last().owners@)
    }
}

pub open spec fn index_view(es: Seq<FrameEntry>) -> Map<u64, Set<Process>> {
    Map::new(|f: u64| has_frame(es, f), |f: u64| entry_owners(es, f))
}

proof fn lemma_with_owner_list_view(m: Map<u64, Set<Process>>, f: u64, ps: Seq<Process>)
    requires
        ps.len() > 0,
    ensures
        with_owner_list(m, f, ps) == m.insert(f, owners_or_empty(m, f).union(ps.to_set())),
    decreases ps.len(),
{
    let dl = ps.drop_last();
    assert forall|x: Process| ps.contains(x) implies dl.contains(x) || x == ps.last() by {
        let k = choose|k: int| 0 <= k < ps.len() && ps[k] == x;
        if k < ps.len() - 1 {
            assert(dl[k] == x);
        }
    }
    assert forall|x: Process| dl.contains(x) implies ps.contains(x) by {
        let k = choose|k: int| 0 <= k < dl.len() && dl[k] == x;
        assert(ps[k] == x);
    }
    assert(ps.contains(ps.last()));
    assert(with_owner_list(m, f, ps) == add_owner(with_owner_list(m, f, dl), f, ps.last()));
    if dl.len() == 0 {
        assert(with_owner_list(m, f, dl) == m);
        assert(owners_or_empty(m, f).insert(ps.last()) =~= owners_or_empty(m, f).union(
            ps.to_set(),
        ));
        assert(add_owner(m, f, ps.last()) =~= m.insert(
            f,
            owners_or_empty(m, f).union(ps.to_set()),
        ));
    } else {
        lemma_with_owner_list_view(m, f, dl);
        let w = m.insert(f, owners_or_empty(m, f).union(dl.to_set()));
        assert(owners_or_empty(w, f) == owners_or_empty(m, f).union(dl.to_set()));
        assert(owners_or_empty(m, f).union(dl.to_set()).insert(ps.last()) =~= owners_or_empty(
            m,
            f,
        ).union(ps.to_set()));
        assert(add_owner(w, f, ps.last()) =~= m.insert(
            f,
            owners_or_empty(m, f).union(ps.to_set()),
        ));
    }
}

proof fn lemma_with_entries_view(m: Map<u64, Set<Process>>, es: Seq<FrameEntry>)
    requires
        frames_sorted(es),
        forall|i: int| 0 <= i < es.len() ==> (#[trigger] es[i]).wf(),
    ensures
        with_entries(m, es) == merge_view(m, index_view(es)),
    decreases es.len(),
{
    lemma_frames_unique(es);
    if es.len() == 0 {
        assert(with_entries(m, es) =~~= merge_view(m, index_view(es)));
    } else {
        let dl = es.drop_last();
        let e = es.last();
        assert(forall|k: int| 0 <= k < dl.len() ==> dl[k] == es[k]);
        lemma_with_entries_view(m, dl);
        lemma_frames_unique(dl);
        assert(e.owners@.len() > 0);
        lemma_with_owner_list_view(merge_view(m, index_view(dl)), e.frame, e.owners@);
        assert(!has_frame(dl, e.frame)) by {
            if has_frame(dl, e.frame) {
                let k = choose|k: int| 0 <= k < dl.len() && dl[k].frame == e.frame;
                assert(es[k].frame < es[es.len() - 1].frame);
            }
        }
        assert forall|f: u64| f != e.frame implies (has_frame(dl, f) <==> has_frame(es, f)) by {
            if has_frame(dl, f) {
                let k = choose|k: int| 0 <= k < dl.len() && dl[k].frame == f;
                assert(es[k].frame == f);
            }
            if has_frame(es, f) {
                let k = choose|k: int| 0 <= k < es.len() && es[k].frame == f;
                assert(k < es.len() - 1);
                assert(dl[k].frame == f);
            }
        }
        assert forall|f: u64| f != e.frame && has_frame(es, f) implies entry_owners(es, f)
            == entry_owners(dl, f) by {
            let k = choose|k: int| 0 <= k < es.len() && es[k].frame == f;
            let k2 = choose|k2: int| 0 <= k2 < dl.len() && dl[k2].frame == f;
            assert(es[k2].frame == f);
            assert(k2 == k);
        }
        assert(has_frame(es, e.frame)) by {
            assert(es[es.len() - 1].frame == e.frame);
        }
        assert(entry_owners(es, e.frame) == e.owner_set()) by {
            let k = choose|k: int| 0 <= k < es.len() && es[k].frame == e.frame;
            assert(k == es.len() - 1);
        }
        assert(with_entries(m, es) =~~= merge_view(m, index_view(es)));
    }
}

/// Merging with the empty index changes nothing.
pub proof fn lemma_merge_view_empty(m: Map<u64, Set<Process>>)
    ensures
        merge_view(Map::<u64, Set<Process>>::empty(), m) == m,
        merge_view(m, Map::<u64, Set<Process>>::empty()) == m,
{
    assert(merge_view(Map::<u64, Set<Process>>::empty(), m) =~~= m);
    assert(merge_view(m, Map::<u64, Set<Process>>::empty()) =~~= m);
}

/// Merging partial frame indices is commutative: the result does not depend
/// on which side was scanned first.
pub proof fn lemma_merge_view_commutative(m1: Map<u64, Set<Process>>, m2: Map<u64, Set<Process>>)
    ensures
        merge_view(m1, m2) == merge_view(m2, m1),
{
    assert(merge_view(m1, m2) =~~= merge_view(m2, m1));
}

/// Merging partial frame indices is associative: partial results may be
/// combined in any grouping.
pub proof fn lemma_merge_view_associative(
    m1: Map<u64, Set<Process>>,
    m2: Map<u64, Set<Process>>,
    m3: Map<u64, Set<Process>>,
)
    ensures
        merge_view(merge_view(m1, m2), m3) == merge_view(m1, merge_view(m2, m3)),
{
    assert forall|f: u64|
        owners_or_empty(merge_view(m1, m2), f) =~= owners_or_empty(m1, f).union(
            owners_or_empty(m2, f),
        ) by {}
    assert forall|f: u64|
        owners_or_empty(merge_view(m2, m3), f) =~= owners_or_empty(m2, f).union(
            owners_or_empty(m3, f),
        ) by {}
    assert(merge_view(merge_view(m1, m2), m3) =~~= merge_view(m1, merge_view(m2, m3)));
}

impl FrameIndex {
    /// Record every resident page of one process's scan: pages whose
    /// resident flag is clear are dropped, the rest are indexed under their
    /// frame number.
    pub fn add_pages(&mut self, p: Process, pages: &Vec<Page>)
        requires
            old(self).wf(),
        ensures
            final(self).wf(),
            final(self)@ == with_pages(old(self)@, p, pages@),
    {
        let ghost m0 = old(self)@;
        let mut i: usize = 0;
        while i < pages.len()
            invariant
                self.wf(),
                i <= pages@.len(),
                self@ == with_pages(m0, p, pages@.take(i as int)),
            decreases pages@.len() - i,
        {
            let pg = pages[i];
            proof {
                assert(pages@.take(i + 1).drop_last() =~= pages@.take(i as int));
                assert(pages@.take(i + 1).last() == pages@[i as int]);
            }
            if pg.in_ram() {
                let f = pg.page_frame_number();
                self.record(f, p);
            }
            i = i + 1;
        }
        proof {
            assert(pages@.take(pages@.len() as int) =~= pages@);
        }
    }

    /// Key union with another partial index: the merged owner set of a frame
    /// is the union of the owner sets the two sides give it.
    pub fn merge(&self, other: &FrameIndex) -> (r: FrameIndex)
        requires
            self.wf(),
            other.wf(),
        ensures
            r.wf(),
            r@ == merge_view(self@, other@),
    {
        let mut r = FrameIndex::new();
        merge_into(&mut r, self);
        proof {
            lemma_with_entries_view(Map::<u64, Set<Process>>::empty(), self.entries@);
            lemma_merge_view_empty(self@);
        }
        merge_into(&mut r, other);
        proof {
            lemma_with_entries_view(self@, other.entries@);
        }
        r
    }
}

/// Fold every (frame, owner) observation of `src` into `dst`.
fn merge_into(dst: &mut FrameIndex, src: &FrameIndex)
    requires
        old(dst).wf(),
        src.wf(),
    ensures
        final(dst).wf(),
        final(dst)@ == with_entries(old(dst)@, src.seq()),
{
    let ghost m0 = old(dst)@;
    let ghost es = src.entries@;
    let mut i: usize = 0;
    while i < src.entries.len()
        invariant
            dst.wf(),
            src.wf(),
            i <= es.len(),
            es == src.entries@,
            dst@ == with_entries(m0, es.take(i as int)),
        decreases es.len() - i,
    {
        let frame = src.entries[i].frame;
        let ghost w_i = with_entries(m0, es.take(i as int));
        let mut j: usize = 0;
        while j < src.entries[i].owners.len()
            invariant
                dst.wf(),
                src.wf(),
                i < es.len(),
                es == src.entries@,
                frame == es[i as int].frame,
                j <= es[i as int].owners@.len(),
                w_i == with_entries(m0, es.take(i as int)),
                dst@ == with_owner_list(w_i, frame, es[i as int].owners@.take(j as int)),
            decreases es[i as int].owners@.len() - j,
        {
            let p = src.entries[i].owners[j];
            proof {
                let os = es[i as int].owners@;
                assert(os.take(j + 1).drop_last() =~= os.take(j as int));
                assert(os.take(j + 1).last() == os[j as int]);
                assert(es[i as int].frame <= MAX_FRAME);
            }
            dst.record(frame, p);
            j = j + 1;
        }
        proof {
            let os = es[i as int].owners@;
            assert(os.take(os.len() as int) =~= os);
            assert(es.take(i + 1).drop_last() =~= es.take(i as int));
            assert(es.take(i + 1).last() == es[i as int]);
        }
        i = i + 1;
    }
    proof {
        assert(es.take(es.len() as int) =~= es);
    }
}

/// Insert a process into a pid-sorted owner list, keeping it sorted and
/// duplicate-free.
fn insert_pid_sorted(owners: Vec<Process>, p: Process) -> (r: Vec<Process>)
    requires
        forall|i: int, j: int|
            0 <= i < j < owners@.len() ==> owners@[i].pid < owners@[j].pid,
    ensures
        forall|i: int, j: int| 0 <= i < j < r@.len() ==> r@[i].pid < r@[j].pid,
        r@.to_set() == owners@.to_set().insert(p),
        r@.len() > 0,
{
    let ghost os0 = owners@;
    let mut owners = owners;
    let mut i: usize = 0;
    while i < owners.len() && owners[i].pid < p.pid
        invariant
            owners@ == os0,
            i <= owners@.len(),
            forall|k: int| 0 <= k < i ==> owners@[k].pid < p.pid,
        decreases owners@.len() - i,
    {
        i = i + 1;
    }
    if i < owners.len() && owners[i].pid == p.pid {
        proof {
            assert(owners@[i as int] == p);
            assert(owners@.contains(p));
            assert(owners@.to_set() =~= os0.to_set().insert(p));
        }
        owners
    } else {
        owners.insert(i, p);
        proof {
            let os1 = owners@;
            assert(os1 =~= os0.subrange(0, i as int) + seq![p] + os0.subrange(
                i as int,
                os0.len() as int,
            ));
            assert(forall|k: int| 0 <= k < i ==> os1[k] == os0[k]);
            assert(os1[i as int] == p);
            assert(forall|k: int| i < k < os1.len() ==> os1[k] == os0[k - 1]);
            assert(forall|k: int| i <= k < os0.len() ==> os0[k].pid > p.pid);
            assert forall|a: int, b: int| 0 <= a < b < os1.len() implies os1[a].pid
                < os1[b].pid by {
                if b < i as int {
                } else if a == i as int {
                    assert(os1[b] == os0[b - 1]);
                } else if b == i as int {
                    assert(os1[a] == os0[a]);
                } else if a > i as int {
                    assert(os1[a] == os0[a - 1]);
                    assert(os1[b] == os0[b - 1]);
                } else {
                    assert(os1[a] == os0[a]);
                    assert(os1[b] == os0[b - 1]);
                }
            }
            assert forall|x: Process| os1.contains(x) implies os0.contains(x) || x == p by {
                let k = choose|k: int| 0 <= k < os1.len() && os1[k] == x;
                if k < i as int {
                    assert(os0[k] == x);
                } else if k > i as int {
                    assert(os0[k - 1] == x);
                }
            }
            assert forall|x: Process| os0.contains(x) implies os1.contains(x) by {
                let k = choose|k: int| 0 <= k < os0.len() && os0[k] == x;
                if k < i as int {
                    assert(os1[k] == x);
                } else {
                    assert(os1[k + 1] == x);
                }
            }
            assert(os1.contains(p));
            assert(os1.to_set() =~= os0.to_set().insert(p));
        }
        owners
    }
}

} // verus!
