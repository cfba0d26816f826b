//! Range compression of a frame index.
//!
//! Scanning the index in ascending frame order, a run of frames is folded
//! into one [`PageRange`] while the next frame is exactly one past the
//! current end *and* its owner set is identical to the run's owner set.
//! Frames with different owner sets are never merged, the trailing open run
//! is always flushed, and ranges come out in ascending order.

use vstd::prelude::*;

use crate::index::frames_sorted;
use crate::index::FrameEntry;
use crate::index::FrameIndex;
use crate::pagemap::MAX_FRAME;
use crate::process::Process;

verus! {

/// A compressed report entry: the half-open frame interval `[from, to)`,
/// paired with the set of processes that own every frame in the interval.
#[derive(Debug, PartialEq, Eq, Clone)]
pub struct PageRange {
    pub from: u64,
    pub to: u64,
    pub owners: Vec<Process>,
}

/// Mathematical image of one entry of a frame index.
pub ghost struct GEntry {
    pub frame: int,
    pub owners: Seq<Process>,
}

/// Mathematical image of one compressed range.
pub ghost struct GRange {
    pub from: int,
    pub to: int,
    pub owners: Seq<Process>,
}

impl View for PageRange {
    type V = GRange;

    open spec fn view(&self) -> GRange {
        GRange { from: self.from as int, to: self.to as int, owners: self.owners@ }
    }
}

pub open spec fn gentries(es: Seq<FrameEntry>) -> Seq<GEntry> {
    Seq::new(es.len(), |i: int| GEntry { frame: es[i].frame as int, owners: es[i].owners@ })
}

pub open spec fn ranges_view(rs: Seq<PageRange>) -> Seq<GRange> {
    Seq::new(rs.len(), |i: int| rs[i]@)
}

pub open spec fn owner_seq_wf(ps: Seq<Process>) -> bool {
    &&& ps.len() > 0
    &&& forall|a: int, b: int| 0 <= a < b < ps.len() ==> ps[a].pid < ps[b].pid
}

/// Entries of a frame index, in strictly ascending frame order with
/// well-formed owner lists.
pub open spec fn gentries_wf(gs: Seq<GEntry>) -> bool {
    &&& forall|i: int, j: int| 0 <= i < j < gs.len() ==> gs[i].frame < gs[j].frame
    &&& forall|i: int| 0 <= i < gs.len() ==> owner_seq_wf((#[trigger] gs[i]).owners)
    &&& forall|i: int| 0 <= i < gs.len() ==> 0 <= (#[trigger] gs[i]).frame <= MAX_FRAME
}

/// Ranges of a compressed report: non-empty, in ascending order, pairwise
/// disjoint, with well-formed owner lists.
pub open spec fn granges_wf(rs: Seq<GRange>) -> bool {
    &&& forall|j: int| 0 <= j < rs.len() ==> 0 <= (#[trigger] rs[j]).from < rs[j].to <= MAX_FRAME + 1
    &&& forall|j: int| 0 <= j < rs.len() ==> owner_seq_wf((#[trigger] rs[j]).owners)
    &&& forall|j: int| 0 <= j < rs.len() - 1 ==> (#[trigger] rs[j]).to <= rs[j + 1].from
}

/// No two adjacent output ranges could be merged: where they touch, their
/// owner sets differ.
pub open spec fn granges_maximal(rs: Seq<GRange>) -> bool {
    forall|j: int|
        0 <= j < rs.len() - 1 ==> ((#[trigger] rs[j]).to == rs[j + 1].from ==> rs[j].owners
            != rs[j + 1].owners)
}

/// The rest of the compression scan: entries `gs[i..]` remain, and the run
/// `[from, to)` with owner list `owners` is open. The run is extended while
/// the next entry continues it with the same owners; otherwise it is closed
/// and a new run opens. The final open run is always flushed.
pub open spec fn compress_from(
    gs: Seq<GEntry>,
    i: int,
    from: int,
    to: int,
    owners: Seq<Process>,
) -> Seq<GRange>
    decreases gs.len() - i,
{
    if i < 0 || i >= gs.len() {
        seq![GRange { from, to, owners }]
    } else if gs[i].frame == to && gs[i].owners == owners {
        compress_from(gs, i + 1, from, to + 1, owners)
    } else {
        seq![GRange { from, to, owners }] + compress_from(
            gs,
            i + 1,
            gs[i].frame,
            gs[i].frame + 1,
            gs[i].owners,
        )
    }
}

/// The whole compression scan over an index's entries.
pub open spec fn compress_entries(gs: Seq<GEntry>) -> Seq<GRange> {
    if gs.len() == 0 {
        Seq::empty()
    } else {
        compress_from(gs, 1, gs[0].frame, gs[0].frame + 1, gs[0].owners)
    }
}

/// The entries a range stands for: one per frame in `[from, to)`, each with
/// the range's owner list.
pub open spec fn interval(from: int, to: int, owners: Seq<Process>) -> Seq<GEntry> {
    Seq::new(
        if to >= from {
            (to - from) as nat
        } else {
            0
        },
        |k: int| GEntry { frame: from + k, owners },
    )
}

/// Re-expansion of a compressed report into index entries.
pub open spec fn expand_ranges(rs: Seq<GRange>) -> Seq<GEntry>
    decreases rs.len(),
{
    if rs.len() == 0 {
        Seq::empty()
    } else {
        interval(rs[0].from, rs[0].to, rs[0].owners) + expand_ranges(rs.drop_first())
    }
}

proof fn lemma_expand_compress_from(gs: Seq<GEntry>, i: int, from: int, to: int, owners: Seq<
    Process,
>)
    requires
        0 <= i <= gs.len(),
        from < to,
        forall|a: int, b: int| 0 <= a < b < gs.len() ==> gs[a].frame < gs[b].frame,
        forall|k: int| i <= k < gs.len() ==> (#[trigger] gs[k]).frame >= to,
    ensures
        expand_ranges(compress_from(gs, i, from, to, owners)) == interval(from, to, owners)
            + gs.subrange(i, gs.len() as int),
    decreases gs.len() - i,
{
    if i >= gs.len() {
        reveal_with_fuel(expand_ranges, 2);
        let rs = seq![GRange { from, to, owners }];
        assert(rs.drop_first() =~= Seq::<GRange>::empty());
        assert(expand_ranges(rs) =~= interval(from, to, owners) + gs.subrange(
            i,
            gs.len() as int,
        ));
    } else if gs[i].frame == to && gs[i].owners == owners {
        lemma_expand_compress_from(gs, i + 1, from, to + 1, owners);
        assert(interval(from, to + 1, owners) =~= interval(from, to, owners) + seq![
            GEntry { frame: to, owners },
        ]);
        assert(gs[i] == GEntry { frame: to, owners });
        assert(gs.subrange(i, gs.len() as int) =~= seq![gs[i]] + gs.subrange(
            i + 1,
            gs.len() as int,
        ));
        assert(expand_ranges(compress_from(gs, i, from, to, owners)) =~= interval(
            from,
            to,
            owners,
        ) + gs.subrange(i, gs.len() as int));
    } else {
        let f2 = gs[i].frame;
        let o2 = gs[i].owners;
        assert forall|k: int| i + 1 <= k < gs.len() implies (#[trigger] gs[k]).frame >= f2
            + 1 by {
            assert(gs[i].frame < gs[k].frame);
        }
        lemma_expand_compress_from(gs, i + 1, f2, f2 + 1, o2);
        let rest = compress_from(gs, i + 1, f2, f2 + 1, o2);
        let whole = seq![GRange { from, to, owners }] + rest;
        assert(compress_from(gs, i, from, to, owners) == whole);
        assert(whole.drop_first() =~= rest);
        assert(whole[0] == GRange { from, to, owners });
        assert(expand_ranges(whole) == interval(from, to, owners) + expand_ranges(rest));
        assert(interval(f2, f2 + 1, o2) =~= seq![gs[i]]);
        assert(gs.subrange(i, gs.len() as int) =~= seq![gs[i]] + gs.subrange(
            i + 1,
            gs.len() as int,
        ));
        assert(expand_ranges(whole) =~= interval(from, to, owners) + gs.subrange(
            i,
            gs.len() as int,
        ));
    }
}

/// Re-expanding a compressed index gives back exactly the entries that were
/// compressed: compression loses nothing and invents nothing.
pub proof fn lemma_expand_compress(gs: Seq<GEntry>)
    requires
        forall|a: int, b: int| 0 <= a < b < gs.len() ==> gs[a].frame < gs[b].frame,
    ensures
        expand_ranges(compress_entries(gs)) == gs,
{
    if gs.len() == 0 {
        assert(expand_ranges(compress_entries(gs)) =~= gs);
    } else {
        assert forall|k: int| 1 <= k < gs.len() implies (#[trigger] gs[k]).frame >= gs[0].frame
            + 1 by {
            assert(gs[0].frame < gs[k].frame);
        }
        lemma_expand_compress_from(gs, 1, gs[0].frame, gs[0].frame + 1, gs[0].owners);
        assert(interval(gs[0].frame, gs[0].frame + 1, gs[0].owners) =~= seq![gs[0]]);
        assert(expand_ranges(compress_entries(gs)) =~= gs);
    }
}

/// Compressing an index that was compressed and then re-expanded yields the
/// identical range sequence: the compressed form is a fixed point.
pub proof fn lemma_compress_idempotent(gs: Seq<GEntry>)
    requires
        forall|a: int, b: int| 0 <= a < b < gs.len() ==> gs[a].frame < gs[b].frame,
    ensures
        compress_entries(expand_ranges(compress_entries(gs))) == compress_entries(gs),
{
    lemma_expand_compress(gs);
}

#[verifier::rlimit(60)]
proof fn lemma_compress_from_wf(gs: Seq<GEntry>, i: int, from: int, to: int, owners: Seq<Process>)
    requires
        0 <= i <= gs.len(),
        0 <= from < to <= MAX_FRAME + 1,
        owner_seq_wf(owners),
        gentries_wf(gs),
        forall|k: int| i <= k < gs.len() ==> (#[trigger] gs[k]).frame >= to,
    ensures
        compress_from(gs, i, from, to, owners).len() >= 1,
        compress_from(gs, i, from, to, owners)[0].from == from,
        compress_from(gs, i, from, to, owners)[0].owners == owners,
        granges_wf(compress_from(gs, i, from, to, owners)),
        granges_maximal(compress_from(gs, i, from, to, owners)),
        compress_from(gs, i, from, to, owners).last().to == if i < gs.len() {
            gs.last().frame + 1
        } else {
            to
        },
    decreases gs.len() - i,
{
    if i >= gs.len() {
    } else if gs[i].frame == to && gs[i].owners == owners {
        lemma_compress_from_wf(gs, i + 1, from, to + 1, owners);
    } else {
        let f2 = gs[i].frame;
        let o2 = gs[i].owners;
        assert forall|k: int| i + 1 <= k < gs.len() implies (#[trigger] gs[k]).frame >= f2
            + 1 by {
            assert(gs[i].frame < gs[k].frame);
        }
        lemma_compress_from_wf(gs, i + 1, f2, f2 + 1, o2);
        let rest = compress_from(gs, i + 1, f2, f2 + 1, o2);
        let whole = seq![GRange { from, to, owners }] + rest;
        assert(compress_from(gs, i, from, to, owners) == whole);
        assert(whole[0].to == to <= f2 == whole[1].from);
        assert(whole[1].owners == o2);
        assert(to == f2 ==> owners != o2);
        assert(forall|j: int| 0 <= j < rest.len() ==> whole[j + 1] == rest[j]);
        assert(granges_wf(whole)) by {
            assert forall|j: int| 0 <= j < whole.len() - 1 implies (#[trigger] whole[j]).to
                <= whole[j + 1].from by {
                if j > 0 {
                    assert(whole[j] == rest[j - 1]);
                    assert(whole[j + 1] == rest[j]);
                }
            }
        }
        assert(granges_maximal(whole)) by {
            assert forall|j: int|
                0 <= j < whole.len() - 1 && (#[trigger] whole[j]).to == whole[j
                    + 1].from implies whole[j].owners != whole[j + 1].owners by {
                if j > 0 {
                    assert(whole[j] == rest[j - 1]);
                    assert(whole[j + 1] == rest[j]);
                }
            }
        }
        assert(whole.last() == rest.last());
    }
}

/// What compression guarantees of its output: well-formed, maximal ranges,
/// the first opening at the least frame and the last reaching one past the
/// greatest frame of the index.
pub proof fn lemma_compress_wf(gs: Seq<GEntry>)
    requires
        gentries_wf(gs),
    ensures
        granges_wf(compress_entries(gs)),
        granges_maximal(compress_entries(gs)),
        gs.len() == 0 ==> compress_entries(gs).len() == 0,
        gs.len() > 0 ==> compress_entries(gs).len() >= 1,
        gs.len() > 0 ==> compress_entries(gs)[0].from == gs[0].frame,
        gs.len() > 0 ==> compress_entries(gs).last().to == gs.last().frame + 1,
{
    if gs.len() > 0 {
        assert forall|k: int| 1 <= k < gs.len() implies (#[trigger] gs[k]).frame >= gs[0].frame
            + 1 by {
            assert(gs[0].frame < gs[k].frame);
        }
        lemma_compress_from_wf(gs, 1, gs[0].frame, gs[0].frame + 1, gs[0].owners);
    }
}

proof fn lemma_expand_membership(rs: Seq<GRange>)
    ensures
        forall|j: int, f: int|
            0 <= j < rs.len() && rs[j].from <= f < rs[j].to ==> #[trigger] expand_ranges(
                rs,
            ).contains(GEntry { frame: f, owners: rs[j].owners }),
        forall|k: int|
            0 <= k < expand_ranges(rs).len() ==> exists|j: int|
                0 <= j < rs.len() && rs[j].from <= (#[trigger] expand_ranges(rs)[k]).frame
                    < rs[j].to && expand_ranges(rs)[k].owners == rs[j].owners,
    decreases rs.len(),
{
    if rs.len() > 0 {
        let head = interval(rs[0].from, rs[0].to, rs[0].owners);
        let tail = rs.drop_first();
        lemma_expand_membership(tail);
        assert(forall|j: int| 0 <= j < tail.len() ==> tail[j] == rs[j + 1]);
        assert forall|j: int, f: int|
            0 <= j < rs.len() && rs[j].from <= f < rs[j].to implies #[trigger] expand_ranges(
            rs,
        ).contains(GEntry { frame: f, owners: rs[j].owners }) by {
            if j == 0 {
                let k = f - rs[0].from;
                assert(head[k] == GEntry { frame: f, owners: rs[0].owners });
                assert(expand_ranges(rs)[k] == head[k]);
            } else {
                assert(tail[j - 1] == rs[j]);
                assert(expand_ranges(tail).contains(GEntry { frame: f, owners: rs[j].owners }));
                let k = choose|k: int|
                    0 <= k < expand_ranges(tail).len() && expand_ranges(tail)[k] == GEntry {
                        frame: f,
                        owners: rs[j].owners,
                    };
                assert(expand_ranges(rs)[head.len() + k] == expand_ranges(tail)[k]);
            }
        }
        assert forall|k: int| 0 <= k < expand_ranges(rs).len() implies exists|j: int|
            0 <= j < rs.len() && rs[j].from <= (#[trigger] expand_ranges(rs)[k]).frame < rs[j].to
                && expand_ranges(rs)[k].owners == rs[j].owners by {
            if k < head.len() {
                assert(expand_ranges(rs)[k] == head[k]);
                assert(rs[0].from <= expand_ranges(rs)[k].frame < rs[0].to
                    && expand_ranges(rs)[k].owners == rs[0].owners);
            } else {
                assert(expand_ranges(rs)[k] == expand_ranges(tail)[k - head.len()]);
                let j = choose|j: int|
                    0 <= j < tail.len() && tail[j].from <= expand_ranges(tail)[k - head.len()].frame
                        < tail[j].to && expand_ranges(tail)[k - head.len()].owners
                        == tail[j].owners;
                assert(rs[j + 1].from <= expand_ranges(rs)[k].frame < rs[j + 1].to
                    && expand_ranges(rs)[k].owners == rs[j + 1].owners);
            }
        }
    }
}

/// In a well-formed range sequence the ranges are pairwise disjoint: each
/// range ends no later than any later range begins, so a frame is covered
/// by at most one range.
pub proof fn lemma_granges_disjoint(rs: Seq<GRange>)
    requires
        granges_wf(rs),
    ensures
        forall|j1: int, j2: int|
            0 <= j1 < j2 < rs.len() ==> (#[trigger] rs[j1]).to <= (#[trigger] rs[j2]).from,
{
    assert forall|j1: int, j2: int| 0 <= j1 < j2 < rs.len() implies (#[trigger] rs[j1]).to <= (
    #[trigger] rs[j2]).from by {
        lemma_granges_chain(rs, j1, j2);
    }
}

proof fn lemma_granges_chain(rs: Seq<GRange>, j1: int, j2: int)
    requires
        granges_wf(rs),
        0 <= j1 < j2 < rs.len(),
    ensures
        rs[j1].to <= rs[j2].from,
    decreases j2 - j1,
{
    if j1 + 1 == j2 {
        assert(rs[j1].to <= rs[j1 + 1].from);
    } else {
        lemma_granges_chain(rs, j1, j2 - 1);
        assert(rs[j2 - 1].to <= rs[j2 - 1 + 1].from);
    }
}

/// What the compressed report says of the index it came from: a frame `f`
/// is covered by an output range exactly when the index holds `f`, the
/// covering range carries exactly that frame's owner list (so frames with
/// different owner sets are never merged), and every indexed frame is
/// covered.
pub proof fn lemma_compress_covers(gs: Seq<GEntry>)
    requires
        gentries_wf(gs),
    ensures
        forall|j: int, f: int|
            0 <= j < compress_entries(gs).len() && compress_entries(gs)[j].from <= f
                < compress_entries(gs)[j].to ==> #[trigger] gs.contains(
                GEntry { frame: f, owners: compress_entries(gs)[j].owners },
            ),
        forall|i: int|
            0 <= i < gs.len() ==> exists|j: int|
                0 <= j < compress_entries(gs).len() && compress_entries(gs)[j].from <= (
                #[trigger] gs[i]).frame < compress_entries(gs)[j].to && compress_entries(
                    gs,
                )[j].owners == gs[i].owners,
{
    let rs = compress_entries(gs);
    lemma_expand_compress(gs);
    lemma_expand_membership(rs);
    assert forall|j: int, f: int|
        0 <= j < rs.len() && rs[j].from <= f < rs[j].to implies #[trigger] gs.contains(
        GEntry { frame: f, owners: rs[j].owners },
    ) by {
        assert(expand_ranges(rs).contains(GEntry { frame: f, owners: rs[j].owners }));
    }
    assert forall|i: int| 0 <= i < gs.len() implies exists|j: int|
        0 <= j < rs.len() && rs[j].from <= (#[trigger] gs[i]).frame < rs[j].to && rs[j].owners
            == gs[i].owners by {
        assert(expand_ranges(rs)[i] == gs[i]);
    }
}

/// Element-wise equality of two owner lists.
fn owners_equal(a: &Vec<Process>, b: &Vec<Process>) -> (r: bool)
    ensures
        r <==> a@ == b@,
{
    if a.len() != b.len() {
        proof {
            assert(a@ != b@);
        }
        return false;
    }
    let mut i: usize = 0;
    while i < a.len()
        invariant
            a@.len() == b@.len(),
            i <= a@.len(),
            forall|k: int| 0 <= k < i ==> a@[k] == b@[k],
        decreases a@.len() - i,
    {
        if a[i].pid != b[i].pid {
            proof {
                assert(a@[i as int] != b@[i as int]);
            }
            return false;
        }
        proof {
            assert(a@[i as int] == b@[i as int]);
        }
        i = i + 1;
    }
    proof {
        assert(a@ =~= b@);
    }
    true
}

/// A fresh copy of an owner list.
fn copy_owners(v: &Vec<Process>) -> (r: Vec<Process>)
    ensures
        r@ == v@,
{
    let mut out: Vec<Process> = Vec::new();
    let mut i: usize = 0;
    while i < v.len()
        invariant
            i <= v@.len(),
            out@ == v@.take(i as int),
        decreases v@.len() - i,
    {
        out.push(v[i]);
        proof {
            assert(v@.take(i + 1) =~= v@.take(i as int).push(v@[i as int]));
        }
        i = i + 1;
    }
    proof {
        assert(v@.take(v@.len() as int) =~= v@);
    }
    out
}

/// Compress a frame index into the ordered report: maximal runs of
/// contiguous frames with identical owner sets, the trailing run flushed.
pub fn compress(index: &FrameIndex) -> (r: Vec<PageRange>)
    requires
        index.wf(),
    ensures
        ranges_view(r@) == compress_entries(gentries(index.seq())),
{
    let ghost gs = gentries(index.entries@);
    proof {
        assert forall|k: int| 0 <= k < gs.len() implies owner_seq_wf(
            (#[trigger] gs[k]).owners,
        ) by {
            assert(index.entries@[k].wf());
        }
        assert(gentries_wf(gs));
    }
    let mut out: Vec<PageRange> = Vec::new();
    if index.entries.len() == 0 {
        proof {
            assert(ranges_view(out@) =~= compress_entries(gs));
        }
        return out;
    }
    let mut from: u64 = index.entries[0].frame;
    let mut to: u64 = from + 1;
    let mut owners: Vec<Process> = copy_owners(&index.entries[0].owners);
    let mut i: usize = 1;
    while i < index.entries.len()
        invariant
            index.wf(),
            gs == gentries(index.entries@),
            1 <= i <= index.entries@.len(),
            index.entries@.len() > 0,
            from < to <= MAX_FRAME + 1,
            owners@.len() > 0,
            compress_entries(gs) == ranges_view(out@) + compress_from(
                gs,
                i as int,
                from as int,
                to as int,
                owners@,
            ),
        decreases index.entries@.len() - i,
    {
        let ghost out0 = out@;
        let e_frame = index.entries[i].frame;
        proof {
            assert(gs[i as int].frame == e_frame as int);
            assert(gs[i as int].owners == index.entries@[i as int].owners@);
            assert(e_frame <= MAX_FRAME);
        }
        if e_frame == to && owners_equal(&index.entries[i].owners, &owners) {
            to = to + 1;
        } else {
            let closed = PageRange { from, to, owners };
            proof {
                assert(closed@ == GRange { from: from as int, to: to as int, owners: closed.owners@ });
            }
            out.push(closed);
            from = e_frame;
            to = e_frame + 1;
            owners = copy_owners(&index.entries[i].owners);
            proof {
                assert(ranges_view(out@) =~= ranges_view(out0) + seq![closed@]);
                assert((ranges_view(out0) + seq![closed@]) + compress_from(
                    gs,
                    i + 1,
                    from as int,
                    to as int,
                    owners@,
                ) =~= ranges_view(out0) + (seq![closed@] + compress_from(
                    gs,
                    i + 1,
                    from as int,
                    to as int,
                    owners@,
                )));
            }
        }
        i = i + 1;
    }
    let closed = PageRange { from, to, owners };
    out.push(closed);
    proof {
        let ghost out0 = out@.drop_last();
        assert(out0 =~= out@.drop_last());
        assert(ranges_view(out@) =~= ranges_view(out@.drop_last()) + seq![closed@]);
        assert(compress_from(gs, gs.len() as int, from as int, to as int, owners@) == seq![
            closed@,
        ]);
    }
    out
}

/// Re-expand a compressed report into a frame index: one entry per frame of
/// each range, each carrying the range's owner set.
pub fn expand(ranges: &Vec<PageRange>) -> (r: FrameIndex)
    requires
        granges_wf(ranges_view(ranges@)),
    ensures
        r.wf(),
        gentries(r.seq()) == expand_ranges(ranges_view(ranges@)),
{
    let ghost rv = ranges_view(ranges@);
    let mut entries: Vec<FrameEntry> = Vec::new();
    let mut j: usize = 0;
    while j < ranges.len()
        invariant
            rv == ranges_view(ranges@),
            granges_wf(rv),
            j <= rv.len(),
            gentries(entries@) == expand_ranges(rv.take(j as int)),
            frames_sorted(entries@),
            forall|k: int| 0 <= k < entries@.len() ==> (#[trigger] entries@[k]).frame <= MAX_FRAME,
            forall|k: int|
                0 <= k < entries@.len() ==> owner_seq_wf((#[trigger] entries@[k]).owners@),
            entries@.len() > 0 && j < rv.len() ==> (entries@.last().frame as int) < rv[
                j as int].from,
        decreases rv.len() - j,
    {
        let rfrom = ranges[j].from;
        let rto = ranges[j].to;
        let mut f = rfrom;
        proof {
            assert(rv[j as int] == ranges@[j as int]@);
            assert(interval(rfrom as int, rfrom as int, rv[j as int].owners) =~= Seq::<
                GEntry,
            >::empty());
            assert(gentries(entries@) + interval(rfrom as int, rfrom as int, rv[j as int].owners)
                =~= gentries(entries@));
        }
        while f < rto
            invariant
                rv == ranges_view(ranges@),
                granges_wf(rv),
                j < rv.len(),
                rfrom == rv[j as int].from,
                rto == rv[j as int].to,
                rfrom <= f <= rto,
                ranges@[j as int].owners@ == rv[j as int].owners,
                gentries(entries@) == expand_ranges(rv.take(j as int)) + interval(
                    rfrom as int,
                    f as int,
                    rv[j as int].owners,
                ),
                frames_sorted(entries@),
                forall|k: int|
                    0 <= k < entries@.len() ==> (#[trigger] entries@[k]).frame <= MAX_FRAME,
                forall|k: int|
                    0 <= k < entries@.len() ==> owner_seq_wf((#[trigger] entries@[k]).owners@),
                entries@.len() > 0 ==> (entries@.last().frame as int) < f || (
                entries@.last().frame == f - 1 && f > rfrom),
                entries@.len() > 0 ==> (entries@.last().frame as int) < f,
            decreases rto - f,
        {
            let owners = copy_owners(&ranges[j].owners);
            let e = FrameEntry { frame: f, owners };
            let ghost before = entries@;
            entries.push(e);
            proof {
                assert(gentries(entries@) =~= gentries(before) + seq![
                    GEntry { frame: f as int, owners: rv[j as int].owners },
                ]);
                assert(interval(rfrom as int, f + 1, rv[j as int].owners) =~= interval(
                    rfrom as int,
                    f as int,
                    rv[j as int].owners,
                ) + seq![GEntry { frame: f as int, owners: rv[j as int].owners }]);
                assert(gentries(entries@) =~= expand_ranges(rv.take(j as int)) + interval(
                    rfrom as int,
                    f + 1,
                    rv[j as int].owners,
                ));
            }
            f = f + 1;
        }
        proof {
            assert(rv.take(j + 1) =~= rv.take(j as int).push(rv[j as int]));
            lemma_expand_push(rv.take(j as int), rv[j as int]);
            assert(gentries(entries@) =~= expand_ranges(rv.take(j + 1)));
            if j + 1 < rv.len() {
                lemma_granges_chain(rv, j as int, j + 1);
                assert(entries@.len() > 0 ==> (entries@.last().frame as int) < rv[j + 1].from);
            }
        }
        j = j + 1;
    }
    proof {
        assert(rv.take(rv.len() as int) =~= rv);
    }
    let r = FrameIndex { entries };
    proof {
        assert forall|k: int| 0 <= k < r.entries@.len() implies (#[trigger] r.entries@[k]).wf() by {
            assert(owner_seq_wf(r.entries@[k].owners@));
        }
    }
    r
}

/// Expanding one more range appends its interval.
proof fn lemma_expand_push(rs: Seq<GRange>, r: GRange)
    ensures
        expand_ranges(rs.push(r)) == expand_ranges(rs) + interval(r.from, r.to, r.owners),
    decreases rs.len(),
{
    if rs.len() == 0 {
        reveal_with_fuel(expand_ranges, 3);
        assert(rs.push(r).drop_first() =~= Seq::<GRange>::empty());
        assert(expand_ranges(rs.push(r)) =~= expand_ranges(rs) + interval(r.from, r.to, r.owners));
    } else {
        lemma_expand_push(rs.drop_first(), r);
        assert(rs.push(r).drop_first() =~= rs.drop_first().push(r));
        assert(rs.push(r)[0] == rs[0]);
        assert(expand_ranges(rs.push(r)) == interval(rs[0].from, rs[0].to, rs[0].owners)
            + expand_ranges(rs.drop_first().push(r)));
        assert(expand_ranges(rs.push(r)) =~= expand_ranges(rs) + interval(r.from, r.to, r.owners));
    }
}

} // verus!
