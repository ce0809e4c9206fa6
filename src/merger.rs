//! When snapshots are merged, and what a merge produces.

use vstd::prelude::*;

use crate::builder::{
    header_of, kept, lemma_header_of, lemma_kept_ordered, lemma_kept_pages, pages_of,
    strictly_decreasing, FrameHeader, SnapshotHeader,
};
use crate::naming::{parse_name, parse_snapshot_name};

verus! {

/// Ratio of the frames held in snapshots to the pages of the database above
/// which the snapshots are merged.
pub const SNAPSHOT_SPACE_AMPLIFICATION_FACTOR: u64 = 2;

/// Number of snapshots above which they are merged.
pub const MAX_SNAPSHOT_NUMBER: usize = 32;

/// Sum of the frame counts of a registry.
pub open spec fn total_frames(s: Seq<(String, u64)>) -> nat
    decreases s.len(),
{
    if s.len() == 0 {
        0
    } else {
        total_frames(s.drop_last()) + s.last().1 as nat
    }
}

pub open spec fn should_compact_spec(s: Seq<(String, u64)>, db_page_count: u32) -> bool {
    total_frames(s) >= SNAPSHOT_SPACE_AMPLIFICATION_FACTOR * db_page_count
        || s.len() > MAX_SNAPSHOT_NUMBER
}

/// Whether the snapshots of a registry are due for a merge: they hold at
/// least twice as many frames as the database has pages, or there are more
/// than 32 of them.
pub fn should_compact(snapshots: &Vec<(String, u64)>, db_page_count: u32) -> (r: bool)
    ensures
        r == should_compact_spec(snapshots@, db_page_count),
{
    if snapshots.len() > MAX_SNAPSHOT_NUMBER {
        return true;
    }
    let threshold: u128 = SNAPSHOT_SPACE_AMPLIFICATION_FACTOR as u128 * db_page_count as u128;
    if threshold == 0 {
        return true;
    }
    let mut acc: u128 = 0;
    let mut i: usize = 0;
    while i < snapshots.len()
        invariant
            0 <= i <= snapshots@.len(),
            acc == total_frames(snapshots@.subrange(0, i as int)),
            acc < threshold,
            threshold == SNAPSHOT_SPACE_AMPLIFICATION_FACTOR * db_page_count,
        decreases snapshots@.len() - i,
    {
        assert(snapshots@.subrange(0, i + 1).drop_last() =~= snapshots@.subrange(0, i as int));
        acc = acc + snapshots[i].1 as u128;
        i = i + 1;
        if acc >= threshold {
            proof {
                lemma_total_frames_grows(snapshots@, i as int);
            }
            return true;
        }
    }
    assert(snapshots@.subrange(0, i as int) =~= snapshots@);
    false
}

proof fn lemma_total_frames_grows(s: Seq<(String, u64)>, i: int)
    requires
        0 <= i <= s.len(),
    ensures
        total_frames(s.subrange(0, i)) <= total_frames(s),
    decreases s.len() - i,
{
    if i < s.len() {
        lemma_total_frames_grows(s, i + 1);
        assert(s.subrange(0, i + 1).drop_last() =~= s.subrange(0, i));
    } else {
        assert(s.subrange(0, i) =~= s);
    }
}

/// The merger's registry: the snapshots not being merged, oldest first, with
/// their frame counts, and whether a merge is running.
pub struct MergerState {
    pub snapshots: Vec<(String, u64)>,
    pub working: bool,
}

impl MergerState {
    /// A merger that starts from the snapshots found on disk, oldest first.
    pub fn new(snapshots: Vec<(String, u64)>) -> (r: Self)
        ensures
            r.snapshots@ == snapshots@,
            !r.working,
    {
        MergerState { snapshots, working: false }
    }

    /// A new snapshot was registered. Where no merge is running and the
    /// registry is due for one, the whole registry is handed out as the job to
    /// run and the registry is left empty.
    pub fn on_register(&mut self, name: String, frame_count: u64, db_page_count: u32) -> (job:
        Option<Vec<(String, u64)>>)
        ensures
            ({
                let pushed = old(self).snapshots@.push((name, frame_count));
                if !old(self).working && should_compact_spec(pushed, db_page_count) {
                    &&& job matches Some(j) && j@ == pushed
                    &&& final(self).snapshots@.len() == 0
                    &&& final(self).working
                } else {
                    &&& job is None
                    &&& final(self).snapshots@ == pushed
                    &&& final(self).working == old(self).working
                }
            }),
    {
        self.snapshots.push((name, frame_count));
        if !self.working && should_compact(&self.snapshots, db_page_count) {
            let mut job: Vec<(String, u64)> = Vec::new();
            std::mem::swap(&mut job, &mut self.snapshots);
            self.working = true;
            Some(job)
        } else {
            None
        }
    }

    /// The running merge produced `merged`: it goes in front of the registry.
    pub fn on_job_done(&mut self, merged: (String, u64))
        requires
            old(self).working,
        ensures
            final(self).snapshots@ == seq![merged] + old(self).snapshots@,
            !final(self).working,
    {
        self.snapshots.insert(0, merged);
        self.working = false;
    }
}

/// What a merge of registered snapshots reads and what range it claims.
pub struct MergePlan {
    /// Names of the snapshots to read, newest first.
    pub read_order: Vec<String>,
    /// First frame of the oldest snapshot.
    pub start_frame_no: u64,
    /// Last frame of the newest snapshot.
    pub end_frame_no: u64,
}

/// Plans the merge of `snapshots` (oldest first). `None` where the list is
/// empty or its first or last name is not a snapshot name.
pub fn plan_merge(snapshots: &Vec<(String, u64)>) -> (r: Option<MergePlan>)
    ensures
        r is Some <==> snapshots@.len() > 0 && parse_name(snapshots@[0].0@) is Some && parse_name(
            snapshots@.last().0@,
        ) is Some,
        r matches Some(p) ==> {
            &&& p.start_frame_no == parse_name(snapshots@[0].0@)->Some_0.1
            &&& p.end_frame_no == parse_name(snapshots@.last().0@)->Some_0.2
            &&& p.read_order@.len() == snapshots@.len()
            &&& forall|i: int|
                0 <= i < snapshots@.len() ==> (#[trigger] p.read_order@[i])@ == snapshots@[snapshots@.len()
                    - 1 - i].0@
        },
{
    let n = snapshots.len();
    if n == 0 {
        return None;
    }
    let first = parse_snapshot_name(snapshots[0].0.as_str());
    let last = parse_snapshot_name(snapshots[n - 1].0.as_str());
    match (first, last) {
        (Some((_, start, _)), Some((_, _, end))) => {
            let mut read_order: Vec<String> = Vec::new();
            let mut i: usize = n;
            while i > 0
                invariant
                    0 <= i <= n,
                    n == snapshots@.len(),
                    read_order@.len() == n - i,
                    forall|k: int|
                        0 <= k < n - i ==> (#[trigger] read_order@[k])@ == snapshots@[n - 1 - k].0@,
                decreases i,
            {
                i = i - 1;
                read_order.push(snapshots[i].0.clone());
            }
            Some(MergePlan { read_order, start_frame_no: start, end_frame_no: end })
        },
        _ => None,
    }
}

/// The positions of the merged inputs whose files go once the merged snapshot
/// `merged` is in place: all of them but one that bears the merged name,
/// which is the merged snapshot itself.
pub fn inputs_to_delete(snapshots: &Vec<(String, u64)>, merged: &String) -> (r: Vec<usize>)
    ensures
        forall|k: int|
            0 <= k < r@.len() ==> r@[k] < snapshots@.len() && snapshots@[#[trigger] r@[k] as int].0@
                != merged@,
        forall|a: int, b: int| 0 <= a < b < r@.len() ==> r@[a] < r@[b],
        forall|j: int|
            0 <= j < snapshots@.len() && (#[trigger] snapshots@[j]).0@ != merged@ ==> r@.contains(
                j as usize,
            ),
{
    let mut r: Vec<usize> = Vec::new();
    let mut i: usize = 0;
    while i < snapshots.len()
        invariant
            0 <= i <= snapshots@.len(),
            forall|k: int|
                0 <= k < r@.len() ==> r@[k] < i && snapshots@[#[trigger] r@[k] as int].0@ != merged@,
            forall|a: int, b: int| 0 <= a < b < r@.len() ==> r@[a] < r@[b],
            forall|j: int|
                0 <= j < i && (#[trigger] snapshots@[j]).0@ != merged@ ==> r@.contains(j as usize),
        decreases snapshots@.len() - i,
    {
        if !(snapshots[i].0 == *merged) {
            let ghost r0 = r@;
            r.push(i);
            assert forall|j: int|
                0 <= j < i + 1 && (#[trigger] snapshots@[j]).0@ != merged@ implies r@.contains(
                    j as usize,
                ) by {
                if j < i {
                    let k = choose|k: int| 0 <= k < r0.len() && r0[k] == j as usize;
                    assert(r@[k] == j as usize);
                } else {
                    assert(r@[r0.len() as int] == i);
                }
            }
        }
        i = i + 1;
    }
    r
}

/// The header of a merged snapshot: the frames counted by the build, the range
/// of the inputs' names, and the database size of the newest input.
pub open spec fn merged_header(built: SnapshotHeader, start: u64, end: u64, size_after: u32)
    -> SnapshotHeader {
    SnapshotHeader { start_frame_no: start, end_frame_no: end, size_after, ..built }
}

/// The frames of snapshots `fs` (oldest first) in the order a merge reads them:
/// newest snapshot first.
pub open spec fn newest_first(fs: Seq<Seq<FrameHeader>>) -> Seq<FrameHeader>
    decreases fs.len(),
{
    if fs.len() == 0 {
        Seq::empty()
    } else {
        fs.last() + newest_first(fs.drop_last())
    }
}

pub open spec fn within(s: Seq<FrameHeader>, lo: u64, hi: u64) -> bool {
    forall|k: int| 0 <= k < s.len() ==> lo <= #[trigger] s[k].frame_no <= hi
}

proof fn lemma_newest_first(hs: Seq<SnapshotHeader>, fs: Seq<Seq<FrameHeader>>)
    requires
        hs.len() == fs.len() > 0,
        forall|i: int| 0 <= i < fs.len() ==> strictly_decreasing(#[trigger] fs[i]),
        forall|i: int|
            0 <= i < fs.len() ==> within(#[trigger] fs[i], hs[i].start_frame_no, hs[i].end_frame_no),
        forall|i: int, j: int| 0 <= i < j < hs.len() ==> hs[i].end_frame_no < hs[j].start_frame_no,
        forall|i: int| 0 <= i < hs.len() ==> hs[i].start_frame_no <= #[trigger] hs[i].end_frame_no,
    ensures
        strictly_decreasing(newest_first(fs)),
        within(newest_first(fs), hs[0].start_frame_no, hs.last().end_frame_no),
    decreases fs.len(),
{
    let k = fs.len() - 1;
    let top = fs[k];
    let rest = newest_first(fs.drop_last());
    let all = newest_first(fs);
    assert(all == top + rest);
    if k == 0 {
        assert(rest.len() == 0);
        assert(all =~= top);
    } else {
        let hs2 = hs.drop_last();
        let fs2 = fs.drop_last();
        assert forall|i: int| 0 <= i < fs2.len() implies strictly_decreasing(#[trigger] fs2[i]) by {
            assert(fs2[i] == fs[i]);
        }
        assert forall|i: int| 0 <= i < fs2.len() implies within(
            #[trigger] fs2[i],
            hs2[i].start_frame_no,
            hs2[i].end_frame_no,
        ) by {
            assert(fs2[i] == fs[i]);
        }
        lemma_newest_first(hs2, fs2);
        assert(hs[0].end_frame_no < hs[k].start_frame_no);
        assert(hs[k - 1].end_frame_no < hs[k].start_frame_no);
        assert(within(top, hs[k].start_frame_no, hs[k].end_frame_no));
        assert forall|a: int, b: int| 0 <= a < b < all.len() implies all[a].frame_no
            > all[b].frame_no by {
            if b < top.len() {
                assert(all[a] == top[a] && all[b] == top[b]);
            } else if a < top.len() {
                assert(all[a] == top[a] && all[b] == rest[b - top.len()]);
            } else {
                assert(all[a] == rest[a - top.len()] && all[b] == rest[b - top.len()]);
            }
        }
        assert forall|m: int| 0 <= m < all.len() implies hs[0].start_frame_no
            <= #[trigger] all[m].frame_no <= hs.last().end_frame_no by {
            if m < top.len() {
                assert(all[m] == top[m]);
            } else {
                assert(all[m] == rest[m - top.len()]);
            }
        }
    }
}

/// Merging snapshots S1..Sk, ascending and disjoint, yields one snapshot that
/// spans S1's first frame to Sk's last, takes Sk's database size, holds each
/// page once, and keeps its frames in strictly decreasing order.
pub proof fn lemma_merge_coverage(
    log_id: u128,
    hs: Seq<SnapshotHeader>,
    fs: Seq<Seq<FrameHeader>>,
)
    requires
        hs.len() == fs.len() > 0,
        forall|i: int| 0 <= i < fs.len() ==> strictly_decreasing(#[trigger] fs[i]),
        forall|i: int|
            0 <= i < fs.len() ==> within(#[trigger] fs[i], hs[i].start_frame_no, hs[i].end_frame_no),
        forall|i: int, j: int| 0 <= i < j < hs.len() ==> hs[i].end_frame_no < hs[j].start_frame_no,
        forall|i: int| 0 <= i < hs.len() ==> hs[i].start_frame_no <= #[trigger] hs[i].end_frame_no,
        newest_first(fs).len() <= u64::MAX,
    ensures
        ({
            let all = newest_first(fs);
            let m = merged_header(
                header_of(log_id, all),
                hs[0].start_frame_no,
                hs.last().end_frame_no,
                hs.last().size_after,
            );
            &&& m.start_frame_no == hs[0].start_frame_no
            &&& m.end_frame_no == hs.last().end_frame_no
            &&& m.size_after == hs.last().size_after
            &&& m.frame_count == pages_of(all).len()
            &&& strictly_decreasing(kept(all))
            &&& forall|i: int, j: int|
                0 <= i < j < kept(all).len() ==> #[trigger] kept(all)[i].page_no
                    != #[trigger] kept(all)[j].page_no
        }),
{
    let all = newest_first(fs);
    lemma_newest_first(hs, fs);
    lemma_kept_ordered(all);
    lemma_kept_pages(all);
    if all.len() > 0 {
        lemma_header_of(log_id, all);
    } else {
        assert(pages_of(all) =~= Set::<u32>::empty());
    }
}

} // verus!
