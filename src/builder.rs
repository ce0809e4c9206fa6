//! Folding a stream of frames, newest first, into a snapshot that holds the
//! latest version of each page.

use std::collections::HashSet;
use vstd::prelude::*;

use crate::merger::merged_header;
use crate::naming::{format_snapshot_name, snapshot_name_of};

verus! {

broadcast use vstd::std_specs::hash::group_hash_axioms;

/// The header fields of a frame that the snapshot logic reads.
#[derive(Clone, Copy, Debug, PartialEq, Eq, Structural)]
pub struct FrameHeader {
    pub frame_no: u64,
    pub checksum: u64,
    pub page_no: u32,
    /// Database size in pages after this frame; 0 for a frame that commits nothing.
    pub size_after: u32,
}

/// The header of a snapshot file.
#[derive(Clone, Copy, Debug, PartialEq, Eq, Structural)]
pub struct SnapshotHeader {
    pub log_id: u128,
    pub start_frame_no: u64,
    pub end_frame_no: u64,
    pub frame_count: u64,
    pub size_after: u32,
}

/// The frame as a snapshot stores it: marked as committing nothing.
pub open spec fn cleared(f: FrameHeader) -> FrameHeader {
    FrameHeader { size_after: 0, ..f }
}

/// The page numbers that occur in `s`.
pub open spec fn pages_of(s: Seq<FrameHeader>) -> Set<u32>
    decreases s.len(),
{
    if s.len() == 0 {
        Set::empty()
    } else {
        pages_of(s.drop_last()).insert(s.last().page_no)
    }
}

/// The frames that a snapshot built from `s` (newest first) holds, in order: the
/// first occurrence of each page, cleared.
pub open spec fn kept(s: Seq<FrameHeader>) -> Seq<FrameHeader>
    decreases s.len(),
{
    if s.len() == 0 {
        Seq::empty()
    } else if pages_of(s.drop_last()).contains(s.last().page_no) {
        kept(s.drop_last())
    } else {
        kept(s.drop_last()).push(cleared(s.last()))
    }
}

pub open spec fn strictly_decreasing(s: Seq<FrameHeader>) -> bool {
    forall|i: int, j: int| 0 <= i < j < s.len() ==> s[i].frame_no > s[j].frame_no
}

/// The header of the snapshot of `log_id` built from the frames `s`, newest first.
pub open spec fn header_of(log_id: u128, s: Seq<FrameHeader>) -> SnapshotHeader {
    SnapshotHeader {
        log_id,
        start_frame_no: if s.len() == 0 { u64::MAX } else { s.last().frame_no },
        end_frame_no: if s.len() == 0 { 0 } else { s[0].frame_no },
        frame_count: kept(s).len() as u64,
        size_after: if s.len() == 0 { 0 } else { s[0].size_after },
    }
}

/// Builds one snapshot from frames handed over newest first.
pub struct SnapshotBuilder {
    seen_pages: HashSet<u32>,
    header: SnapshotHeader,
    last_seen_frame_no: u64,
    frames: Ghost<Seq<FrameHeader>>,
}

proof fn lemma_kept_len(s: Seq<FrameHeader>)
    ensures
        kept(s).len() <= s.len(),
    decreases s.len(),
{
    if s.len() > 0 {
        lemma_kept_len(s.drop_last());
    }
}

impl SnapshotBuilder {
    /// The frames handed over so far, in the order they came.
    pub closed spec fn frames(&self) -> Seq<FrameHeader> {
        self.frames@
    }

    pub closed spec fn log_id(&self) -> u128 {
        self.header.log_id
    }

    /// The frame number below which the next frame must lie.
    pub closed spec fn next_bound(&self) -> u64 {
        self.last_seen_frame_no
    }

    pub closed spec fn wf(&self) -> bool {
        let s = self.frames@;
        &&& self.seen_pages@ == pages_of(s)
        &&& self.header == header_of(self.header.log_id, s)
        &&& strictly_decreasing(s)
        &&& s.len() <= u64::MAX - self.last_seen_frame_no
        &&& self.last_seen_frame_no == if s.len() == 0 { u64::MAX } else { s.last().frame_no }
    }

    /// A builder for a snapshot of `log_id` that holds no frame yet.
    pub fn new(log_id: u128) -> (r: Self)
        ensures
            r.wf(),
            r.log_id() == log_id,
            r.frames() == Seq::<FrameHeader>::empty(),
            r.next_bound() == u64::MAX,
    {
        SnapshotBuilder {
            seen_pages: HashSet::new(),
            header: SnapshotHeader {
                log_id,
                start_frame_no: u64::MAX,
                end_frame_no: 0,
                frame_count: 0,
                size_after: 0,
            },
            last_seen_frame_no: u64::MAX,
            frames: Ghost(Seq::empty()),
        }
    }

    /// Takes the next frame, which must be older than every frame before it.
    /// Returns the frame to write to the snapshot, or `None` where a newer
    /// version of its page is already there.
    pub fn append_frame(&mut self, frame: FrameHeader) -> (r: Option<FrameHeader>)
        requires
            old(self).wf(),
            frame.frame_no < old(self).next_bound(),
        ensures
            final(self).wf(),
            final(self).log_id() == old(self).log_id(),
            final(self).frames() == old(self).frames().push(frame),
            final(self).next_bound() == frame.frame_no,
            r == if pages_of(old(self).frames()).contains(frame.page_no) {
                None
            } else {
                Some(cleared(frame))
            },
    {
        let ghost s0 = self.frames@;
        let ghost s1 = s0.push(frame);
        assert(s1.drop_last() =~= s0);
        proof {
            lemma_kept_len(s0);
        }
        self.last_seen_frame_no = frame.frame_no;
        if frame.frame_no < self.header.start_frame_no {
            self.header.start_frame_no = frame.frame_no;
        }
        if frame.frame_no >= self.header.end_frame_no {
            self.header.end_frame_no = frame.frame_no;
            self.header.size_after = frame.size_after;
        }
        let mut out = frame;
        out.size_after = 0;
        let r = if !self.seen_pages.contains(&frame.page_no) {
            self.seen_pages.insert(frame.page_no);
            self.header.frame_count = self.header.frame_count + 1;
            Some(out)
        } else {
            None
        };
        self.frames = Ghost(s1);
        assert(s1[0] == if s0.len() == 0 { frame } else { s0[0] });
        assert(self.seen_pages@ == pages_of(s1));
        assert(self.header == header_of(self.header.log_id, s1));
        r
    }

    /// Takes a run of frames, newest first, all older than the frames before
    /// them. Returns the frames to write to the snapshot, in order.
    pub fn append_frames(&mut self, frames: &Vec<FrameHeader>) -> (written: Vec<FrameHeader>)
        requires
            old(self).wf(),
            strictly_decreasing(frames@),
            frames@.len() > 0 ==> frames@[0].frame_no < old(self).next_bound(),
        ensures
            final(self).wf(),
            final(self).log_id() == old(self).log_id(),
            final(self).frames() == old(self).frames() + frames@,
            kept(final(self).frames()) == kept(old(self).frames()) + written@,
            frames@.len() > 0 ==> final(self).next_bound() == frames@.last().frame_no,
            frames@.len() == 0 ==> final(self).next_bound() == old(self).next_bound(),
    {
        let mut written: Vec<FrameHeader> = Vec::new();
        let mut i: usize = 0;
        while i < frames.len()
            invariant
                self.wf(),
                self.log_id() == old(self).log_id(),
                0 <= i <= frames@.len(),
                strictly_decreasing(frames@),
                i < frames@.len() ==> frames@[i as int].frame_no < self.next_bound(),
                i > 0 ==> self.next_bound() == frames@[i - 1].frame_no,
                i == 0 ==> self.next_bound() == old(self).next_bound(),
                self.frames() == old(self).frames() + frames@.subrange(0, i as int),
                kept(self.frames()) == kept(old(self).frames()) + written@,
            decreases frames@.len() - i,
        {
            let f = frames[i];
            let ghost before = self.frames();
            let r = self.append_frame(f);
            assert(self.frames().drop_last() =~= before);
            match r {
                Some(g) => {
                    written.push(g);
                },
                None => {},
            }
            i = i + 1;
            assert(self.frames() =~= old(self).frames() + frames@.subrange(0, i as int));
        }
        assert(frames@.subrange(0, i as int) =~= frames@);
        written
    }

    /// What a well-formed builder keeps of its frames: they came in strictly
    /// decreasing order, the next frame must lie below the last of them (below
    /// `u64::MAX` while there is none), and there are no more of them than a
    /// 64-bit count can hold.
    pub proof fn lemma_wf(&self)
        requires
            self.wf(),
        ensures
            strictly_decreasing(self.frames()),
            self.frames().len() > 0 ==> self.next_bound() == self.frames().last().frame_no,
            self.frames().len() == 0 ==> self.next_bound() == u64::MAX,
            self.frames().len() <= u64::MAX,
    {
    }

    /// The header of the snapshot as it stands.
    pub fn header(&self) -> (r: SnapshotHeader)
        requires
            self.wf(),
        ensures
            r == header_of(self.log_id(), self.frames()),
    {
        self.header
    }

    /// Ends the build: the header to write at the front of the file, and the
    /// name under which the file becomes visible.
    pub fn finish(self) -> (r: (String, SnapshotHeader))
        requires
            self.wf(),
        ensures
            r.1 == header_of(self.log_id(), self.frames()),
            r.0@ == snapshot_name_of(r.1.log_id, r.1.start_frame_no, r.1.end_frame_no),
    {
        let h = self.header;
        (format_snapshot_name(h.log_id, h.start_frame_no, h.end_frame_no), h)
    }

    /// Ends the build of a merged snapshot, whose range is that of its inputs'
    /// names and whose database size is that of its newest input.
    pub fn finish_merged(self, start: u64, end: u64, size_after: u32) -> (r: (
        String,
        SnapshotHeader,
    ))
        requires
            self.wf(),
        ensures
            r.1 == merged_header(header_of(self.log_id(), self.frames()), start, end, size_after),
            r.0@ == snapshot_name_of(self.log_id(), start, end),
    {
        let mut h = self.header;
        h.start_frame_no = start;
        h.end_frame_no = end;
        h.size_after = size_after;
        (format_snapshot_name(h.log_id, start, end), h)
    }
}


proof fn lemma_pages_of_finite(s: Seq<FrameHeader>)
    ensures
        pages_of(s).finite(),
    decreases s.len(),
{
    if s.len() > 0 {
        lemma_pages_of_finite(s.drop_last());
    }
}

proof fn lemma_pages_of_holds(s: Seq<FrameHeader>, p: u32)
    ensures
        pages_of(s).contains(p) <==> exists|k: int| 0 <= k < s.len() && #[trigger] s[k].page_no == p,
    decreases s.len(),
{
    if s.len() > 0 {
        let q = s.drop_last();
        lemma_pages_of_holds(q, p);
        if pages_of(s).contains(p) && p != s.last().page_no {
            let k = choose|k: int| 0 <= k < q.len() && #[trigger] q[k].page_no == p;
            assert(s[k].page_no == p);
        }
        if exists|k: int| 0 <= k < s.len() && #[trigger] s[k].page_no == p {
            let k = choose|k: int| 0 <= k < s.len() && #[trigger] s[k].page_no == p;
            if k < q.len() {
                assert(q[k].page_no == p);
            }
        }
    }
}

/// Every frame of a snapshot is one of the frames it was built from, with its
/// commit mark cleared; each lies in the range of frame numbers of the input.
pub proof fn lemma_kept_from_input(s: Seq<FrameHeader>, lo: u64, hi: u64)
    requires
        forall|k: int| 0 <= k < s.len() ==> lo <= #[trigger] s[k].frame_no <= hi,
    ensures
        forall|i: int|
            0 <= i < kept(s).len() ==> {
                &&& lo <= (#[trigger] kept(s)[i]).frame_no <= hi
                &&& kept(s)[i].size_after == 0
                &&& pages_of(s).contains(kept(s)[i].page_no)
            },
    decreases s.len(),
{
    if s.len() > 0 {
        let q = s.drop_last();
        lemma_kept_from_input(q, lo, hi);
        assert forall|i: int| 0 <= i < kept(s).len() implies pages_of(s).contains(
            (#[trigger] kept(s)[i]).page_no,
        ) by {
            assert(pages_of(s) == pages_of(q).insert(s.last().page_no));
            if i < kept(q).len() {
                assert(kept(s)[i] == kept(q)[i]);
            } else {
                assert(kept(s)[i] == cleared(s.last()));
            }
        }
        assert forall|i: int| 0 <= i < kept(s).len() implies lo <= (#[trigger] kept(s)[i]).frame_no
            <= hi && kept(s)[i].size_after == 0 by {
            if i < kept(q).len() {
                assert(kept(s)[i] == kept(q)[i]);
            }
        }
    }
}

/// No page occurs twice in a snapshot, and the pages it holds are exactly the
/// pages of its input.
pub proof fn lemma_kept_pages(s: Seq<FrameHeader>)
    ensures
        forall|i: int, j: int|
            0 <= i < j < kept(s).len() ==> #[trigger] kept(s)[i].page_no != #[trigger] kept(
                s,
            )[j].page_no,
        pages_of(kept(s)) == pages_of(s),
    decreases s.len(),
{
    if s.len() > 0 {
        let q = s.drop_last();
        let f = s.last();
        lemma_kept_pages(q);
        if !pages_of(q).contains(f.page_no) {
            let t = kept(s);
            assert(t.drop_last() =~= kept(q));
            assert forall|i: int, j: int|
                0 <= i < j < t.len() implies #[trigger] t[i].page_no != #[trigger] t[j].page_no by {
                if j == t.len() - 1 {
                    lemma_pages_of_holds(kept(q), t[i].page_no);
                    assert(kept(q)[i].page_no == t[i].page_no);
                } else {
                    assert(t[i] == kept(q)[i] && t[j] == kept(q)[j]);
                }
            }
        }
        assert(pages_of(kept(s)) =~= pages_of(s));
    }
}

/// A snapshot holds one frame per distinct page of its input.
pub proof fn lemma_kept_count(s: Seq<FrameHeader>)
    ensures
        kept(s).len() == pages_of(s).len(),
    decreases s.len(),
{
    if s.len() > 0 {
        lemma_kept_count(s.drop_last());
        lemma_pages_of_finite(s.drop_last());
    }
}

/// Of each page, a snapshot keeps the newest version: the first one handed over.
pub proof fn lemma_kept_newest(s: Seq<FrameHeader>, k: int)
    requires
        0 <= k < s.len(),
        forall|m: int| 0 <= m < k ==> s[m].page_no != s[k].page_no,
    ensures
        kept(s).contains(cleared(s[k])),
    decreases s.len(),
{
    let q = s.drop_last();
    if k < q.len() {
        assert(q[k] == s[k]);
        lemma_kept_newest(q, k);
        let i = choose|i: int| 0 <= i < kept(q).len() && kept(q)[i] == cleared(q[k]);
        if !pages_of(q).contains(s.last().page_no) {
            assert(kept(s)[i] == kept(q)[i]);
        }
    } else {
        lemma_pages_of_holds(q, s[k].page_no);
        if pages_of(q).contains(s[k].page_no) {
            let m = choose|m: int| 0 <= m < q.len() && #[trigger] q[m].page_no == s[k].page_no;
            assert(s[m].page_no == s[k].page_no);
        }
        assert(kept(s)[kept(s).len() - 1] == cleared(s[k]));
    }
}

/// Frames handed over in strictly decreasing order stay so in the snapshot.
pub proof fn lemma_kept_ordered(s: Seq<FrameHeader>)
    requires
        strictly_decreasing(s),
    ensures
        strictly_decreasing(kept(s)),
    decreases s.len(),
{
    if s.len() > 0 {
        let q = s.drop_last();
        let f = s.last();
        assert(strictly_decreasing(q));
        lemma_kept_ordered(q);
        if !pages_of(q).contains(f.page_no) && q.len() > 0 {
            lemma_kept_from_input(q, (f.frame_no + 1) as u64, q[0].frame_no);
            let t = kept(s);
            assert forall|i: int, j: int| 0 <= i < j < t.len() implies t[i].frame_no
                > t[j].frame_no by {
                assert(t[i] == kept(q)[i]);
                if j < t.len() - 1 {
                    assert(t[j] == kept(q)[j]);
                }
            }
        }
    }
}

/// The header of a snapshot built from frames `s` (newest first): it spans the
/// oldest to the newest frame, counts the distinct pages, and takes the database
/// size after the newest frame.
pub proof fn lemma_header_of(log_id: u128, s: Seq<FrameHeader>)
    requires
        0 < s.len() <= u64::MAX,
        strictly_decreasing(s),
    ensures
        forall|k: int|
            0 <= k < s.len() ==> header_of(log_id, s).start_frame_no <= #[trigger] s[k].frame_no
                <= header_of(log_id, s).end_frame_no,
        header_of(log_id, s).frame_count == pages_of(s).len(),
        header_of(log_id, s).size_after == s[0].size_after,
        header_of(log_id, s).end_frame_no == s[0].frame_no,
        header_of(log_id, s).start_frame_no == s[s.len() - 1].frame_no,
{
    lemma_kept_count(s);
    lemma_kept_len(s);
}

} // verus!
