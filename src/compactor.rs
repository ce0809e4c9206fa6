//! Which logs are compacted, and in which order.

use vstd::prelude::*;

verus! {

/// What the compactor reads of a log file found in the staging directory.
#[derive(Clone, Copy, Debug, PartialEq, Eq, Structural)]
pub struct PendingLog {
    /// Length of the file in bytes.
    pub file_len: u64,
    /// First frame of the log, from its header.
    pub start_frame_no: u64,
}

/// A log file that holds its header and nothing else: left behind by an
/// interrupted rotation.
pub open spec fn is_empty_log(l: PendingLog, log_header_size: u64) -> bool {
    l.file_len == log_header_size
}

/// What to do with the logs found in the staging directory at startup.
pub struct PendingPlan {
    /// Positions of the empty logs, in the order found: they are deleted.
    pub empty: Vec<usize>,
    /// Positions of the other logs, by ascending first frame: they are
    /// compacted in this order, before any log submitted later.
    pub ordered: Vec<usize>,
}

pub open spec fn sorted_by_start(logs: Seq<PendingLog>, order: Seq<usize>) -> bool {
    forall|a: int, b: int|
        0 <= a < b < order.len() ==> logs[order[a] as int].start_frame_no <= logs[order[b] as int].start_frame_no
}

pub open spec fn sorted_by_key(keys: Seq<u64>, order: Seq<usize>) -> bool {
    forall|a: int, b: int|
        0 <= a < b < order.len() ==> keys[order[a] as int] <= keys[order[b] as int]
}

pub open spec fn distinct(order: Seq<usize>) -> bool {
    forall|a: int, b: int| 0 <= a < b < order.len() ==> order[a] != order[b]
}

/// Inserts position `i` into `ordered`, after every position whose key is not
/// greater, keeping `ordered` sorted by key.
fn insert_by_key(ordered: &mut Vec<usize>, keys: &Vec<u64>, i: usize)
    requires
        i < keys@.len(),
        forall|k: int| 0 <= k < old(ordered)@.len() ==> #[trigger] old(ordered)@[k] < keys@.len(),
        !old(ordered)@.contains(i),
        distinct(old(ordered)@),
        sorted_by_key(keys@, old(ordered)@),
    ensures
        forall|k: int| 0 <= k < final(ordered)@.len() ==> #[trigger] final(ordered)@[k] < keys@.len(),
        forall|j: usize| #[trigger]
            final(ordered)@.contains(j) <==> old(ordered)@.contains(j) || j == i,
        distinct(final(ordered)@),
        sorted_by_key(keys@, final(ordered)@),
{
    let mut p: usize = 0;
    while p < ordered.len() && keys[ordered[p]] <= keys[i]
        invariant
            0 <= p <= ordered@.len(),
            ordered@ == old(ordered)@,
            forall|k: int| 0 <= k < ordered@.len() ==> #[trigger] ordered@[k] < keys@.len(),
            i < keys@.len(),
            forall|a: int| 0 <= a < p ==> keys@[#[trigger] ordered@[a] as int] <= keys@[i as int],
        decreases ordered@.len() - p,
    {
        p = p + 1;
    }
    let ghost o0 = ordered@;
    ordered.insert(p, i);
    assert(ordered@ =~= o0.subrange(0, p as int).push(i) + o0.subrange(p as int, o0.len() as int));
    assert forall|k: int| 0 <= k < ordered@.len() implies #[trigger] ordered@[k] < keys@.len() by {
        if k < p {
            assert(ordered@[k] == o0[k]);
        } else if k > p {
            assert(ordered@[k] == o0[k - 1]);
        }
    }
    assert forall|j: usize| #[trigger] ordered@.contains(j) <==> o0.contains(j) || j == i by {
        if ordered@.contains(j) {
            let k = choose|k: int| 0 <= k < ordered@.len() && ordered@[k] == j;
            if k < p {
                assert(o0[k] == j);
            } else if k > p {
                assert(o0[k - 1] == j);
            }
        }
        if o0.contains(j) {
            let k = choose|k: int| 0 <= k < o0.len() && o0[k] == j;
            if k < p {
                assert(ordered@[k] == j);
            } else {
                assert(ordered@[k + 1] == j);
            }
        }
        if j == i {
            assert(ordered@[p as int] == i);
        }
    }
    assert forall|a: int, b: int| 0 <= a < b < ordered@.len() implies ordered@[a]
        != ordered@[b] by {
        if a < p {
            assert(ordered@[a] == o0[a]);
        } else if a > p {
            assert(ordered@[a] == o0[a - 1]);
        } else {
            assert(!o0.contains(i));
        }
        if b < p {
            assert(ordered@[b] == o0[b]);
        } else if b > p {
            assert(ordered@[b] == o0[b - 1]);
            if a == p {
                assert(o0.contains(ordered@[b]));
            }
        }
    }
    assert forall|a: int, b: int| 0 <= a < b < ordered@.len() implies keys@[ordered@[a] as int]
        <= keys@[ordered@[b] as int] by {
        if p < o0.len() {
            assert(keys@[o0[p as int] as int] > keys@[i as int]);
        }
        if a < p {
            assert(ordered@[a] == o0[a]);
        } else if a > p {
            assert(ordered@[a] == o0[a - 1]);
        }
        if b < p {
            assert(ordered@[b] == o0[b]);
        } else if b > p {
            assert(ordered@[b] == o0[b - 1]);
            if a == p {
                assert(keys@[o0[p as int] as int] <= keys@[o0[b - 1] as int]);
            }
        }
    }
}

/// The positions `0..keys.len()`, each once, ordered by ascending key.
pub fn order_by_start(keys: &Vec<u64>) -> (r: Vec<usize>)
    ensures
        r@.len() == keys@.len(),
        forall|k: int| 0 <= k < r@.len() ==> #[trigger] r@[k] < keys@.len(),
        distinct(r@),
        sorted_by_key(keys@, r@),
{
    let mut ordered: Vec<usize> = Vec::new();
    let mut i: usize = 0;
    while i < keys.len()
        invariant
            0 <= i <= keys@.len(),
            ordered@.len() == i,
            forall|k: int| 0 <= k < ordered@.len() ==> #[trigger] ordered@[k] < i,
            distinct(ordered@),
            sorted_by_key(keys@, ordered@),
        decreases keys@.len() - i,
    {
        let ghost o0 = ordered@;
        proof {
            if o0.contains(i) {
                let k = choose|k: int| 0 <= k < o0.len() && o0[k] == i;
                assert(o0[k] < i);
            }
        }
        insert_by_key(&mut ordered, keys, i);
        proof {
            lemma_distinct_len(o0, ordered@, i);
        }
        assert forall|k: int| 0 <= k < ordered@.len() implies #[trigger] ordered@[k] < i + 1 by {
            assert(ordered@.contains(ordered@[k]));
            if ordered@[k] != i {
                let m = choose|m: int| 0 <= m < o0.len() && o0[m] == ordered@[k];
                assert(o0[m] < i);
            }
        }
        i = i + 1;
    }
    ordered
}

proof fn lemma_distinct_len(o0: Seq<usize>, o1: Seq<usize>, i: usize)
    requires
        distinct(o0),
        distinct(o1),
        !o0.contains(i),
        forall|j: usize| #[trigger] o1.contains(j) <==> o0.contains(j) || j == i,
    ensures
        o1.len() == o0.len() + 1,
{
    o0.unique_seq_to_set();
    o1.unique_seq_to_set();
    assert(o1.to_set() =~= o0.to_set().insert(i));
    vstd::set::axiom_set_insert_len(o0.to_set(), i);
}

/// Sorts out the logs found in the staging directory: empty ones apart, the
/// others ordered by their first frame.
pub fn plan_pending(logs: &Vec<PendingLog>, log_header_size: u64) -> (r: PendingPlan)
    ensures
        forall|k: int|
            0 <= k < r.empty@.len() ==> r.empty@[k] < logs@.len() && is_empty_log(
                logs@[#[trigger] r.empty@[k] as int],
                log_header_size,
            ),
        forall|a: int, b: int| 0 <= a < b < r.empty@.len() ==> r.empty@[a] < r.empty@[b],
        forall|j: int|
            0 <= j < logs@.len() && is_empty_log(#[trigger] logs@[j], log_header_size)
                ==> r.empty@.contains(j as usize),
        forall|k: int|
            0 <= k < r.ordered@.len() ==> r.ordered@[k] < logs@.len() && !is_empty_log(
                logs@[#[trigger] r.ordered@[k] as int],
                log_header_size,
            ),
        distinct(r.ordered@),
        forall|j: int|
            0 <= j < logs@.len() && !is_empty_log(#[trigger] logs@[j], log_header_size)
                ==> r.ordered@.contains(j as usize),
        sorted_by_start(logs@, r.ordered@),
{
    let mut keys: Vec<u64> = Vec::new();
    let mut i: usize = 0;
    while i < logs.len()
        invariant
            0 <= i <= logs@.len(),
            keys@.len() == i,
            forall|k: int| 0 <= k < i ==> #[trigger] keys@[k] == logs@[k].start_frame_no,
        decreases logs@.len() - i,
    {
        keys.push(logs[i].start_frame_no);
        i = i + 1;
    }
    let mut empty: Vec<usize> = Vec::new();
    let mut ordered: Vec<usize> = Vec::new();
    let mut i: usize = 0;
    while i < logs.len()
        invariant
            0 <= i <= logs@.len(),
            keys@.len() == logs@.len(),
            forall|k: int| 0 <= k < logs@.len() ==> #[trigger] keys@[k] == logs@[k].start_frame_no,
            forall|k: int|
                0 <= k < empty@.len() ==> empty@[k] < i && is_empty_log(
                    logs@[#[trigger] empty@[k] as int],
                    log_header_size,
                ),
            forall|a: int, b: int| 0 <= a < b < empty@.len() ==> empty@[a] < empty@[b],
            forall|j: int|
                0 <= j < i && is_empty_log(#[trigger] logs@[j], log_header_size) ==> empty@.contains(
                    j as usize,
                ),
            forall|k: int|
                0 <= k < ordered@.len() ==> ordered@[k] < i && !is_empty_log(
                    logs@[#[trigger] ordered@[k] as int],
                    log_header_size,
                ),
            distinct(ordered@),
            forall|j: int|
                0 <= j < i && !is_empty_log(#[trigger] logs@[j], log_header_size)
                    ==> ordered@.contains(j as usize),
            sorted_by_key(keys@, ordered@),
        decreases logs@.len() - i,
    {
        let log = logs[i];
        if log.file_len == log_header_size {
            let ghost e0 = empty@;
            empty.push(i);
            assert forall|j: int|
                0 <= j < i + 1 && is_empty_log(#[trigger] logs@[j], log_header_size)
                    implies empty@.contains(j as usize) by {
                if j < i {
                    let k = choose|k: int| 0 <= k < e0.len() && e0[k] == j as usize;
                    assert(empty@[k] == j as usize);
                } else {
                    assert(empty@[e0.len() as int] == i);
                }
            }
        } else {
            let ghost o0 = ordered@;
            proof {
                if o0.contains(i) {
                    let k = choose|k: int| 0 <= k < o0.len() && o0[k] == i;
                    assert(o0[k] < i);
                }
            }
            insert_by_key(&mut ordered, &keys, i);
            assert forall|k: int| 0 <= k < ordered@.len() implies ordered@[k] < i + 1 && !is_empty_log(
                logs@[#[trigger] ordered@[k] as int],
                log_header_size,
            ) by {
                assert(ordered@.contains(ordered@[k]));
                if ordered@[k] != i {
                    let m = choose|m: int| 0 <= m < o0.len() && o0[m] == ordered@[k];
                    assert(o0[m] < i);
                }
            }
            assert forall|j: int|
                0 <= j < i + 1 && !is_empty_log(#[trigger] logs@[j], log_header_size)
                    implies ordered@.contains(j as usize) by {
                assert(ordered@.contains(j as usize) <==> o0.contains(j as usize) || j as usize == i);
            }
        }
        i = i + 1;
    }
    PendingPlan { empty, ordered }
}

/// One step of the compactor's worker.
#[derive(Clone, Copy, Debug, PartialEq, Eq, Structural)]
pub enum Step {
    /// Compact the pending log at this position of the staging listing.
    Pending(usize),
    /// Wait for the next submitted log.
    Channel,
}

/// The order in which the compactor's worker takes its logs: the pending logs
/// first, in the planned order, then the submitted ones as they arrive.
pub struct CompactorSchedule {
    order: Vec<usize>,
    next: usize,
    trace: Ghost<Seq<Step>>,
}

/// The `i`-th step of a worker that starts from the pending logs `order`.
pub open spec fn step_at(order: Seq<usize>, i: int) -> Step {
    if i < order.len() {
        Step::Pending(order[i])
    } else {
        Step::Channel
    }
}

impl CompactorSchedule {
    /// The pending logs, in the order they are taken.
    pub closed spec fn order(&self) -> Seq<usize> {
        self.order@
    }

    /// The steps taken so far.
    pub closed spec fn trace(&self) -> Seq<Step> {
        self.trace@
    }

    pub closed spec fn wf(&self) -> bool {
        &&& self.next as int == if self.trace@.len() < self.order@.len() {
            self.trace@.len() as int
        } else {
            self.order@.len() as int
        }
        &&& forall|i: int|
            0 <= i < self.trace@.len() ==> #[trigger] self.trace@[i] == step_at(self.order@, i)
    }

    /// A worker that has taken no step yet.
    pub fn new(order: Vec<usize>) -> (r: Self)
        ensures
            r.wf(),
            r.order() == order@,
            r.trace() == Seq::<Step>::empty(),
    {
        CompactorSchedule { order, next: 0, trace: Ghost(Seq::empty()) }
    }

    /// The next step: the next pending log while any is left, then the channel.
    pub fn next_step(&mut self) -> (r: Step)
        requires
            old(self).wf(),
        ensures
            final(self).wf(),
            final(self).order() == old(self).order(),
            final(self).trace() == old(self).trace().push(r),
            r == step_at(old(self).order(), old(self).trace().len() as int),
    {
        let r = if self.next < self.order.len() {
            let k = self.order[self.next];
            self.next = self.next + 1;
            Step::Pending(k)
        } else {
            Step::Channel
        };
        self.trace = Ghost(self.trace@.push(r));
        r
    }
}

/// Pending logs come first: every step a worker has taken is, in turn, the
/// next pending log in the planned order, and only once they are all taken
/// does the worker serve submitted logs.
pub proof fn lemma_pending_first(s: &CompactorSchedule)
    requires
        s.wf(),
    ensures
        forall|i: int| 0 <= i < s.trace().len() ==> #[trigger] s.trace()[i] == step_at(s.order(), i),
        forall|i: int, j: int|
            0 <= i < j < s.trace().len() && s.trace()[j] is Pending ==> s.trace()[i] is Pending,
{
}

} // verus!
