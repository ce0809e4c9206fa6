use std::collections::HashSet;

use snapcompact::builder::{FrameHeader, SnapshotBuilder, SnapshotHeader};
use snapcompact::compactor::{plan_pending, CompactorSchedule, PendingLog, Step};
use snapcompact::merger::{inputs_to_delete, plan_merge, should_compact, MergerState};
use snapcompact::naming::parse_snapshot_name;

const LOG_HEADER: u64 = 64;

struct Log {
    file_len: u64,
    start_frame_no: u64,
    /// Frames in the order they were written.
    frames: Vec<FrameHeader>,
}

fn frame(frame_no: u64, page_no: u32, size_after: u32) -> FrameHeader {
    FrameHeader { frame_no, checksum: 0, page_no, size_after }
}

fn one_frame_log(start: u64) -> Log {
    Log { file_len: LOG_HEADER + 4096 + 24, start_frame_no: start, frames: vec![frame(start, 0, 1)] }
}

/// Snapshots held in memory in place of a directory.
struct Disk {
    snaps: Vec<(String, SnapshotHeader, Vec<FrameHeader>)>,
}

impl Disk {
    fn take(&mut self, name: &str) -> (SnapshotHeader, Vec<FrameHeader>) {
        let pos = self.snaps.iter().position(|s| s.0 == name).unwrap();
        let (_, h, f) = self.snaps.remove(pos);
        (h, f)
    }
}

fn compact_log(disk: &mut Disk, log_id: u128, log: &Log) -> (String, u64, u32) {
    let mut builder = SnapshotBuilder::new(log_id);
    let rev: Vec<FrameHeader> = log.frames.iter().rev().cloned().collect();
    let written = builder.append_frames(&rev);
    let (name, header) = builder.finish();
    disk.snaps.push((name.clone(), header, written));
    (name, header.frame_count, header.size_after)
}

fn merge(disk: &mut Disk, log_id: u128, job: Vec<(String, u64)>) -> (String, u64) {
    let plan = plan_merge(&job).unwrap();
    let mut builder = SnapshotBuilder::new(log_id);
    let mut size_after = None;
    let mut written = Vec::new();
    for name in plan.read_order.iter() {
        let (h, frames) = disk.take(name);
        if size_after.is_none() {
            size_after = Some(h.size_after);
        }
        written.extend(builder.append_frames(&frames));
    }
    let (name, header) =
        builder.finish_merged(plan.start_frame_no, plan.end_frame_no, size_after.unwrap());
    disk.snaps.push((name.clone(), header, written));
    (name, header.frame_count)
}

/// Runs the compactor's worker to the end on pending and submitted logs.
/// Returns the merger registry and the number of empty logs removed.
fn run_worker(
    disk: &mut Disk,
    log_id: u128,
    pending: &[Log],
    submitted: &[Log],
) -> (MergerState, usize, Vec<u64>) {
    let infos: Vec<PendingLog> = pending
        .iter()
        .map(|l| PendingLog { file_len: l.file_len, start_frame_no: l.start_frame_no })
        .collect();
    let plan = plan_pending(&infos, LOG_HEADER);
    let mut schedule = CompactorSchedule::new(plan.ordered);
    let mut merger = MergerState::new(Vec::new());
    let mut queue = submitted.iter();
    let mut registered = Vec::new();
    loop {
        let log = match schedule.next_step() {
            Step::Pending(i) => &pending[i],
            Step::Channel => match queue.next() {
                Some(l) => l,
                None => break,
            },
        };
        let (name, count, size_after) = compact_log(disk, log_id, log);
        registered.push(parse_snapshot_name(&name).unwrap().1);
        if let Some(job) = merger.on_register(name, count, size_after) {
            let merged = merge(disk, log_id, job);
            merger.on_job_done(merged);
        }
    }
    (merger, plan.empty.len(), registered)
}

fn span(disk: &Disk) -> (u64, u64) {
    let mut start = u64::MAX;
    let mut end = u64::MIN;
    for (name, _, _) in disk.snaps.iter() {
        let (_, s, e) = parse_snapshot_name(name).unwrap();
        start = start.min(s);
        end = end.max(e);
    }
    (start, end)
}

#[test]
fn compact_file_create_snapshot() {
    let log_id: u128 = 0x67e5_5044_10b1_426f_9247_bb68_0e5f_e0c8;
    let mut frames = Vec::new();
    let mut frame_no = 0;
    for _ in 0..2 {
        for i in 0..25u32 {
            frames.push(frame(frame_no, i, i + 1));
            frame_no += 1;
        }
    }
    let mut disk = Disk { snaps: Vec::new() };
    let log = Log { file_len: LOG_HEADER + 50 * (4096 + 24), start_frame_no: 0, frames };
    let (name, count, size_after) = compact_log(&mut disk, log_id, &log);
    let expected = format!("{}-{}-{}.snap", uuid::Uuid::from_u128(log_id), 0, 49);
    assert_eq!(name, expected);
    assert_eq!(count, 25);
    assert_eq!(size_after, 25);

    let (header, written) = disk.take(&name);
    assert_eq!(header.start_frame_no, 0);
    assert_eq!(header.end_frame_no, 49);
    assert_eq!(header.frame_count, 25);
    assert_eq!(header.log_id, log_id);
    assert_eq!(header.size_after, 25);

    let mut seen_frames = HashSet::new();
    let mut seen_page_no = HashSet::new();
    for f in written.iter() {
        assert!(!seen_frames.contains(&f.frame_no));
        assert!(!seen_page_no.contains(&f.page_no));
        seen_page_no.insert(f.page_no);
        seen_frames.insert(f.frame_no);
        assert!(f.frame_no >= 25);
        assert_eq!(f.size_after, 0);
    }
    assert_eq!(seen_frames.len(), 25);
    assert_eq!(seen_page_no.len(), 25);

    let mut expected_frame_no = 49;
    for f in written.iter() {
        assert_eq!(f.frame_no, expected_frame_no);
        expected_frame_no -= 1;
    }
    assert_eq!(expected_frame_no, 24);
}

#[test]
fn process_pending_logs_on_startup() {
    let log_id = 7;
    let mut disk = Disk { snaps: Vec::new() };
    // listed out of order, as a directory listing may give them
    let pending = vec![one_frame_log(2), one_frame_log(0), one_frame_log(1)];
    let submitted = vec![one_frame_log(3)];
    let (_, _, registered) = run_worker(&mut disk, log_id, &pending, &submitted);
    assert_eq!(registered, vec![0, 1, 2, 3]);
    assert_eq!(span(&disk), (0, 3));
}

#[test]
fn empty_pending_log_is_ignored() {
    let mut disk = Disk { snaps: Vec::new() };
    let pending = vec![Log { file_len: LOG_HEADER, start_frame_no: 0, frames: Vec::new() }];
    let (merger, removed, registered) = run_worker(&mut disk, 9, &pending, &[]);
    assert_eq!(removed, 1);
    assert!(registered.is_empty());
    assert!(disk.snaps.is_empty());
    assert!(merger.snapshots.is_empty());
}

#[test]
fn compact_many() {
    let mut disk = Disk { snaps: Vec::new() };
    let submitted: Vec<Log> = (0..10).map(one_frame_log).collect();
    let (_, _, registered) = run_worker(&mut disk, 11, &[], &submitted);
    assert_eq!(registered, (0..10).collect::<Vec<u64>>());
    assert_eq!(span(&disk), (0, 9));
}

#[test]
fn merge_threshold_fires() {
    let log_id = 5;
    let mut disk = Disk { snaps: Vec::new() };
    let mut merger = MergerState::new(Vec::new());
    for start in 0..3 {
        let (name, count, _) = compact_log(&mut disk, log_id, &one_frame_log(start));
        assert_eq!(count, 1);
        if let Some(job) = merger.on_register(name, count, 1) {
            let merged = merge(&mut disk, log_id, job);
            merger.on_job_done(merged);
        }
    }
    assert_eq!(merger.snapshots.len(), 1);
    assert_eq!(disk.snaps.len(), 1);
    let (_, s, e) = parse_snapshot_name(&merger.snapshots[0].0).unwrap();
    assert_eq!((s, e), (0, 2));
}

#[test]
fn registration_during_merge_waits() {
    let mut merger = MergerState::new(Vec::new());
    assert!(merger.on_register("a".to_string(), 1, 1).is_none());
    let job = merger.on_register("b".to_string(), 1, 1).unwrap();
    assert_eq!(job.len(), 2);
    assert!(merger.working);
    // a merge is running: no second job, the registry grows
    assert!(merger.on_register("c".to_string(), 5, 1).is_none());
    assert_eq!(merger.snapshots, vec![("c".to_string(), 5)]);
    merger.on_job_done(("m".to_string(), 1));
    assert!(!merger.working);
    assert_eq!(merger.snapshots, vec![("m".to_string(), 1), ("c".to_string(), 5)]);
}

#[test]
fn merge_coverage_and_size_after() {
    let log_id = 3;
    let mut disk = Disk { snaps: Vec::new() };
    let a = Log {
        file_len: 1000,
        start_frame_no: 0,
        frames: vec![frame(0, 1, 1), frame(1, 2, 2), frame(2, 1, 2)],
    };
    let b = Log {
        file_len: 1000,
        start_frame_no: 3,
        frames: vec![frame(3, 2, 4), frame(4, 3, 5)],
    };
    let (na, ca, _) = compact_log(&mut disk, log_id, &a);
    let (nb, cb, _) = compact_log(&mut disk, log_id, &b);
    assert_eq!((ca, cb), (2, 2));
    let (name, count) = merge(&mut disk, log_id, vec![(na, ca), (nb, cb)]);
    assert_eq!(parse_snapshot_name(&name).unwrap(), (log_id, 0, 4));
    assert_eq!(count, 3);
    let (h, frames) = disk.take(&name);
    assert_eq!(h.size_after, 5);
    let nos: Vec<u64> = frames.iter().map(|f| f.frame_no).collect();
    assert_eq!(nos, vec![4, 3, 2]);
    let pages: Vec<u32> = frames.iter().map(|f| f.page_no).collect();
    assert_eq!(pages, vec![3, 2, 1]);
}

#[test]
fn merged_name_is_not_deleted() {
    let id: u128 = 1;
    let a = snapcompact::naming::format_snapshot_name(id, 0, 4);
    let b = snapcompact::naming::format_snapshot_name(id, 5, 9);
    let merged = snapcompact::naming::format_snapshot_name(id, 0, 9);
    let job = vec![(a.clone(), 1), (b.clone(), 1)];
    assert_eq!(inputs_to_delete(&job, &merged), vec![0, 1]);
    // a merge of one snapshot produces a file of the same name
    let single = vec![(b.clone(), 1)];
    assert!(inputs_to_delete(&single, &b).is_empty());
}

#[test]
fn plan_merge_rejects_bad_names() {
    assert!(plan_merge(&Vec::new()).is_none());
    assert!(plan_merge(&vec![("junk".to_string(), 1)]).is_none());
}

#[test]
fn should_compact_threshold() {
    let one = |n: u64| ("s".to_string(), n);
    assert!(!should_compact(&vec![], 1));
    assert!(should_compact(&vec![], 0));
    assert!(!should_compact(&vec![one(1)], 1));
    assert!(should_compact(&vec![one(1), one(1)], 1));
    assert!(!should_compact(&vec![one(9)], 5));
    assert!(should_compact(&vec![one(10)], 5));
    assert!(should_compact(&vec![one(u64::MAX), one(u64::MAX)], u32::MAX));
    let many: Vec<(String, u64)> = (0..33).map(|_| one(0)).collect();
    assert!(should_compact(&many, 1000));
    let few: Vec<(String, u64)> = (0..32).map(|_| one(0)).collect();
    assert!(!should_compact(&few, 1000));
}

#[test]
fn pending_plan_orders_and_skips_empty() {
    let logs = vec![
        PendingLog { file_len: 500, start_frame_no: 20 },
        PendingLog { file_len: LOG_HEADER, start_frame_no: 0 },
        PendingLog { file_len: 500, start_frame_no: 5 },
        PendingLog { file_len: LOG_HEADER, start_frame_no: 3 },
        PendingLog { file_len: 500, start_frame_no: 10 },
    ];
    let plan = plan_pending(&logs, LOG_HEADER);
    assert_eq!(plan.empty, vec![1, 3]);
    assert_eq!(plan.ordered, vec![2, 4, 0]);
}

#[test]
fn schedule_serves_pending_first() {
    let mut s = CompactorSchedule::new(vec![2, 0]);
    assert_eq!(s.next_step(), Step::Pending(2));
    assert_eq!(s.next_step(), Step::Pending(0));
    assert_eq!(s.next_step(), Step::Channel);
    assert_eq!(s.next_step(), Step::Channel);
}
