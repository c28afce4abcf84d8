use mm3u::download::write_to_file;
use mm3u::download::DownTask;
use mm3u::download::Pdata;
use mm3u::download::PageJob;
use mm3u::download::Plan;
use mm3u::status::Status;

const MIB: u64 = 1024 * 1024;

fn source_bytes(len: usize) -> Vec<u8> {
    let mut src = Vec::with_capacity(len);
    for i in 0..len {
        src.push(((i * 31 + 7) % 251) as u8);
    }
    src
}

fn task_with(status: Status, page_size: u64) -> DownTask {
    DownTask::new(
        "http://example.test/big.bin".to_string(),
        "./output".to_string(),
        "big.bin".to_string(),
        page_size,
        status,
    )
}

fn chunk_for(job: &PageJob, src: &[u8]) -> Pdata {
    let start = job.start as usize;
    let end = if job.end == u64::MAX { src.len() - 1 } else { job.end as usize };
    Pdata { index: job.index, offset: job.start, data: src[start..=end].to_vec() }
}

#[test]
fn end_to_end_paged_download() {
    // A 5 MiB range-capable resource split into 1 MiB pages; four workers
    // finish out of order, which is safe because every page has its own
    // non-overlapping offset.
    let src = source_bytes((5 * MIB) as usize);
    let mut task = task_with(Status::new(Vec::new()), MIB);
    let plan = task.start(true, 5 * MIB, &Vec::new());
    let jobs = match plan {
        Plan::PagedActive { jobs } => jobs,
        _ => panic!("a long range-capable resource must be paged"),
    };
    assert_eq!(jobs.len(), 5);
    assert_eq!(jobs[0].start, 0);
    assert_eq!(jobs[1].end, 2 * MIB - 1);
    assert_eq!(jobs[4].end, u64::MAX);

    // The writer owns the store while the pool runs.
    let mut status = Status::new(task.status().bytes());
    let mut out: Vec<u8> = Vec::new();
    let arrival = [3usize, 0, 4, 2, 1];
    let chunks: Vec<Pdata> = arrival.iter().map(|i| chunk_for(&jobs[*i], &src)).collect();
    write_to_file(&mut out, &mut status, &chunks).expect("writer");

    assert_eq!(out, src);
    let slots = status.find_crc32();
    assert_eq!(slots.len(), 5);
    for i in 0..5 {
        let lo = i * MIB as usize;
        let hi = lo + MIB as usize;
        assert_ne!(slots[i], 0);
        assert_eq!(slots[i], crc32fast::hash(&src[lo..hi]));
    }
}

fn downloaded_prefix(pages: usize) -> (Vec<u8>, Status, Vec<PageJob>, Vec<u8>) {
    // Runs a fresh paged download of 5 MiB but lands only the first `pages`
    // pages, as an interrupted run would.
    let src = source_bytes((5 * MIB) as usize);
    let mut task = task_with(Status::new(Vec::new()), MIB);
    let plan = task.start(true, 5 * MIB, &Vec::new());
    let jobs = match plan {
        Plan::PagedActive { jobs } => jobs,
        _ => panic!("expected a paged plan"),
    };
    let mut status = Status::new(task.status().bytes());
    let mut out: Vec<u8> = Vec::new();
    let chunks: Vec<Pdata> = jobs[..pages].iter().map(|j| chunk_for(j, &src)).collect();
    write_to_file(&mut out, &mut status, &chunks).expect("writer");
    (src, status, jobs, out)
}

#[test]
fn resume_refetches_only_missing_pages() {
    // Interrupt after 2 of 5 pages are durably recorded; on restart the
    // verifier confirms those 2 and only the remaining 3 are fetched again.
    let (_src, status, _jobs, out) = downloaded_prefix(2);
    let recorded = status.find_crc32();

    let mut task = task_with(Status::new(status.bytes()), MIB);
    let plan = task.start(true, 5 * MIB, &out);
    let jobs = match plan {
        Plan::Resuming { jobs } => jobs,
        _ => panic!("an incomplete verified run must resume"),
    };
    assert_eq!(jobs.len(), 3);
    assert_eq!(
        jobs.iter().map(|j| j.index).collect::<Vec<usize>>(),
        vec![2, 3, 4]
    );
    // The two verified pages keep their checksums.
    let slots = task.status().find_crc32();
    assert_eq!(slots[0], recorded[0]);
    assert_eq!(slots[1], recorded[1]);
    assert_ne!(slots[0], 0);
}

#[test]
fn corruption_is_detected_and_refetched() {
    // Flip one byte inside a completed page on disk: its slot is invalidated
    // and only that page is fetched again; other slots stay untouched.
    let (_src, status, _jobs, mut out) = downloaded_prefix(5);
    let recorded = status.find_crc32();
    out[(MIB + 12345) as usize] ^= 0xff;

    let mut task = task_with(Status::new(status.bytes()), MIB);
    let plan = task.start(true, 5 * MIB, &out);
    let jobs = match plan {
        Plan::Resuming { jobs } => jobs,
        _ => panic!("a corrupted page must trigger a resume"),
    };
    assert_eq!(jobs.iter().map(|j| j.index).collect::<Vec<usize>>(), vec![1]);
    let slots = task.status().find_crc32();
    assert_eq!(slots[1], 0);
    for i in [0usize, 2, 3, 4] {
        assert_eq!(slots[i], recorded[i]);
        assert_ne!(slots[i], 0);
    }
}

#[test]
fn fully_verified_run_is_done() {
    let (_src, status, _jobs, out) = downloaded_prefix(5);
    let mut task = task_with(Status::new(status.bytes()), MIB);
    match task.start(true, 5 * MIB, &out) {
        Plan::Done => {}
        _ => panic!("a fully verified file needs no network at all"),
    }
}

#[test]
fn non_range_server_always_single_streams() {
    // Accept-Ranges absent: the single-stream path regardless of length, and
    // no status table is created.
    let mut task = task_with(Status::new(Vec::new()), 1024);
    match task.start(false, 50 * MIB, &Vec::new()) {
        Plan::SingleStreamActive => {}
        _ => panic!("no range support must force the single stream"),
    }
    assert_eq!(task.status().is_init(), false);
    assert_eq!(task.status().bytes().len(), 0);

    // Range loss also invalidates a partial resume: full restart.
    let (_src, status, _jobs, out) = downloaded_prefix(2);
    let mut task = task_with(Status::new(status.bytes()), MIB);
    match task.start(false, 5 * MIB, &out) {
        Plan::SingleStreamActive => {}
        _ => panic!("resume without range support must restart"),
    }
}

#[test]
fn short_or_unknown_length_single_streams() {
    // At or below the threshold, or length 0 (unknown), a fresh task is not
    // paged even with range support.
    let mut task = task_with(Status::new(Vec::new()), 1024);
    match task.start(true, MIB, &Vec::new()) {
        Plan::SingleStreamActive => {}
        _ => panic!("a short resource must not be paged"),
    }
    let mut task = task_with(Status::new(Vec::new()), 1024);
    match task.start(true, 0, &Vec::new()) {
        Plan::SingleStreamActive => {}
        _ => panic!("an unknown length must not be paged"),
    }
}

#[test]
fn nothing_salvageable_restarts_fresh() {
    // The recorded pages no longer match an emptied output file: everything
    // is invalidated and the task restarts as a fresh paged download.
    let (_src, status, _jobs, _out) = downloaded_prefix(2);
    let mut task = task_with(Status::new(status.bytes()), MIB);
    let plan = task.start(true, 5 * MIB, &Vec::new());
    match plan {
        Plan::PagedActive { jobs } => assert_eq!(jobs.len(), 5),
        _ => panic!("nothing salvageable must restart fresh"),
    }
    assert!(task.status().find_crc32().iter().all(|c| *c == 0));
}

#[test]
fn grown_resource_rebuilds_the_table_and_resumes() {
    // The remote length grew between runs: the stored 5-slot table no longer
    // matches the expected 6 pages. The kept prefix still verifies; the new
    // page counts as missing.
    let (_src, status, _jobs, out) = downloaded_prefix(2);
    let mut task = task_with(Status::new(status.bytes()), MIB);
    let plan = task.start(true, 6 * MIB, &out);
    let jobs = match plan {
        Plan::Resuming { jobs } => jobs,
        _ => panic!("a grown resource with verified pages must resume"),
    };
    assert_eq!(
        jobs.iter().map(|j| j.index).collect::<Vec<usize>>(),
        vec![2, 3, 4, 5]
    );
    let slots = task.status().find_crc32();
    assert_eq!(slots.len(), 6);
    assert_ne!(slots[0], 0);
    assert_ne!(slots[1], 0);
}

#[test]
fn shrunk_resource_drops_slots_past_the_total() {
    // The remote length shrank to one page: slots past the new total are
    // dropped, and the surviving page completes the download outright.
    let (_src, status, _jobs, out) = downloaded_prefix(2);
    let mut task = task_with(Status::new(status.bytes()), MIB);
    match task.start(true, MIB, &out) {
        Plan::Done => {}
        _ => panic!("a fully covered shrunk resource needs nothing fetched"),
    }
    assert_eq!(task.status().find_crc32().len(), 1);
}
