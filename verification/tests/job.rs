use std::io;
use train::{finish_sync, plan_download, DownloadJob, DownloadPlan, TrainError};

#[test]
fn plan_is_sequential_exactly_when_size_is_unknown() {
    assert!(matches!(plan_download(None, 8), DownloadPlan::Sequential));
    match plan_download(Some(100), 30) {
        DownloadPlan::Chunked(ranges) => {
            assert_eq!(ranges.len(), 4);
            assert_eq!((ranges[0].start, ranges[0].end), (0, 29));
            assert_eq!((ranges[3].start, ranges[3].end), (90, 99));
        },
        DownloadPlan::Sequential => panic!("a known size must take the chunked path"),
    }
}

#[test]
fn dispatch_order_is_ascending() {
    let mut job = DownloadJob::new(4, 3);
    assert_eq!(job.dispatch(), 0);
    assert_eq!(job.dispatch(), 1);
    assert_eq!(job.dispatch(), 2);
    assert!(!job.can_dispatch());
}

#[test]
fn in_flight_never_exceeds_worker_count() {
    // Two workers and five chunks: drive a whole job, checking the bound at
    // every step.
    let threads = 2;
    let mut job = DownloadJob::new(threads, 5);
    while !job.is_drained() {
        while job.can_dispatch() {
            job.dispatch();
            assert!(job.in_flight <= threads);
        }
        assert!(job.in_flight <= threads);
        job.on_chunk_ok();
    }
    assert_eq!(job.completed, 5);
    assert!(job.error.is_none());
}

#[test]
fn first_error_wins() {
    let mut job = DownloadJob::new(2, 4);
    job.dispatch();
    job.dispatch();
    job.on_chunk_ok();
    job.dispatch();
    job.on_chunk_failed(TrainError::FileWriteError(io::Error::new(
        io::ErrorKind::Other,
        "disk full",
    )));
    job.dispatch();
    job.on_chunk_failed(TrainError::FileSyncError(io::Error::new(
        io::ErrorKind::Other,
        "sync failed",
    )));
    job.on_chunk_ok();
    assert!(matches!(job.error, Some(TrainError::FileWriteError(_))));
    assert_eq!(job.completed, 2);
    assert!(job.is_drained());
}

#[test]
fn failure_after_successes_still_fails_the_job() {
    let mut job = DownloadJob::new(3, 3);
    job.dispatch();
    job.dispatch();
    job.dispatch();
    job.on_chunk_ok();
    job.on_chunk_ok();
    job.on_chunk_failed(TrainError::BufferWriteError(io::Error::new(
        io::ErrorKind::Other,
        "short read",
    )));
    assert!(matches!(job.error, Some(TrainError::BufferWriteError(_))));
    assert!(matches!(job.into_result(), Err(TrainError::BufferWriteError(_))));
}

#[test]
fn a_clean_job_reaches_the_sync() {
    let mut job = DownloadJob::new(1, 1);
    job.dispatch();
    job.on_chunk_ok();
    assert!(job.is_drained());
    assert!(job.into_result().is_ok());
}

#[test]
fn completion_requires_a_successful_sync() {
    assert!(finish_sync(Ok(())).is_ok());
    let err = finish_sync(Err(io::Error::new(io::ErrorKind::Other, "no space"))).unwrap_err();
    assert!(matches!(err, TrainError::FileSyncError(_)));
}
