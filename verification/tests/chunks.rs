use rget::chunks::{
    check_response, effective_connections, limiter_pieces, limiter_rate, may_begin, plan_chunks, plan_download, redraw_rate,
    ChunkAction, ChunkEvent, ChunkWorker, Dispatch, ResponseError, SpeedMeter, SAMPLE_INTERVAL_NS,
};
use rget::resume::{snapshot, ChunkProgress, ResumeState, RESUME_STATE_VERSION};

#[test]
fn connections_depend_on_the_server() {
    assert_eq!(effective_connections(true, 8), 8);
    assert_eq!(effective_connections(true, 0), 1);
    assert_eq!(effective_connections(false, 8), 1);
}

#[test]
fn a_file_is_divided() {
    assert_eq!(
        plan_chunks(10, 3, 1),
        vec![(0, 2), (3, 5), (6, 8), (9, 9)]
    );
    assert_eq!(plan_chunks(10, 2, 1), vec![(0, 4), (5, 9)]);
    assert_eq!(plan_chunks(10, 8, 4), vec![(0, 3), (4, 7), (8, 9)]);
    assert_eq!(plan_chunks(10, 1, 100), vec![(0, 9)]);
    assert_eq!(plan_chunks(0, 4, 0), vec![]);
    assert_eq!(
        plan_chunks(u64::MAX, 2, 1),
        vec![
            (0, u64::MAX / 2 - 1),
            (u64::MAX / 2, u64::MAX - 2),
            (u64::MAX - 1, u64::MAX - 1)
        ]
    );
}

#[test]
fn each_byte_is_in_one_chunk() {
    for length in 1..60u64 {
        for connections in 1..9usize {
            let chunks = plan_chunks(length, connections, 5);
            for b in 0..length {
                let holders = chunks.iter().filter(|c| c.0 <= b && b <= c.1).count();
                assert_eq!(holders, 1);
            }
        }
    }
}

#[test]
fn a_fresh_plan_starts_at_nothing() {
    let plan = plan_download(10, 2, 1, None);
    assert_eq!(plan.chunks, vec![(0, 4), (5, 9)]);
    assert_eq!(plan.initial, vec![0, 0]);
    assert_eq!(plan.initial_total, 0);
}

#[test]
fn a_saved_download_goes_on_where_it_was() {
    let plan = plan_download(100, 4, 1, None);
    let positions = vec![25, 10, 0, 7];
    let state = snapshot("http://h/x", None, 100, &plan.chunks, &positions);
    let next = plan_download(100, 4, 1, Some(&state));
    assert_eq!(next.chunks, plan.chunks);
    assert_eq!(next.initial, positions);
    assert_eq!(next.initial_total, 42);
}

#[test]
fn other_connections_leave_no_byte_out() {
    let state = ResumeState {
        version: RESUME_STATE_VERSION,
        url: String::new(),
        etag: None,
        content_length: 200,
        connections: 2,
        min_chunk: 0,
        chunks: vec![
            ChunkProgress {
                start: 0,
                end: 99,
                written: 50,
            },
            ChunkProgress {
                start: 100,
                end: 199,
                written: 100,
            },
        ],
    };
    let one = plan_download(200, 1, 1, Some(&state));
    assert_eq!(one.initial, vec![50]);
    let four = plan_download(200, 4, 1, Some(&state));
    assert_eq!(four.initial, vec![50, 0, 50, 50]);
    for connections in 1..20 {
        let plan = plan_download(200, connections, 1, Some(&state));
        for (chunk, skipped) in plan.chunks.iter().zip(plan.initial.iter()) {
            for b in chunk.0..chunk.0 + skipped {
                assert!(b < 50 || (100 <= b && b < 200));
            }
        }
    }
}

#[test]
fn a_chunk_is_fetched_and_restarted_once() {
    let mut worker = ChunkWorker::new(100, 199, 20);
    assert_eq!(worker.len(), 100);
    assert!(!worker.is_complete());
    assert_eq!(worker.range_header(), "bytes=120-199");
    worker.received(30);
    assert_eq!(worker.position(), 150);
    assert!(worker.may_cancel());
    worker.cancelled();
    assert!(!worker.may_cancel());
    assert_eq!(worker.range_header(), "bytes=150-199");
    worker.received(50);
    assert!(worker.is_complete());
}

#[test]
fn only_the_part_that_was_asked_for_is_written() {
    assert_eq!(check_response(206, 10, 19, 100), Ok(()));
    assert_eq!(check_response(200, 0, 99, 100), Ok(()));
    assert_eq!(check_response(206, 0, 99, 100), Ok(()));
    let ignored = check_response(200, 0, 49, 100).unwrap_err();
    assert_eq!(
        ignored,
        ResponseError::IgnoredRange {
            status: 200,
            from: 0,
            to: 49
        }
    );
    assert_eq!(
        ignored.message("200 OK"),
        "Server ignored Range header (got 200 OK instead of 206 Partial Content) for \
         bytes=0-49. Refusing to write to avoid corrupting the output file."
    );
    assert!(check_response(200, 50, 99, 100).is_err());
    let failed = check_response(416, 0, 99, 100).unwrap_err();
    assert_eq!(failed, ResponseError::Failed { status: 416 });
    assert_eq!(
        failed.message("416 Range Not Satisfiable"),
        "Range request failed: 416 Range Not Satisfiable"
    );
    assert!(check_response(302, 0, 99, 100).is_err());
}

#[test]
fn rates_have_bounds() {
    assert_eq!(limiter_rate(0), 1);
    assert_eq!(limiter_rate(5_000), 5_000);
    assert_eq!(limiter_rate(1 << 40), u32::MAX);
    assert_eq!(redraw_rate(1), 4);
    assert_eq!(redraw_rate(2), 6);
    assert_eq!(redraw_rate(16), 10);
}

#[test]
fn a_speed_is_sampled_now_and_then() {
    let mut meter = SpeedMeter { bytes: 10, time: 5 };
    assert_eq!(meter.sample(1000, SAMPLE_INTERVAL_NS), None);
    assert_eq!(meter, SpeedMeter { bytes: 10, time: 5 });
    assert_eq!(
        meter.sample(1000, SAMPLE_INTERVAL_NS + 5),
        Some((990, SAMPLE_INTERVAL_NS))
    );
    assert_eq!(meter.bytes, 1000);
    assert_eq!(
        meter.sample(900, 3 * SAMPLE_INTERVAL_NS),
        Some((0, 2 * SAMPLE_INTERVAL_NS - 5))
    );
}

#[test]
fn the_course_of_a_chunk() {
    let mut worker = ChunkWorker::new(100, 199, 0);
    assert_eq!(worker.first_action(), ChunkAction::Request);
    let read = ChunkAction::Read { cancellable: true };
    assert_eq!(worker.step(ChunkEvent::Response(206), 500), read);
    assert_eq!(worker.step(ChunkEvent::Bytes(60), 500), read);
    assert_eq!(
        worker.step(ChunkEvent::Cancel, 500),
        ChunkAction::Request
    );
    assert_eq!(worker.range_header(), "bytes=160-199");
    let last = ChunkAction::Read { cancellable: false };
    assert_eq!(worker.step(ChunkEvent::Response(206), 500), last);
    assert_eq!(worker.step(ChunkEvent::Cancel, 500), last);
    assert_eq!(worker.step(ChunkEvent::Bytes(40), 500), last);
    assert_eq!(worker.step(ChunkEvent::End, 500), ChunkAction::Finish);
    assert_eq!(worker.written, 100);
    assert_eq!(worker.first_action(), ChunkAction::Finish);
}

#[test]
fn a_chunk_fails_on_a_response_that_is_no_part() {
    let mut worker = ChunkWorker::new(0, 99, 0);
    assert_eq!(
        worker.step(ChunkEvent::Response(200), 500),
        ChunkAction::Fail(ResponseError::IgnoredRange {
            status: 200,
            from: 0,
            to: 99
        })
    );
    assert_eq!(
        worker.step(ChunkEvent::Response(503), 100),
        ChunkAction::Fail(ResponseError::Failed { status: 503 })
    );
    assert_eq!(
        worker.step(ChunkEvent::Response(200), 100),
        ChunkAction::Read { cancellable: true }
    );
}

#[test]
fn no_more_chunks_than_connections_at_once() {
    assert!(may_begin(2, 3));
    assert!(!may_begin(3, 3));
    let chunks = plan_chunks(10, 3, 1);
    let mut dispatch = Dispatch::new(3, chunks.len());
    assert_eq!(dispatch.begin(), Some(0));
    assert_eq!(dispatch.begin(), Some(1));
    assert_eq!(dispatch.begin(), Some(2));
    assert_eq!(dispatch.begin(), None);
    dispatch.ended();
    assert_eq!(dispatch.begin(), Some(3));
    assert_eq!(dispatch.begin(), None);
    dispatch.ended();
    assert_eq!(dispatch.begin(), None);
    dispatch.ended();
    dispatch.ended();
    assert_eq!((dispatch.begun, dispatch.in_flight), (4, 0));
}

#[test]
fn the_limiter_is_asked_for_all_bytes() {
    assert_eq!(limiter_pieces(10, 4), vec![4, 4, 2]);
    assert_eq!(limiter_pieces(8, 4), vec![4, 4]);
    assert_eq!(limiter_pieces(3, 4), vec![3]);
    assert_eq!(limiter_pieces(0, 4), vec![]);
    assert_eq!(
        limiter_pieces(5_000_000_000, u32::MAX),
        vec![u32::MAX, 705_032_705]
    );
}
