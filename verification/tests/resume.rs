use rget::resume::{
    compute_already_written_for_range, control_file_name, control_path_for, load_resume_state,
    resume_offset, snapshot, temporary_path_for, total_written, validate_resume_state,
    ChunkProgress, ResumeState, RESUME_STATE_VERSION,
};

fn progress(start: u64, end: u64, written: u64) -> ChunkProgress {
    ChunkProgress {
        start,
        end,
        written,
    }
}

fn state(chunks: Vec<ChunkProgress>) -> ResumeState {
    ResumeState {
        version: RESUME_STATE_VERSION,
        url: "http://h/x".to_string(),
        etag: Some("\"a\"".to_string()),
        content_length: 200,
        connections: 2,
        min_chunk: 0,
        chunks,
    }
}

#[test]
fn control_files_are_hidden_beside_the_target() {
    assert_eq!(control_path_for("model.safetensors"), ".model.safetensors.rget");
    assert_eq!(control_path_for("out/large-file.zip"), "out/.large-file.zip.rget");
    assert_eq!(control_path_for("/blob.bin"), "/.blob.bin.rget");
    assert_eq!(control_path_for("a/b/"), "a/.b.rget");
    assert_eq!(control_path_for("/"), "./..rget");
    assert_eq!(control_path_for("a/b: c"), "a/.b: c.rget");
    assert_eq!(
        control_path_for("out/dir/model.bin"),
        "out/dir/.model.bin.rget"
    );
    assert_eq!(control_path_for("a/:b"), "a/.:b.rget");
    assert_eq!(control_path_for("1:x.txt"), ".1:x.txt.rget");
    assert_eq!(control_path_for("./x"), "./.x.rget");
    assert_eq!(control_path_for("../x"), "../.x.rget");
    assert_eq!(control_path_for("a//b"), "a/.b.rget");
    assert_eq!(control_path_for("a/./b"), "a/.b.rget");
    assert_eq!(control_path_for(""), "./..rget");
    assert_eq!(control_file_name("x"), ".x.rget");
    assert_eq!(temporary_path_for("out/.x.rget"), "out/.x.rget.tmp");
}

#[test]
fn only_the_known_version_is_loaded() {
    let good = state(vec![]);
    assert_eq!(load_resume_state(Some(good.clone())), Some(good.clone()));
    let mut newer = good;
    newer.version = RESUME_STATE_VERSION + 1;
    assert_eq!(load_resume_state(Some(newer)), None);
    assert_eq!(load_resume_state(None), None);
}

#[test]
fn a_state_is_valid_for_the_same_content() {
    let s = state(vec![]);
    assert!(validate_resume_state(&s, 200, Some("\"a\"")));
    assert!(!validate_resume_state(&s, 200, Some("\"b\"")));
    assert!(!validate_resume_state(&s, 201, Some("\"a\"")));
    assert!(validate_resume_state(&s, 200, None));
    let mut bare = s;
    bare.etag = None;
    assert!(validate_resume_state(&bare, 200, Some("\"b\"")));
    assert!(!validate_resume_state(&bare, 199, None));
}

#[test]
fn written_bytes_of_a_range_are_counted() {
    let s = state(vec![progress(0, 99, 50), progress(100, 199, 100)]);
    assert_eq!(compute_already_written_for_range(&s, 0, 99), 50);
    assert_eq!(compute_already_written_for_range(&s, 100, 199), 100);
    assert_eq!(compute_already_written_for_range(&s, 0, 199), 150);
    assert_eq!(compute_already_written_for_range(&s, 25, 74), 25);
    assert_eq!(compute_already_written_for_range(&s, 60, 109), 10);
    assert_eq!(compute_already_written_for_range(&s, 200, 300), 0);
    let over = state(vec![progress(0, 9, 50)]);
    assert_eq!(compute_already_written_for_range(&over, 0, 99), 10);
    let twice = state(vec![progress(0, 9, 10), progress(0, 9, 10)]);
    assert_eq!(compute_already_written_for_range(&twice, 0, 9), 10);
    assert_eq!(compute_already_written_for_range(&state(vec![]), 0, 9), 0);
}

#[test]
fn a_range_goes_on_before_the_first_gap() {
    let s = state(vec![progress(0, 99, 50), progress(100, 199, 100)]);
    assert_eq!(resume_offset(&s, 0, 99), 50);
    assert_eq!(resume_offset(&s, 100, 199), 100);
    assert_eq!(resume_offset(&s, 0, 199), 50);
    assert_eq!(resume_offset(&s, 25, 74), 25);
    assert_eq!(resume_offset(&s, 60, 109), 0);
    assert_eq!(resume_offset(&s, 120, 129), 10);
    let whole = state(vec![progress(100, 199, 30), progress(0, 99, 100)]);
    assert_eq!(resume_offset(&whole, 0, 199), 130);
    assert_eq!(resume_offset(&whole, 40, 199), 90);
    let odd = state(vec![progress(9, 0, 5), progress(0, u64::MAX, u64::MAX)]);
    assert_eq!(resume_offset(&odd, 0, 9), 10);
    assert_eq!(resume_offset(&odd, 5, u64::MAX - 1), u64::MAX - 5);
}

#[test]
fn without_a_gap_count_and_offset_agree() {
    let s = state(vec![progress(0, 99, 100), progress(100, 199, 20)]);
    for (a, b) in [(0, 199), (0, 99), (50, 149), (100, 119), (110, 199)] {
        assert_eq!(
            resume_offset(&s, a, b),
            compute_already_written_for_range(&s, a, b)
        );
    }
}

#[test]
fn written_bytes_are_summed() {
    let s = state(vec![progress(0, 99, 50), progress(100, 199, 7)]);
    assert_eq!(total_written(&s), Some(57));
    let huge = state(vec![progress(0, 9, u64::MAX), progress(0, 9, 1)]);
    assert_eq!(total_written(&huge), None);
}

#[test]
fn a_snapshot_holds_the_progress() {
    let ranges = vec![(0, 99), (100, 149)];
    let s = snapshot("http://h/x", Some("e"), 150, &ranges, &vec![40, 50]);
    assert_eq!(s.version, RESUME_STATE_VERSION);
    assert_eq!(s.url, "http://h/x");
    assert_eq!(s.etag, Some("e".to_string()));
    assert_eq!(s.content_length, 150);
    assert_eq!(s.chunks, vec![progress(0, 99, 40), progress(100, 149, 50)]);
    assert!(validate_resume_state(&s, 150, Some("e")));
    assert_eq!(load_resume_state(Some(s.clone())), Some(s.clone()));
    assert_eq!(resume_offset(&s, 0, 99), 40);
    assert_eq!(resume_offset(&s, 100, 149), 50);
}
