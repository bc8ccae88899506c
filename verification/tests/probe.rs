use rget::probe::{check_size, read_head, read_probe, Metadata, ProbeError, TooLarge};

fn metadata(content_length: u64, accept_ranges: bool) -> Metadata {
    Metadata {
        content_length,
        accept_ranges,
        content_disposition: Some("cd".to_string()),
        etag: Some("\"e\"".to_string()),
    }
}

#[test]
fn head_gives_metadata() {
    assert_eq!(
        read_head(200, Some("1234"), Some("bytes"), Some("cd"), Some("\"e\"")),
        Ok(Some(metadata(1234, true)))
    );
    assert_eq!(
        read_head(204, Some("+7"), Some("none"), Some("cd"), Some("\"e\"")),
        Ok(Some(metadata(7, false)))
    );
    let bare = read_head(200, Some("0"), None, None, None).unwrap().unwrap();
    assert!(!bare.accept_ranges);
    assert_eq!(bare.etag, None);
    assert_eq!(bare.content_disposition, None);
}

#[test]
fn head_that_is_refused_falls_back() {
    for status in [199, 300, 403, 500] {
        assert_eq!(
            read_head(status, Some("1"), Some("bytes"), None, None),
            Ok(None)
        );
    }
}

#[test]
fn head_needs_a_length() {
    for bad in [None, Some(""), Some(" 1"), Some("-1"), Some("1x"), Some("18446744073709551616")] {
        assert_eq!(
            read_head(200, bad, Some("bytes"), None, None),
            Err(ProbeError::NoLength)
        );
    }
}

#[test]
fn probe_of_one_byte_gives_the_total() {
    assert_eq!(
        read_probe(206, Some("1"), Some("bytes 0-0/5000"), Some("cd"), Some("\"e\"")),
        Ok(metadata(5000, true))
    );
    assert_eq!(
        read_probe(206, None, Some("bytes 0-0 / 42 "), None, None)
            .unwrap()
            .content_length,
        42
    );
    for bad in [None, Some("bytes 0-0/*"), Some("bytes 0-0"), Some("")] {
        assert_eq!(
            read_probe(206, Some("1"), bad, None, None),
            Err(ProbeError::NoTotal)
        );
    }
}

#[test]
fn probe_that_sends_everything() {
    assert_eq!(
        read_probe(200, Some("99"), Some("bytes 0-0/5000"), Some("cd"), Some("\"e\"")),
        Ok(metadata(99, false))
    );
    assert_eq!(
        read_probe(200, None, Some("bytes 0-0/5000"), None, None),
        Err(ProbeError::NoLength)
    );
    assert_eq!(
        read_probe(404, Some("1"), None, None, None),
        Err(ProbeError::Refused)
    );
}

#[test]
fn probe_errors_have_messages() {
    assert_eq!(
        ProbeError::NoLength.message("200 OK", ""),
        "No Content-Length → cannot use multi-connection"
    );
    assert_eq!(
        ProbeError::Refused.message("404 Not Found", "gone"),
        "Probe failed: 404 Not Found gone"
    );
    assert_eq!(
        ProbeError::NoTotal.message("206 Partial Content", ""),
        "Probe returned 206 without parseable Content-Range total"
    );
}

#[test]
fn files_that_are_too_large_are_refused() {
    assert_eq!(check_size(100, 100), Ok(()));
    let error = check_size(101, 100).unwrap_err();
    assert_eq!(
        error,
        TooLarge {
            content_length: 101,
            max_size: 100
        }
    );
    assert_eq!(error.message(), "File size 101 exceeds --max-size 100");
}
