use rget::target::{
    accept_name, choose_name, disposition_text, file_name_for, last_path_segment,
    parse_content_disposition_filename, read_url, target_of, ParsedUrl, Target, TargetError,
};

#[test]
fn urls_are_read() {
    assert_eq!(
        read_url("HTTPS://Example.com/a/b%20c.bin?x=1"),
        Ok(Target {
            url: "https://example.com/a/b%20c.bin?x=1".to_string(),
            host: "example.com".to_string(),
            port: 443,
            segment: Some("b%20c.bin".to_string()),
        })
    );
    let target = read_url("http://example.com:8080").unwrap();
    assert_eq!(target.port, 8080);
    assert_eq!(target.url, "http://example.com:8080/");
    assert_eq!(target.segment, Some(String::new()));
    assert_eq!(read_url("http://[::1]/x").unwrap().host, "[::1]");
}

#[test]
fn texts_that_are_no_targets() {
    assert_eq!(read_url("model-1.bin"), Err(TargetError::InvalidUrl));
    assert_eq!(read_url("mailto:a@b"), Err(TargetError::NoHost));
    assert_eq!(read_url("foo://host/x"), Err(TargetError::NoPort));
    assert_eq!(TargetError::InvalidUrl.message(), "Invalid URL");
    assert_eq!(TargetError::NoHost.message(), "URL has no host to resolve");
    assert_eq!(
        TargetError::NoPort.message(),
        "URL has no port and no known default for its scheme"
    );
}

#[test]
fn parts_make_a_target() {
    assert_eq!(target_of(None), Err(TargetError::InvalidUrl));
    let parts = ParsedUrl {
        text: "x://h/".to_string(),
        host: Some("h".to_string()),
        port: Some(7),
        path: "/a/b".to_string(),
    };
    assert_eq!(
        target_of(Some(parts)),
        Ok(Target {
            url: "x://h/".to_string(),
            host: "h".to_string(),
            port: 7,
            segment: Some("b".to_string()),
        })
    );
    assert_eq!(last_path_segment("/"), Some(String::new()));
    assert_eq!(last_path_segment("/a/b/"), Some(String::new()));
    assert_eq!(last_path_segment("a/b"), None);
    assert_eq!(last_path_segment(""), None);
}

fn named(cd: &str) -> Option<String> {
    parse_content_disposition_filename(cd)
}

#[test]
fn disposition_gives_a_name() {
    assert_eq!(
        named("attachment; filename=\"my%20file.bin\"; size=3"),
        Some("my file.bin".to_string())
    );
    assert_eq!(named("attachment; filename=a.bin; x=y"), Some("a.bin".to_string()));
    assert_eq!(named("filename=\"\"a\"b\""), Some("a".to_string()));
    assert_eq!(named("filename=\"a;b\""), Some("a".to_string()));
    assert_eq!(named("filename=a%2520b"), Some("a%2520b".to_string()));
    assert_eq!(
        named("filename=\"Episode 1: Pilot.mkv\""),
        Some("Episode 1: Pilot.mkv".to_string())
    );
    assert_eq!(named("filename=1:x.txt"), Some("1:x.txt".to_string()));
    assert_eq!(named("filename=a%%2020b"), Some("a% 20b".to_string()));
    assert_eq!(named("inline"), None);
    assert_eq!(named("filename=\"\""), None);
    assert_eq!(disposition_text("filename=a%20%20b"), Some("a  b".to_string()));
}

#[test]
fn disposition_cannot_choose_a_directory() {
    assert_eq!(named("filename=\"/etc/passwd\""), Some("passwd".to_string()));
    assert_eq!(named("filename=\"../../x\""), Some("x".to_string()));
    assert_eq!(named("filename=\"a/./\""), Some("a".to_string()));
    assert_eq!(named("filename=\"a/..\""), None);
    assert_eq!(named("filename=\"..\""), None);
    assert_eq!(named("filename=\"/\""), None);
}

#[test]
fn only_names_of_files_are_accepted() {
    for bad in ["", ".", "..", "a/b", "/"] {
        assert_eq!(accept_name(Some(bad.to_string())), None);
    }
    assert_eq!(accept_name(Some("...".to_string())), Some("...".to_string()));
    assert_eq!(accept_name(None), None);
}

#[test]
fn the_name_is_chosen_in_order() {
    let cd = Some("attachment; filename=\"cd.bin\"");
    assert_eq!(file_name_for(Some("out/x"), cd, Some("seg")), "out/x");
    assert_eq!(file_name_for(None, cd, Some("seg")), "cd.bin");
    assert_eq!(file_name_for(None, Some("inline"), Some("seg")), "seg");
    assert_eq!(file_name_for(None, None, Some("seg")), "seg");
    assert_eq!(file_name_for(None, None, Some("")), "download.bin");
    assert_eq!(file_name_for(None, None, None), "download.bin");
    assert_eq!(
        choose_name(None, Some("given".to_string()), Some("seg")),
        "given"
    );
}
