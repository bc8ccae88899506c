use rget::session::{
    collect_urls, decide_start, expand_urls, is_yes, pick_address, removes_control_at_end,
    start_after_answer, warns_of_single, AddressError, Batch, Family, IpMode, NoUrls, Policy, Start,
};

#[test]
fn flags_choose_the_ip_mode() {
    assert_eq!(IpMode::from_args(true, false), IpMode::V4);
    assert_eq!(IpMode::from_args(false, true), IpMode::V6);
    assert_eq!(IpMode::from_args(false, false), IpMode::Auto);
    assert_eq!(IpMode::from_args(true, true), IpMode::Auto);
    assert_eq!(IpMode::Auto.label(), "auto");
    assert_eq!(IpMode::V4.label(), "IPv4");
    assert_eq!(IpMode::V6.label(), "IPv6");
}

#[test]
fn first_fitting_address_is_picked() {
    let both = vec![Family::V6, Family::V6, Family::V4];
    assert_eq!(pick_address(&both, IpMode::Auto), Ok(0));
    assert_eq!(pick_address(&both, IpMode::V4), Ok(2));
    assert_eq!(pick_address(&both, IpMode::V6), Ok(0));
    let none = pick_address(&vec![], IpMode::V4).unwrap_err();
    assert_eq!(none, AddressError::Nothing);
    assert_eq!(none.message("h"), "No addresses returned for h");
    let wrong = pick_address(&vec![Family::V4], IpMode::V6).unwrap_err();
    assert_eq!(wrong, AddressError::WrongFamily(IpMode::V6));
    assert_eq!(wrong.message("h"), "No IPv6 address found for h");
}

fn owned(list: &[&str]) -> Vec<String> {
    list.iter().map(|s| s.to_string()).collect()
}

#[test]
fn urls_come_from_arguments_and_file() {
    let args = owned(&["a"]);
    let file = "# comment\n\n  b  \r\n\t# more\nc{1..2}\n";
    let list = collect_urls(&args, Some(file)).unwrap();
    assert_eq!(list, owned(&["a", "b", "c{1..2}"]));
    assert_eq!(expand_urls(&list), owned(&["a", "b", "c1", "c2"]));
    assert_eq!(collect_urls(&args, None), Ok(owned(&["a"])));
    assert_eq!(collect_urls(&vec![], Some("# x\n")), Err(NoUrls));
    assert_eq!(collect_urls(&vec![], None), Err(NoUrls));
    assert_eq!(
        NoUrls.message(),
        "No URLs provided. Pass URLs as arguments or use -i/--input-file."
    );
}

#[test]
fn batch_goes_on_after_a_failure() {
    let mut batch = Batch::new(3);
    assert_eq!(batch.next(), Some(0));
    batch.record(true, false);
    batch.record(false, false);
    assert_eq!(batch.next(), Some(2));
    batch.record(true, false);
    assert_eq!(batch.next(), None);
    assert_eq!((batch.succeeded, batch.failed), (2, 1));
    assert!(batch.is_failure());
    assert!(!Batch::new(0).is_failure());
}

#[test]
fn batch_stops_with_fail_fast() {
    let mut batch = Batch::new(3);
    batch.record(true, true);
    batch.record(false, true);
    assert_eq!(batch.next(), None);
    assert_eq!((batch.succeeded, batch.failed), (1, 1));
    assert!(batch.is_failure());
}

#[test]
fn answers_to_the_question() {
    for yes in ["", "\n", "y\n", " Y ", "yes\r\n", "YES"] {
        assert!(is_yes(yes));
    }
    for no in ["n", "no", "yy", "ye", "yes!"] {
        assert!(!is_yes(no));
    }
    assert_eq!(
        start_after_answer(true),
        Start::Begin {
            resuming: false,
            remove_control: false
        }
    );
    assert_eq!(start_after_answer(false), Start::Abort);
}

fn policy(overwrite: bool, no_overwrite: bool, no_continue: bool) -> Policy {
    Policy {
        overwrite,
        no_overwrite,
        no_continue,
    }
}

fn begin(resuming: bool, remove_control: bool) -> Start {
    Start::Begin {
        resuming,
        remove_control,
    }
}

#[test]
fn a_new_file_is_begun() {
    assert_eq!(
        decide_start(policy(false, false, false), false, false),
        begin(false, false)
    );
    assert_eq!(
        decide_start(policy(false, true, false), false, false),
        begin(false, false)
    );
}

#[test]
fn a_stale_control_file_is_removed() {
    assert_eq!(
        decide_start(policy(false, false, false), true, false),
        begin(false, true)
    );
    assert_eq!(
        decide_start(policy(false, false, true), true, false),
        begin(false, false)
    );
}

#[test]
fn a_partial_file_is_resumed() {
    assert_eq!(
        decide_start(policy(false, false, false), true, true),
        begin(true, false)
    );
    assert_eq!(
        decide_start(policy(true, false, false), true, true),
        begin(false, true)
    );
    assert_eq!(
        decide_start(policy(false, true, false), true, true),
        Start::Abort
    );
    assert_eq!(
        decide_start(policy(false, false, true), true, true),
        Start::Ask
    );
}

#[test]
fn another_file_is_not_overwritten_silently() {
    assert_eq!(
        decide_start(policy(false, false, false), false, true),
        Start::Ask
    );
    assert_eq!(
        decide_start(policy(false, true, false), false, true),
        Start::Abort
    );
    assert_eq!(
        decide_start(policy(true, false, false), false, true),
        begin(false, true)
    );
    assert_eq!(
        decide_start(policy(true, false, true), false, true),
        begin(false, false)
    );
}

#[test]
fn a_single_connection_is_warned_of() {
    assert!(warns_of_single(false, 8));
    assert!(!warns_of_single(false, 1));
    assert!(!warns_of_single(true, 8));
}

#[test]
fn no_continue_leaves_the_control_file() {
    assert!(removes_control_at_end(false));
    assert!(!removes_control_at_end(true));
    for overwrite in [false, true] {
        for exists in [false, true] {
            let with = decide_start(policy(overwrite, false, true), true, exists);
            let without = decide_start(policy(overwrite, false, true), false, exists);
            assert_eq!(with, without);
            if let Start::Begin {
                resuming,
                remove_control,
            } = with
            {
                assert!(!resuming && !remove_control);
            }
        }
    }
}
