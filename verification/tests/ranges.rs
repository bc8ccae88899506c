use rget::ranges::{expand_matches, expand_ranges};

#[test]
fn test_simple_range() {
    let urls = expand_ranges("model-{1..3}.bin");
    assert_eq!(urls, vec!["model-1.bin", "model-2.bin", "model-3.bin",]);
}

#[test]
fn test_zero_padded_range() {
    let urls = expand_ranges("model-{001..005}.bin");
    assert_eq!(
        urls,
        vec![
            "model-001.bin",
            "model-002.bin",
            "model-003.bin",
            "model-004.bin",
            "model-005.bin",
        ]
    );
}

#[test]
fn test_different_padding() {
    let urls = expand_ranges("model-{1..5}.bin");
    assert_eq!(
        urls,
        vec![
            "model-1.bin",
            "model-2.bin",
            "model-3.bin",
            "model-4.bin",
            "model-5.bin",
        ]
    );
}

#[test]
fn test_multiple_ranges() {
    let urls = expand_ranges("part-{1..2}-chunk-{01..02}.bin");
    assert_eq!(urls.len(), 4);
    assert!(urls.contains(&"part-1-chunk-01.bin".to_string()));
    assert!(urls.contains(&"part-1-chunk-02.bin".to_string()));
    assert!(urls.contains(&"part-2-chunk-01.bin".to_string()));
    assert!(urls.contains(&"part-2-chunk-02.bin".to_string()));
}

#[test]
fn test_no_range() {
    let urls = expand_ranges("https://example.com/file.bin");
    assert_eq!(urls, vec!["https://example.com/file.bin"]);
}

#[test]
fn test_invalid_range_start_greater_than_end() {
    let urls = expand_ranges("model-{10..5}.bin");
    assert_eq!(urls, vec!["model-{10..5}.bin"]);
}

#[test]
fn sharded_model_expands_to_forty_urls() {
    let urls = expand_ranges("https://example.com/model-{001..040}-of-00040.safetensors");
    assert_eq!(urls.len(), 40);
    assert_eq!(
        urls[0],
        "https://example.com/model-001-of-00040.safetensors"
    );
    assert_eq!(
        urls[39],
        "https://example.com/model-040-of-00040.safetensors"
    );
    let narrow = expand_ranges("model-{1..40}-of-00040.safetensors");
    assert_eq!(narrow.len(), 40);
    assert_eq!(narrow[8], "model-9-of-00040.safetensors");
    assert_eq!(narrow[39], "model-40-of-00040.safetensors");
}

#[test]
fn two_ranges_multiply() {
    let urls = expand_ranges("https://example.com/part-{1..8}-chunk-{01..16}.bin");
    assert_eq!(urls.len(), 128);
    assert_eq!(urls[0], "https://example.com/part-1-chunk-01.bin");
    assert_eq!(urls[15], "https://example.com/part-1-chunk-16.bin");
    assert_eq!(urls[16], "https://example.com/part-2-chunk-01.bin");
    assert_eq!(urls[127], "https://example.com/part-8-chunk-16.bin");
}

#[test]
fn width_is_that_of_the_first_number() {
    assert_eq!(
        expand_ranges("{08..11}"),
        vec!["08", "09", "10", "11"]
    );
    assert_eq!(expand_ranges("{8..0011}"), vec!["8", "9", "10", "11"]);
    assert_eq!(expand_ranges("{0..0}"), vec!["0"]);
}

#[test]
fn text_without_a_whole_range_stays() {
    for raw in ["a{1..}b", "a{..2}b", "{1.2}", "{1..2", "{a..b}", "{ 1..2}", "{-1..2}", ""] {
        assert_eq!(expand_ranges(raw), vec![raw]);
    }
}

#[test]
fn same_range_twice_gives_all_pairs() {
    assert_eq!(
        expand_ranges("{1..2}{1..2}"),
        vec!["11", "12", "21", "22"]
    );
}

#[test]
fn digits_of_other_scripts_match_but_have_no_value() {
    assert_eq!(expand_ranges("{\u{0663}..2}"), vec!["0", "1", "2"]);
    assert_eq!(
        expand_ranges("{\u{0663}\u{0661}..1}"),
        vec!["00", "01"]
    );
}

#[test]
fn bounds_beyond_64_bits_count_as_zero() {
    assert_eq!(
        expand_ranges("{18446744073709551616..1}"),
        vec!["00000000000000000000", "00000000000000000001"]
    );
}

#[test]
fn matches_are_replaced_in_order() {
    let found = vec![(
        "{1..2}".to_string(),
        "1".to_string(),
        "2".to_string(),
    )];
    assert_eq!(expand_matches("x{1..2}y", &found), vec!["x1y", "x2y"]);
    assert_eq!(expand_matches("x{1..2}y", &Vec::new()), vec!["x{1..2}y"]);
}

#[test]
fn each_range_is_replaced_in_its_own_place() {
    assert_eq!(
        expand_ranges("{{1..2}..3}-{1..3}"),
        vec![
            "{1..3}-1",
            "{1..3}-2",
            "{1..3}-3",
            "{2..3}-1",
            "{2..3}-2",
            "{2..3}-3",
        ]
    );
    assert_eq!(
        expand_ranges("{{1..1}..2}{1..2}"),
        vec!["{1..2}1", "{1..2}2"]
    );
    assert_eq!(
        expand_ranges("{5..1}{1..2}{5..1}"),
        vec!["{5..1}1{5..1}", "{5..1}2{5..1}"]
    );
}

#[test]
fn matches_that_are_not_there_are_passed_over() {
    let found = vec![
        ("{7..8}".to_string(), "7".to_string(), "8".to_string()),
        ("{1..2}".to_string(), "1".to_string(), "2".to_string()),
    ];
    assert_eq!(expand_matches("x{1..2}y", &found), vec!["x1y", "x2y"]);
}
