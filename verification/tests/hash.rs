use rget::digest::FileHasher;
use rget::hash::{
    collect_expected_hashes, digest_from_output, digest_matches, find_sidecar_hash,
    first_hash_action, hash_action_after, hash_action_after_text, hash_plan, hashes_to_verify,
    normalize_hash_hex,
    parse_hash_from_sidecar, sidecar_path_for, verdict, verification_result, HashAction,
    HashAlgorithm, HashLengthError, HashPlan, VerificationFailed,
};

const ABC_256: &str = "ba7816bf8f01cfea414140de5dae2223b00361a396177a9cb410ff61f20015ad";
const ABC_512: &str = "ddaf35a193617abacc417349ae20413112e6fa4e89a97ea20a9eeee64b55d39a\
                       2192992a274fc1a836ba3c23a3feebbd454d4423643ce80e2a9ac94fa54ca49f";

fn hash(algo: HashAlgorithm, pieces: &[&[u8]]) -> String {
    let mut hasher = FileHasher::new(algo);
    for piece in pieces {
        hasher.update(piece);
    }
    hasher.finish()
}

#[test]
fn digests_of_known_texts() {
    assert_eq!(hash(HashAlgorithm::Sha256, &[b"abc"]), ABC_256);
    assert_eq!(hash(HashAlgorithm::Sha512, &[b"abc"]), ABC_512);
    assert_eq!(
        hash(HashAlgorithm::Sha256, &[]),
        "e3b0c44298fc1c149afbf4c8996fb92427ae41e4649b934ca495991b7852b855"
    );
}

#[test]
fn pieces_do_not_change_a_digest() {
    assert_eq!(hash(HashAlgorithm::Sha256, &[b"a", b"", b"bc"]), ABC_256);
    assert_eq!(hash(HashAlgorithm::Sha512, &[b"ab", b"c"]), ABC_512);
    assert_ne!(hash(HashAlgorithm::Sha256, &[b"bc", b"a"]), ABC_256);
}

#[test]
fn algorithms_have_names_lengths_and_tools() {
    assert_eq!(HashAlgorithm::Sha256.name(), "SHA-256");
    assert_eq!(HashAlgorithm::Sha512.name(), "SHA-512");
    assert_eq!(HashAlgorithm::Sha256.hex_len(), 64);
    assert_eq!(HashAlgorithm::Sha512.hex_len(), 128);
    let none: &[&str] = &[];
    let tools = HashAlgorithm::Sha256.system_tool_candidates();
    assert_eq!(tools.len(), 4);
    assert_eq!(tools[0], ("sha256sum", none));
    assert_eq!(tools[1].0, "shasum");
    assert_eq!(tools[1].1, &["-a", "256"]);
    assert_eq!(tools[2], ("sha256", none));
    assert_eq!(tools[3].0, "openssl");
    assert_eq!(tools[3].1, &["dgst", "-sha256", "-r"]);
    let tools = HashAlgorithm::Sha512.system_tool_candidates();
    assert_eq!(tools[0], ("sha512sum", none));
    assert_eq!(tools[1].1, &["-a", "512"]);
    assert_eq!(tools[2], ("sha512", none));
    assert_eq!(tools[3].1, &["dgst", "-sha512", "-r"]);
}

#[test]
fn hashes_are_normalized() {
    let shouted = ABC_256.to_uppercase();
    assert_eq!(
        normalize_hash_hex(&shouted, HashAlgorithm::Sha256),
        Ok(ABC_256.to_string())
    );
    let spaced = format!("  {}-{}\n", &ABC_256[..10], &ABC_256[10..]);
    assert_eq!(
        normalize_hash_hex(&spaced, HashAlgorithm::Sha256),
        Ok(ABC_256.to_string())
    );
    let error = normalize_hash_hex("abc", HashAlgorithm::Sha512).unwrap_err();
    assert_eq!(
        error,
        HashLengthError {
            algorithm: HashAlgorithm::Sha512,
            found: 3
        }
    );
    assert_eq!(
        error.message(),
        "Invalid SHA-512 hash length: expected 128 hex characters, got 3"
    );
}

#[test]
fn sidecar_files_are_read() {
    let plain = format!("{}  model.bin\n", ABC_256);
    assert_eq!(
        parse_hash_from_sidecar(&plain, 64),
        Some(ABC_256.to_string())
    );
    let binary = format!("# made today\r\n\r\n*{}* *model.bin\r\n", ABC_256.to_uppercase());
    assert_eq!(
        parse_hash_from_sidecar(&binary, 64),
        Some(ABC_256.to_string())
    );
    let second = format!("no hash here\n{}", ABC_256);
    assert_eq!(
        parse_hash_from_sidecar(&second, 64),
        Some(ABC_256.to_string())
    );
    assert_eq!(parse_hash_from_sidecar(&plain, 128), None);
    assert_eq!(parse_hash_from_sidecar("", 64), None);
    let commented = format!("#{}", ABC_256);
    assert_eq!(parse_hash_from_sidecar(&commented, 64), None);
    let not_hex = format!("g{}", &ABC_256[1..]);
    assert_eq!(parse_hash_from_sidecar(&not_hex, 64), None);
}

#[test]
fn first_sidecar_with_a_hash_counts() {
    let long = format!("{} x", ABC_512);
    assert_eq!(
        find_sidecar_hash(Some(ABC_256), Some(&long)),
        Some((HashAlgorithm::Sha256, ABC_256.to_string()))
    );
    assert_eq!(
        find_sidecar_hash(Some("nothing"), Some(&long)),
        Some((HashAlgorithm::Sha512, ABC_512.to_string()))
    );
    assert_eq!(
        find_sidecar_hash(None, Some(&long)),
        Some((HashAlgorithm::Sha512, ABC_512.to_string()))
    );
    assert_eq!(find_sidecar_hash(None, None), None);
}

#[test]
fn sidecar_files_stand_beside_the_target() {
    assert_eq!(
        sidecar_path_for("dir/model.bin", HashAlgorithm::Sha256),
        Some("dir/model.bin.sha256".to_string())
    );
    assert_eq!(
        sidecar_path_for("model.bin", HashAlgorithm::Sha512),
        Some("model.bin.sha512".to_string())
    );
    assert_eq!(
        sidecar_path_for("Episode 1: Pilot.mkv", HashAlgorithm::Sha256),
        Some("Episode 1: Pilot.mkv.sha256".to_string())
    );
    assert_eq!(
        sidecar_path_for("dir/1:x.txt", HashAlgorithm::Sha512),
        Some("dir/1:x.txt.sha512".to_string())
    );
    assert_eq!(
        sidecar_path_for("/blob.bin", HashAlgorithm::Sha512),
        Some("/blob.bin.sha512".to_string())
    );
    let by_std = std::path::Path::new("dir").join("C:x.sha256");
    assert_eq!(
        sidecar_path_for("dir/C:x", HashAlgorithm::Sha256).as_deref(),
        by_std.to_str()
    );
    assert_eq!(sidecar_path_for("..", HashAlgorithm::Sha256), None);
}

#[test]
fn flags_go_before_sidecars() {
    let other = "0".repeat(64);
    let long = format!("{}  model.bin\n", ABC_512);
    assert_eq!(
        collect_expected_hashes(Some(ABC_256), None, Some(&other), None),
        Ok(vec![(HashAlgorithm::Sha256, ABC_256.to_string())])
    );
    assert_eq!(
        collect_expected_hashes(None, Some(ABC_512), Some(&other), Some("junk")),
        Ok(vec![
            (HashAlgorithm::Sha512, ABC_512.to_string()),
            (HashAlgorithm::Sha256, other.clone())
        ])
    );
    assert_eq!(
        collect_expected_hashes(Some(ABC_256), None, Some(&other), Some(&long)),
        Ok(vec![
            (HashAlgorithm::Sha256, ABC_256.to_string()),
            (HashAlgorithm::Sha512, ABC_512.to_string())
        ])
    );
    assert_eq!(collect_expected_hashes(None, None, None, None), Ok(vec![]));
    assert_eq!(
        collect_expected_hashes(Some("12"), Some("3"), Some(&other), None),
        Err(HashLengthError {
            algorithm: HashAlgorithm::Sha256,
            found: 2
        })
    );
    assert_eq!(
        collect_expected_hashes(None, Some("3"), None, None),
        Err(HashLengthError {
            algorithm: HashAlgorithm::Sha512,
            found: 1
        })
    );
}

#[test]
fn both_sidecars_are_verified() {
    let long = format!("{}  model.bin\n", ABC_512);
    let both = vec![
        (HashAlgorithm::Sha256, ABC_256.to_string()),
        (HashAlgorithm::Sha512, ABC_512.to_string()),
    ];
    assert_eq!(
        collect_expected_hashes(None, None, Some(ABC_256), Some(&long)),
        Ok(both.clone())
    );
    assert_eq!(
        hashes_to_verify(false, None, None, Some(ABC_256), Some(&long)),
        Ok(both)
    );
    assert_eq!(
        hashes_to_verify(true, Some("12"), None, Some(ABC_256), Some(&long)),
        Ok(vec![])
    );
    assert!(hashes_to_verify(false, Some("12"), None, None, None).is_err());
}

#[test]
fn output_of_tools_is_read() {
    let output = format!("  {} */tmp/x\n", ABC_256.to_uppercase());
    assert_eq!(
        digest_from_output(HashAlgorithm::Sha256, &output),
        Some(ABC_256.to_string())
    );
    assert_eq!(digest_from_output(HashAlgorithm::Sha512, &output), None);
    assert_eq!(digest_from_output(HashAlgorithm::Sha256, " \n"), None);
}

#[test]
fn tools_are_tried_in_order() {
    let algo = HashAlgorithm::Sha256;
    assert_eq!(first_hash_action(), HashAction::RunTool(0));
    assert_eq!(hash_action_after(algo, 0, None), HashAction::RunTool(1));
    assert_eq!(
        hash_action_after(algo, 2, Some(b"garbage")),
        HashAction::RunTool(3)
    );
    assert_eq!(hash_action_after(algo, 3, None), HashAction::HashInProcess);
    let good = format!("{}  file", ABC_256);
    assert_eq!(
        hash_action_after(algo, 1, Some(good.as_bytes())),
        HashAction::Finished(ABC_256.to_string())
    );
    assert_eq!(
        hash_action_after_text(algo, 1, Some(&good)),
        HashAction::Finished(ABC_256.to_string())
    );
}

#[test]
fn output_that_is_no_text_is_read_as_far_as_it_goes() {
    let mut bytes = ABC_256.as_bytes().to_vec();
    bytes.insert(10, 0xff);
    bytes.push(b' ');
    bytes.push(0xc3);
    assert_eq!(
        hash_action_after(HashAlgorithm::Sha256, 0, Some(&bytes)),
        HashAction::Finished(ABC_256.to_string())
    );
}

#[test]
fn digests_are_compared() {
    assert!(digest_matches(ABC_256, ABC_256));
    assert!(!digest_matches(ABC_256, ABC_512));
    assert_eq!(
        verdict(HashAlgorithm::Sha256, "ab", "ab"),
        (true, "SHA-256: ab  ✓".to_string())
    );
    assert_eq!(
        verdict(HashAlgorithm::Sha512, "ab", "cd"),
        (
            false,
            "SHA-512 mismatch!\n  Expected: cd\n  Actual:   ab".to_string()
        )
    );
    assert_eq!(verification_result(&vec![true, true]), Ok(()));
    assert_eq!(verification_result(&vec![]), Ok(()));
    let failed = verification_result(&vec![true, false]);
    assert_eq!(failed, Err(VerificationFailed));
    assert_eq!(
        failed.unwrap_err().message(),
        "Checksum verification failed"
    );
}

#[test]
fn hashes_are_shown_verified_or_skipped() {
    assert_eq!(hash_plan(false, 0), HashPlan::Show);
    assert_eq!(hash_plan(true, 0), HashPlan::Skip);
    assert_eq!(hash_plan(false, 2), HashPlan::Verify);
}
