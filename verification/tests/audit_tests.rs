use hashgoblin::checker::{split_into_lines, AuditError};
use hashgoblin::engine::FsTree;
use hashgoblin::errors::Error;
use hashgoblin::hashing::HashType;
use hashgoblin::{audit, create};

const VERSION: &str = "1.0.0";

fn file(path: &str, data: &[u8]) -> (String, FsTree) {
    (path.to_string(), FsTree::File(data.to_vec()))
}

fn make_manifest(input: Vec<(String, FsTree)>, hashes: Vec<HashType>, ed: bool) -> String {
    let outfile = create(input, true, hashes, VERSION, ed).expect("create should succeed");
    outfile.content
}

fn run_audit(
    input: Vec<(String, FsTree)>,
    manifest: &str,
    early: bool,
    ed: bool,
) -> Result<(Vec<AuditError>, bool, bool), Error> {
    audit(input, true, split_into_lines(manifest), VERSION, early, ed)
}

#[test]
fn single_file_md5_manifest_line() {
    let content = make_manifest(vec![file("a.bin", b"hello")], vec![HashType::Md5], false);
    let lines: Vec<String> = split_into_lines(&content);
    assert_eq!(lines.len(), 4);
    assert!(lines[0].starts_with("version "));
    assert_eq!(lines[1], "algo md5");
    assert!(lines[2].starts_with("time_start "));
    assert_eq!(lines[3], "a.bin|5d41402abc4b2a76b9719d911017c592");
}

#[test]
fn audit_clean_tree_reports_nothing() {
    let content = make_manifest(vec![file("a.bin", b"hello")], vec![HashType::Md5], false);
    let (findings, audit_err, vm) =
        run_audit(vec![file("a.bin", b"hello")], &content, false, false).unwrap();
    assert!(findings.is_empty());
    assert!(!audit_err);
    assert!(vm);
}

#[test]
fn audit_mismatch_is_reported_once() {
    let content = make_manifest(vec![file("a.bin", b"hello")], vec![HashType::Md5], false);
    let (findings, audit_err, _) =
        run_audit(vec![file("a.bin", b"hellp")], &content, false, false).unwrap();
    assert_eq!(findings.len(), 1);
    assert!(matches!(&findings[0], AuditError::Mismatch(p) if p.as_str() == "a.bin"));
    assert_eq!(findings[0].message(), "audit_err: \"a.bin\" does not match");
    assert!(audit_err);
}

#[test]
fn audit_missing_and_extra_files() {
    let content = make_manifest(
        vec![file("a", b"one"), file("b", b"two")],
        vec![HashType::Md5],
        false,
    );
    let (findings, audit_err, _) =
        run_audit(vec![file("a", b"one"), file("c", b"three")], &content, false, false).unwrap();
    assert_eq!(findings.len(), 2);
    assert!(matches!(&findings[0], AuditError::Extra(p) if p.as_str() == "c"));
    assert!(matches!(&findings[1], AuditError::NotFound(p) if p.as_str() == "b"));
    assert!(audit_err);
}

#[test]
fn empty_dir_record_needs_opt_in() {
    let content = make_manifest(
        vec![("dir".to_string(), FsTree::Dir(vec![]))],
        vec![HashType::Md5],
        true,
    );
    let lines = split_into_lines(&content);
    assert_eq!(lines[3], "dir|");
    // auditing without the option fails on the record
    let err = run_audit(
        vec![("dir".to_string(), FsTree::Dir(vec![]))],
        &content,
        false,
        false,
    )
    .unwrap_err();
    assert!(matches!(&err, Error::AuditEmptyDir(p) if p.as_str() == "dir"));
    // with the option, the audit is clean
    let (findings, audit_err, _) = run_audit(
        vec![("dir".to_string(), FsTree::Dir(vec![]))],
        &content,
        false,
        true,
    )
    .unwrap();
    assert!(findings.is_empty());
    assert!(!audit_err);
}

#[test]
fn multi_algorithm_digests_in_configured_order() {
    let content = make_manifest(
        vec![file("a.bin", b"hello")],
        vec![HashType::Sha1, HashType::Sha256],
        false,
    );
    let lines = split_into_lines(&content);
    assert_eq!(lines[1], "algo sha1,sha256");
    assert_eq!(
        lines[3],
        "a.bin|aaf4c61ddcc5e8a2dabede0f3b482cd9aea9434d,2cf24dba5fb0a30e26e83b2ac5b9e29e1b161e5c1fa7425e73043362938b9824"
    );
    // reversing the configuration reverses the digest order
    let content2 = make_manifest(
        vec![file("a.bin", b"hello")],
        vec![HashType::Sha256, HashType::Sha1],
        false,
    );
    let lines2 = split_into_lines(&content2);
    assert_eq!(lines2[1], "algo sha256,sha1");
    assert_eq!(
        lines2[3],
        "a.bin|2cf24dba5fb0a30e26e83b2ac5b9e29e1b161e5c1fa7425e73043362938b9824,aaf4c61ddcc5e8a2dabede0f3b482cd9aea9434d"
    );
}

#[test]
fn early_audit_stops_at_first_finding() {
    let content = make_manifest(
        vec![file("a", b"one"), file("b", b"two")],
        vec![HashType::Md5],
        false,
    );
    let (findings, audit_err, _) = run_audit(
        vec![file("a", b"askew"), file("b", b"awry")],
        &content,
        true,
        false,
    )
    .unwrap();
    assert_eq!(findings.len(), 1);
    assert!(matches!(&findings[0], AuditError::Mismatch(p) if p.as_str() == "a"));
    assert!(audit_err);
}

#[test]
fn unreadable_input_fails_create_and_leaves_no_manifest() {
    let r = create(
        vec![("a".to_string(), FsTree::Unreadable("permission denied".to_string()))],
        true,
        vec![HashType::Md5],
        VERSION,
        false,
    );
    assert!(matches!(&r, Err(Error::Io(m, p)) if m.as_str() == "permission denied" && p.as_str() == "a"));
}

#[test]
fn unreadable_entry_mid_tree_fails_create() {
    let tree = FsTree::Dir(vec![
        ("x".to_string(), FsTree::File(b"ok".to_vec())),
        ("y".to_string(), FsTree::Unreadable("io error".to_string())),
    ]);
    let r = create(vec![("d".to_string(), tree)], true, vec![HashType::Md5], VERSION, false);
    assert!(matches!(&r, Err(Error::Io(m, p)) if m.as_str() == "io error" && p.as_str() == "d/y"));
}

#[test]
fn directory_seed_needs_recursive() {
    let r = create(
        vec![("d".to_string(), FsTree::Dir(vec![]))],
        false,
        vec![HashType::Md5],
        VERSION,
        false,
    );
    assert!(matches!(&r, Err(Error::IsDir(p)) if p.as_str() == "d"));
    let err = Error::IsDir("d".to_string());
    assert_eq!(err.message(), "`d` is a directory, try running with --recursive flag");
}

#[test]
fn nested_tree_is_walked_breadth_first() {
    let tree = FsTree::Dir(vec![
        ("f1".to_string(), FsTree::File(b"hello".to_vec())),
        (
            "sub".to_string(),
            FsTree::Dir(vec![("f2".to_string(), FsTree::File(b"hello".to_vec()))]),
        ),
    ]);
    let content = make_manifest(vec![("root".to_string(), tree)], vec![HashType::Md5], false);
    let lines = split_into_lines(&content);
    assert_eq!(lines.len(), 5);
    assert_eq!(lines[3], "root/f1|5d41402abc4b2a76b9719d911017c592");
    assert_eq!(lines[4], "root/sub/f2|5d41402abc4b2a76b9719d911017c592");
}

#[test]
fn default_algorithm_is_sha256() {
    let content = make_manifest(vec![file("a.bin", b"hello")], vec![], false);
    let lines = split_into_lines(&content);
    assert_eq!(lines[1], "algo sha256");
}

#[test]
fn reordered_records_still_audit_clean() {
    // the backlog tolerates the live stream arriving in another order
    let content = make_manifest(
        vec![file("a", b"one"), file("b", b"two"), file("c", b"three")],
        vec![HashType::Md5],
        false,
    );
    let (findings, audit_err, _) = run_audit(
        vec![file("c", b"three"), file("a", b"one"), file("b", b"two")],
        &content,
        false,
        false,
    )
    .unwrap();
    assert!(findings.is_empty());
    assert!(!audit_err);
}

#[test]
fn version_mismatch_is_tolerated_but_flagged() {
    let content = make_manifest(vec![file("a", b"one")], vec![HashType::Md5], false);
    let (findings, audit_err, vm) = audit(
        vec![file("a", b"one")],
        true,
        split_into_lines(&content),
        "9.9.9",
        false,
        false,
    )
    .unwrap();
    assert!(findings.is_empty());
    assert!(!audit_err);
    assert!(!vm);
}

#[test]
fn malformed_header_is_refused() {
    let lines = vec!["not a header".to_string()];
    let err = audit(vec![], true, lines, VERSION, false, false).unwrap_err();
    assert!(matches!(err, Error::FileFormat));
    assert_eq!(err.message(), "invalid hashes file format");
}

#[test]
fn unknown_algorithm_in_header_is_refused() {
    let lines = vec![
        "version 1.0.0".to_string(),
        "algo crc32".to_string(),
        "time_start [NO DATE] - time_finish [NO DATE]".to_string(),
    ];
    let err = audit(vec![], true, lines, VERSION, false, false).unwrap_err();
    assert!(matches!(&err, Error::InvalidHash(m)
        if m.as_str() == "invalid hash: crc32, possible options are: sha256, tiger, whirlpool, sha1, md5"));
}

#[test]
fn audit_of_no_date_manifest_parses() {
    let lines = vec![
        "version 1.0.0".to_string(),
        "algo md5".to_string(),
        "time_start [NO DATE] - time_finish [NO DATE]".to_string(),
        "a|5d41402abc4b2a76b9719d911017c592".to_string(),
    ];
    let (findings, audit_err, _) =
        audit(vec![file("a", b"hello")], true, lines, VERSION, false, false).unwrap();
    assert!(findings.is_empty());
    assert!(!audit_err);
}

#[test]
fn datetime_header_tokens_parse() {
    let lines = vec![
        "version 1.0.0".to_string(),
        "algo md5".to_string(),
        "time_start 2024-01-02T03:04:05 - time_finish 2024-01-02T03:09:59".to_string(),
        "a|5d41402abc4b2a76b9719d911017c592".to_string(),
    ];
    let (findings, audit_err, _) =
        audit(vec![file("a", b"hello")], true, lines, VERSION, false, false).unwrap();
    assert!(findings.is_empty());
    assert!(!audit_err);
    // a header whose timestamp is no date at all is refused
    let bad = vec![
        "version 1.0.0".to_string(),
        "algo md5".to_string(),
        "time_start gibberish - time_finish gibberish".to_string(),
    ];
    let err = audit(vec![], true, bad, VERSION, false, false).unwrap_err();
    assert!(matches!(err, Error::FileFormat));
}

#[test]
fn early_drain_finding_fails_the_audit() {
    // an empty tree against a manifest with two records: the first missing
    // path is reported, latches cancellation, and still fails the audit
    let lines = vec![
        "version 1.0.0".to_string(),
        "algo md5".to_string(),
        "time_start [NO DATE] - time_finish [NO DATE]".to_string(),
        "a|5d41402abc4b2a76b9719d911017c592".to_string(),
        "b|5d41402abc4b2a76b9719d911017c592".to_string(),
    ];
    let (findings, audit_err, _) =
        audit(Vec::new(), true, lines, VERSION, true, false).unwrap();
    assert_eq!(findings.len(), 1);
    assert!(matches!(&findings[0], AuditError::NotFound(p) if p.as_str() == "a"));
    assert!(audit_err);
}

#[test]
fn cancellation_skips_the_manifest_tail() {
    // once an early finding latches cancellation, the rest of the manifest
    // is not read: a malformed tail does not turn the finding into an error
    let lines = vec![
        "version 1.0.0".to_string(),
        "algo md5".to_string(),
        "time_start [NO DATE] - time_finish [NO DATE]".to_string(),
        "a|deadbeef".to_string(),
        "this line has no separator".to_string(),
    ];
    let (findings, audit_err, _) =
        audit(vec![file("a", b"hello")], true, lines, VERSION, true, false).unwrap();
    assert_eq!(findings.len(), 1);
    assert!(matches!(&findings[0], AuditError::Mismatch(p) if p.as_str() == "a"));
    assert!(audit_err);
}

#[test]
fn extra_file_in_the_middle_is_reported_once() {
    let content = make_manifest(
        vec![file("a", b"one"), file("c", b"three")],
        vec![HashType::Md5],
        false,
    );
    let (findings, audit_err, _) = run_audit(
        vec![file("a", b"one"), file("x", b"stray"), file("c", b"three")],
        &content,
        false,
        false,
    )
    .unwrap();
    assert_eq!(findings.len(), 1);
    assert!(matches!(&findings[0], AuditError::Extra(p) if p.as_str() == "x"));
    assert!(audit_err);
}

#[test]
fn reordered_stream_with_one_mutation_reports_it_once() {
    let content = make_manifest(
        vec![file("a", b"one"), file("b", b"two"), file("c", b"three")],
        vec![HashType::Md5],
        false,
    );
    let (findings, audit_err, _) = run_audit(
        vec![file("c", b"three"), file("b", b"altered"), file("a", b"one")],
        &content,
        false,
        false,
    )
    .unwrap();
    assert_eq!(findings.len(), 1);
    assert!(matches!(&findings[0], AuditError::Mismatch(p) if p.as_str() == "b"));
    assert!(audit_err);
}
