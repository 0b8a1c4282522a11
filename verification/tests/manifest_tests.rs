use hashgoblin::checker::split_into_lines;
use hashgoblin::engine::FsTree;
use hashgoblin::drive::{extract_device_name, path_on_fast_drive, PathList};
use hashgoblin::errors::Error;
use hashgoblin::hashing::HashType;
use hashgoblin::manifest::OutFile;
use hashgoblin::records::HashData;

#[test]
fn header_reserves_padding_for_the_finish_time() {
    let of = OutFile::new("1.0.0", &vec![HashType::Md5], "2024-01-02T03:04:05");
    assert_eq!(
        of.content,
        "version 1.0.0\nalgo md5\ntime_start 2024-01-02T03:04:05 - time_finish                    \n"
    );
}

#[test]
fn finish_patches_only_the_padding() {
    let mut of = OutFile::new("1.0.0", &vec![HashType::Md5], "2024-01-02T03:04:05");
    let mut rec = HashData::new("a.bin".to_string());
    rec.push_hash("5d41402abc4b2a76b9719d911017c592".to_string());
    of.handle(rec).unwrap();
    let before = of.content.clone();
    of.finish("2024-01-02T03:09:59").unwrap();
    let after = of.content.clone();
    assert_eq!(before.len(), after.len());
    assert_eq!(
        after,
        "version 1.0.0\nalgo md5\ntime_start 2024-01-02T03:04:05 - time_finish 2024-01-02T03:09:59\na.bin|5d41402abc4b2a76b9719d911017c592\n"
    );
    // the data lines are byte-identical before and after
    let data_before: Vec<String> = split_into_lines(&before)[3..].to_vec();
    let data_after: Vec<String> = split_into_lines(&after)[3..].to_vec();
    assert_eq!(data_before, data_after);
}

#[test]
fn finish_refuses_a_timestamp_of_another_width() {
    let mut of = OutFile::new("1.0.0", &vec![HashType::Md5], "[NO DATE]");
    let r = of.finish("2024-01-02T03:09:59");
    assert!(matches!(r, Err(Error::OutputFinish(_))));
    let e = r.unwrap_err();
    assert_eq!(
        e.message(),
        "hashing concluded successfully but the program failed to insert the finish time into the file"
    );
}

#[test]
fn parsed_data_lines_reserialize_identically() {
    let original = "some/dir/file.txt|aa,bb,cc";
    let rec = HashData::try_from_string(original.to_string(), false).unwrap();
    assert_eq!(rec.path().as_str(), "some/dir/file.txt");
    assert_eq!(rec.to_line(), original);
    let dir_line = "some/dir|";
    let dir_rec = HashData::try_from_string(dir_line.to_string(), true).unwrap();
    assert!(dir_rec.is_empty_dir());
    assert_eq!(dir_rec.to_line(), dir_line);
}

#[test]
fn data_line_without_separator_is_malformed() {
    let r = HashData::try_from_string("no separator here".to_string(), true);
    assert!(matches!(r, Err(Error::FileFormat)));
}

#[test]
fn paths_may_contain_the_separator() {
    // the split happens at the last `|`
    let rec = HashData::try_from_string("odd|name|aabb".to_string(), false).unwrap();
    assert_eq!(rec.path().as_str(), "odd|name");
    assert_eq!(rec.to_line(), "odd|name|aabb");
}

#[test]
fn device_names_are_extracted_from_mount_sources() {
    assert_eq!(extract_device_name("/dev/sda1".to_string()), "sda1");
    assert_eq!(extract_device_name("/dev/nvme0n1p3".to_string()), "nvme0n1");
    assert_eq!(
        extract_device_name("/dev/nvme0n1p3[/@subvol]".to_string()),
        "nvme0n1"
    );
    assert_eq!(extract_device_name("sdb".to_string()), "sdb");
}

#[test]
fn paths_group_by_device_in_first_seen_order() {
    let paths = vec!["p1".to_string(), "p2".to_string(), "p3".to_string()];
    let vols = vec!["sda".to_string(), "sdb".to_string(), "sda".to_string()];
    let rot = vec![true, false, true];
    let groups = path_on_fast_drive(paths, vols, rot);
    assert_eq!(groups.len(), 2);
    match &groups[0] {
        PathList::Hdd(ps) => assert_eq!(ps, &vec!["p1".to_string(), "p3".to_string()]),
        PathList::Ssd(_) => panic!("first device is rotational"),
    }
    match &groups[1] {
        PathList::Ssd(ps) => assert_eq!(ps, &vec!["p2".to_string()]),
        PathList::Hdd(_) => panic!("second device is not rotational"),
    }
}

#[test]
fn classifier_errors_have_messages() {
    let e = hashgoblin::drive::Error::Platform("query failed".to_string());
    assert_eq!(e.message(), "failed to determine if drive is ssd: query failed");
    let e2 = hashgoblin::drive::Error::PathToStr;
    assert_eq!(e2.message(), "failed to determine if drive is ssd: invalid path");
}

#[test]
fn io_error_message_names_the_path() {
    let e = Error::Io("permission denied".to_string(), "secret/file".to_string());
    assert_eq!(
        e.message(),
        "trying to read file or directory `secret/file`: permission denied"
    );
}

#[test]
fn cancel_flag_latches() {
    let mut flag = hashgoblin::cancel::CancelFlag::new();
    assert!(!hashgoblin::cancel::is_canceled(&flag));
    hashgoblin::cancel::cancel(&mut flag);
    assert!(hashgoblin::cancel::is_canceled(&flag));
    hashgoblin::cancel::cancel(&mut flag);
    assert!(hashgoblin::cancel::is_canceled(&flag));
}

#[test]
fn split_into_lines_matches_line_structure() {
    let lines = split_into_lines("a\nbb\n\nccc\n");
    assert_eq!(lines, vec!["a", "bb", "", "ccc"]);
    let no_trailing = split_into_lines("a\nb");
    assert_eq!(no_trailing, vec!["a", "b"]);
    let empty: Vec<String> = split_into_lines("");
    assert!(empty.is_empty());
}

#[test]
fn produced_manifest_reserializes_byte_identically() {
    let tree = FsTree::Dir(vec![
        ("f1".to_string(), FsTree::File(b"alpha".to_vec())),
        ("empty".to_string(), FsTree::Dir(vec![])),
        ("f2".to_string(), FsTree::File(b"beta".to_vec())),
    ]);
    let outfile = hashgoblin::create(
        vec![("root".to_string(), tree)],
        true,
        vec![HashType::Md5, HashType::Sha1],
        "1.0.0",
        true,
    )
    .expect("create should succeed");
    let content = outfile.content;
    let lines = split_into_lines(&content);
    let mut rebuilt = String::new();
    for header_line in &lines[..3] {
        rebuilt.push_str(header_line);
        rebuilt.push('\n');
    }
    for data_line in &lines[3..] {
        let rec = HashData::try_from_string(data_line.clone(), true).unwrap();
        rebuilt.push_str(&rec.to_line());
        rebuilt.push('\n');
    }
    assert_eq!(rebuilt, content);
}

#[test]
fn every_file_gets_exactly_one_record() {
    let tree = FsTree::Dir(vec![
        ("a".to_string(), FsTree::File(b"1".to_vec())),
        (
            "d".to_string(),
            FsTree::Dir(vec![
                ("a".to_string(), FsTree::File(b"2".to_vec())),
                ("b".to_string(), FsTree::File(b"3".to_vec())),
            ]),
        ),
        ("b".to_string(), FsTree::File(b"4".to_vec())),
    ]);
    let outfile = hashgoblin::create(
        vec![("root".to_string(), tree)],
        true,
        vec![HashType::Md5],
        "1.0.0",
        false,
    )
    .expect("create should succeed");
    let lines = split_into_lines(&outfile.content);
    let mut paths: Vec<String> = lines[3..]
        .iter()
        .map(|l| l.split('|').next().unwrap().to_string())
        .collect();
    assert_eq!(paths.len(), 4);
    paths.sort();
    paths.dedup();
    assert_eq!(paths, vec!["root/a", "root/b", "root/d/a", "root/d/b"]);
}
