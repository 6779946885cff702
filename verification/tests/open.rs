use archive_reader::archive::{open_archive, read_archive};
use archive_reader::error::ArchiveError;
use archive_reader::tree::{Child, Node};

fn packed(header: &str, data: &[u8]) -> Vec<u8> {
    let mut stream = (header.len() as u32).to_le_bytes().to_vec();
    stream.extend_from_slice(header.as_bytes());
    stream.extend_from_slice(data);
    stream
}

fn file(name: &str, size: u64, offset: u64) -> Child {
    Child { name: name.to_string(), node: Node::File { size, offset } }
}

fn directory(name: &str, children: Vec<Child>) -> Child {
    Child { name: name.to_string(), node: Node::Directory(children) }
}

#[test]
fn empty_object_header_opens_with_no_entries() {
    let stream = [0x02, 0x00, 0x00, 0x00, b'{', b'}'];
    let handle = open_archive(&stream, false).unwrap();
    assert_eq!(handle.file_count(), 0);
    assert!(handle.entries().is_empty());
    assert!(handle.warnings().is_empty());
    assert_eq!(handle.total_bytes(), 0);
    assert!(open_archive(&stream, true).is_ok());
}

#[test]
fn prefix_of_four_before_two_header_bytes_is_truncated() {
    let stream = [0x04, 0x00, 0x00, 0x00, b'{', b'}'];
    assert_eq!(open_archive(&stream, false), Err(ArchiveError::TruncatedHeader));
    assert_eq!(open_archive(&stream, true), Err(ArchiveError::TruncatedHeader));
}

#[test]
fn two_level_tree_yields_both_files() {
    let header = r#"{"files":{"a.txt":{"size":5,"offset":0},"sub":{"files":{"b.txt":{"size":3,"offset":5}}}}}"#;
    let stream = packed(header, b"hellowor");
    let handle = open_archive(&stream, false).unwrap();
    assert_eq!(handle.file_count(), 2);
    assert_eq!(handle.get("a.txt"), Some(&b"hello".to_vec()));
    assert_eq!(handle.get("sub/b.txt"), Some(&b"wor".to_vec()));
    assert_eq!(handle.get("b.txt"), None);
    assert_eq!(handle.get("sub"), None);
    assert_eq!(handle.total_bytes(), 8);
    assert!(handle.warnings().is_empty());
    let paths: Vec<&str> = handle.entries().iter().map(|e| e.path.as_str()).collect();
    assert_eq!(paths, vec!["a.txt", "sub/b.txt"]);
}

#[test]
fn leaf_without_size_and_offset_is_skipped_or_fatal() {
    let header = r#"{"files":{"bad":{"executable":true},"ok.txt":{"size":2,"offset":1}}}"#;
    let stream = packed(header, b"xyz");
    let handle = open_archive(&stream, false).unwrap();
    assert_eq!(handle.file_count(), 1);
    assert_eq!(handle.get("ok.txt"), Some(&b"yz".to_vec()));
    assert_eq!(handle.warnings(), &vec![ArchiveError::MalformedEntry("bad".to_string())]);
    assert_eq!(
        open_archive(&stream, true),
        Err(ArchiveError::MalformedEntry("bad".to_string()))
    );
}

#[test]
fn stream_shorter_than_the_prefix_is_truncated() {
    assert_eq!(open_archive(&[], false), Err(ArchiveError::TruncatedHeader));
    assert_eq!(open_archive(&[2, 0, 0], false), Err(ArchiveError::TruncatedHeader));
}

#[test]
fn header_that_ends_early_is_truncated() {
    let mut stream = packed(r#"{"files":{}}"#, b"");
    stream.pop();
    assert_eq!(open_archive(&stream, false), Err(ArchiveError::TruncatedHeader));
    let huge = [0xff, 0xff, 0xff, 0xff, b'{', b'}'];
    assert_eq!(open_archive(&huge, true), Err(ArchiveError::TruncatedHeader));
}

#[test]
fn header_that_is_no_json_is_malformed() {
    let stream = packed(r#"{"files":"#, b"");
    assert_eq!(open_archive(&stream, false), Err(ArchiveError::MalformedHeader));
    let stream = packed("{} trailing", b"");
    assert_eq!(open_archive(&stream, false), Err(ArchiveError::MalformedHeader));
    let stream = packed("", b"");
    assert_eq!(open_archive(&stream, true), Err(ArchiveError::MalformedHeader));
}

#[test]
fn header_without_files_object_has_no_entries() {
    for header in ["[1,2]", "7", "null", r#"{"files":3}"#, r#"{"size":1,"offset":0}"#] {
        let stream = packed(header, b"data");
        let handle = open_archive(&stream, true).unwrap();
        assert_eq!(handle.file_count(), 0);
        assert!(handle.warnings().is_empty());
    }
}

#[test]
fn empty_file_is_an_empty_buffer() {
    let header = r#"{"files":{"empty":{"size":0,"offset":0},"far":{"size":0,"offset":900}}}"#;
    let stream = packed(header, b"");
    let handle = open_archive(&stream, true).unwrap();
    assert_eq!(handle.file_count(), 2);
    assert_eq!(handle.get("empty"), Some(&Vec::new()));
    assert_eq!(handle.get("far"), Some(&Vec::new()));
    assert_eq!(handle.total_bytes(), 0);
}

#[test]
fn data_region_starts_right_after_the_header() {
    let header = r#"{"files":{"f":{"size":2,"offset":1}}}"#;
    let stream = packed(header, b"abcd");
    assert_eq!(stream[4 + header.len() + 1], b'b');
    let handle = open_archive(&stream, true).unwrap();
    assert_eq!(handle.get("f"), Some(&b"bc".to_vec()));
}

#[test]
fn payload_beyond_the_stream_is_skipped_or_fatal() {
    let header = r#"{"files":{"a":{"size":2,"offset":0},"b":{"size":3,"offset":1},"c":{"size":1,"offset":2}}}"#;
    let stream = packed(header, b"xyz");
    let handle = open_archive(&stream, false).unwrap();
    let paths: Vec<&str> = handle.entries().iter().map(|e| e.path.as_str()).collect();
    assert_eq!(paths, vec!["a", "c"]);
    assert_eq!(handle.get("a"), Some(&b"xy".to_vec()));
    assert_eq!(handle.get("c"), Some(&b"z".to_vec()));
    assert_eq!(handle.warnings(), &vec![ArchiveError::TruncatedPayload("b".to_string())]);
    assert_eq!(
        open_archive(&stream, true),
        Err(ArchiveError::TruncatedPayload("b".to_string()))
    );
}

#[test]
fn payload_that_ends_with_the_stream_is_held() {
    let header = r#"{"files":{"all":{"size":3,"offset":0},"over":{"size":1,"offset":3}}}"#;
    let stream = packed(header, b"xyz");
    let handle = open_archive(&stream, false).unwrap();
    assert_eq!(handle.get("all"), Some(&b"xyz".to_vec()));
    assert_eq!(handle.warnings(), &vec![ArchiveError::TruncatedPayload("over".to_string())]);
}

#[test]
fn offset_near_the_largest_number_does_not_wrap() {
    let header = r#"{"files":{"big":{"size":1,"offset":18446744073709551615},"none":{"size":0,"offset":18446744073709551615}}}"#;
    let stream = packed(header, b"xyz");
    let handle = open_archive(&stream, false).unwrap();
    assert_eq!(handle.get("none"), Some(&Vec::new()));
    assert_eq!(handle.get("big"), None);
    assert_eq!(handle.warnings(), &vec![ArchiveError::TruncatedPayload("big".to_string())]);
}

#[test]
fn size_and_offset_must_be_non_negative_integers() {
    let header = r#"{"files":{"neg":{"size":-1,"offset":0},"frac":{"size":1.5,"offset":0},"text":{"size":1,"offset":"0"},"half":{"size":1},"wide":{"size":18446744073709551616,"offset":0}}}"#;
    let stream = packed(header, b"xyz");
    let handle = open_archive(&stream, false).unwrap();
    assert_eq!(handle.file_count(), 0);
    let skipped: Vec<String> = handle.warnings().iter().map(|w| w.message()).collect();
    assert_eq!(
        skipped,
        vec![
            "malformed entry: frac",
            "malformed entry: half",
            "malformed entry: neg",
            "malformed entry: text",
            "malformed entry: wide",
        ]
    );
}

#[test]
fn malformed_leaves_are_reported_before_truncated_payloads() {
    let header = r#"{"files":{"a":{"size":9,"offset":0},"b":{},"c":{"size":1,"offset":0}}}"#;
    let stream = packed(header, b"x");
    let handle = open_archive(&stream, false).unwrap();
    assert_eq!(
        handle.warnings(),
        &vec![
            ArchiveError::MalformedEntry("b".to_string()),
            ArchiveError::TruncatedPayload("a".to_string()),
        ]
    );
    assert_eq!(handle.get("c"), Some(&b"x".to_vec()));
    assert_eq!(open_archive(&stream, true), Err(ArchiveError::MalformedEntry("b".to_string())));
}

#[test]
fn strict_open_of_a_sound_archive_equals_the_lenient_one() {
    let header = r#"{"files":{"d":{"files":{"e":{"files":{"f.bin":{"size":4,"offset":2}}}}},"g":{"size":2,"offset":0}}}"#;
    let stream = packed(header, b"ggffff");
    let lenient = open_archive(&stream, false).unwrap();
    let strict = open_archive(&stream, true).unwrap();
    assert_eq!(lenient, strict);
    assert_eq!(strict.get("d/e/f.bin"), Some(&b"ffff".to_vec()));
    assert_eq!(strict.get("g"), Some(&b"gg".to_vec()));
    assert_eq!(strict.file_count(), 2);
    assert_eq!(strict.total_bytes(), 6);
}

#[test]
fn directory_wins_over_size_and_offset() {
    let header = r#"{"files":{"both":{"size":1,"offset":0,"files":{"in":{"size":1,"offset":1}}}}}"#;
    let stream = packed(header, b"ab");
    let handle = open_archive(&stream, true).unwrap();
    let paths: Vec<&str> = handle.entries().iter().map(|e| e.path.as_str()).collect();
    assert_eq!(paths, vec!["both/in"]);
    assert_eq!(handle.get("both/in"), Some(&b"b".to_vec()));
}

#[test]
fn empty_directory_gives_no_entry() {
    let header = r#"{"files":{"dir":{"files":{}}}}"#;
    let stream = packed(header, b"");
    let handle = open_archive(&stream, true).unwrap();
    assert_eq!(handle.file_count(), 0);
    assert!(handle.warnings().is_empty());
}

#[test]
fn one_entry_for_each_leaf_of_a_plain_tree() {
    let root = Node::Directory(vec![
        file("a", 1, 0),
        directory("b", vec![file("c", 1, 1), directory("d", vec![file("e", 1, 2)])]),
        file("f", 1, 3),
    ]);
    let handle = read_archive(&root, 2, b"..wxyz", true).unwrap();
    let found: Vec<(&str, &[u8])> =
        handle.entries().iter().map(|e| (e.path.as_str(), e.content.as_slice())).collect();
    assert_eq!(
        found,
        vec![
            ("a", b"w".as_slice()),
            ("b/c", b"x".as_slice()),
            ("b/d/e", b"y".as_slice()),
            ("f", b"z".as_slice()),
        ]
    );
}

#[test]
fn later_leaf_takes_the_place_of_an_earlier_one_with_its_path() {
    let root = Node::Directory(vec![
        file("a/b", 1, 0),
        file("x", 1, 2),
        directory("a", vec![file("b", 1, 1)]),
    ]);
    let handle = read_archive(&root, 0, b"123", true).unwrap();
    let found: Vec<(&str, &[u8])> =
        handle.entries().iter().map(|e| (e.path.as_str(), e.content.as_slice())).collect();
    assert_eq!(found, vec![("a/b", b"2".as_slice()), ("x", b"3".as_slice())]);
    assert_eq!(handle.file_count(), 2);
}

#[test]
fn child_of_a_directory_with_an_empty_name_stands_at_the_top() {
    let root = Node::Directory(vec![directory("", vec![file("x", 1, 0)])]);
    let handle = read_archive(&root, 0, b"1", true).unwrap();
    assert_eq!(handle.get("x"), Some(&b"1".to_vec()));
}

#[test]
fn root_that_is_a_file_has_the_empty_path() {
    let root = Node::File { size: 2, offset: 0 };
    let handle = read_archive(&root, 1, b"abc", true).unwrap();
    assert_eq!(handle.get(""), Some(&b"bc".to_vec()));
    let lenient = read_archive(&Node::Malformed, 1, b"abc", false).unwrap();
    assert_eq!(lenient.warnings(), &vec![ArchiveError::MalformedEntry(String::new())]);
}
