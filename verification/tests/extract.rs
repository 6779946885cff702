use archive_reader::archive::{open_archive, ArchiveHandle};
use archive_reader::error::ArchiveError;
use archive_reader::extract::Extraction;
use std::collections::BTreeMap;

fn packed(header: &str, data: &[u8]) -> Vec<u8> {
    let mut stream = (header.len() as u32).to_le_bytes().to_vec();
    stream.extend_from_slice(header.as_bytes());
    stream.extend_from_slice(data);
    stream
}

fn sample() -> ArchiveHandle {
    let header = r#"{"files":{"a.txt":{"size":5,"offset":0},"sub":{"files":{"b.txt":{"size":3,"offset":5},"none":{"size":0,"offset":0}}}}}"#;
    open_archive(&packed(header, b"hellowor"), true).unwrap()
}

/// Plays the part of the disk: a set of directories and a map of files.
fn run(
    handle: &ArchiveHandle,
    destination: &str,
    files: &mut BTreeMap<String, Vec<u8>>,
    directories: &mut Vec<String>,
    fail_on: Option<&str>,
) -> Result<usize, ArchiveError> {
    let mut extraction = Extraction::begin(handle, destination);
    let mut last = 0;
    while let Some(request) = extraction.next() {
        if Some(request.file.as_str()) == fail_on {
            extraction.record(Err("denied".to_string()));
        } else {
            directories.push(request.directory.clone());
            files.insert(request.file.clone(), request.content.clone());
            extraction.record(Ok(()));
        }
        assert!(extraction.written() >= last);
        last = extraction.written();
        assert!(last <= extraction.total());
    }
    extraction.finish()
}

#[test]
fn extraction_writes_every_entry_below_the_destination() {
    let handle = sample();
    let mut files = BTreeMap::new();
    let mut directories = Vec::new();
    assert_eq!(run(&handle, "out", &mut files, &mut directories, None), Ok(3));
    assert_eq!(directories, vec!["out", "out/sub", "out/sub"]);
    let written: Vec<(&str, &[u8])> =
        files.iter().map(|(file, bytes)| (file.as_str(), bytes.as_slice())).collect();
    assert_eq!(
        written,
        vec![
            ("out/a.txt", b"hello".as_slice()),
            ("out/sub/b.txt", b"wor".as_slice()),
            ("out/sub/none", b"".as_slice()),
        ]
    );
}

#[test]
fn what_is_written_reads_back() {
    let handle = sample();
    let mut files = BTreeMap::new();
    files.insert("out/a.txt".to_string(), b"stale".to_vec());
    files.insert("out/other".to_string(), b"kept".to_vec());
    run(&handle, "out/", &mut files, &mut Vec::new(), None).unwrap();
    for entry in handle.entries() {
        assert_eq!(files.get(&format!("out/{}", entry.path)), Some(&entry.content));
    }
    assert_eq!(files.get("out/other"), Some(&b"kept".to_vec()));
    assert_eq!(files.len(), 4);
}

#[test]
fn extracting_twice_is_extracting_once() {
    let handle = sample();
    let mut once = BTreeMap::new();
    run(&handle, "out", &mut once, &mut Vec::new(), None).unwrap();
    let mut twice = once.clone();
    assert_eq!(run(&handle, "out", &mut twice, &mut Vec::new(), None), Ok(3));
    assert_eq!(once, twice);
}

#[test]
fn extraction_stops_at_the_first_failure() {
    let handle = sample();
    let mut files = BTreeMap::new();
    let outcome = run(&handle, "out", &mut files, &mut Vec::new(), Some("out/sub/b.txt"));
    assert_eq!(
        outcome,
        Err(ArchiveError::MaterializationFailed {
            path: "sub/b.txt".to_string(),
            cause: "denied".to_string(),
        })
    );
    let written: Vec<&str> = files.keys().map(|file| file.as_str()).collect();
    assert_eq!(written, vec!["out/a.txt"]);
}

#[test]
fn extraction_of_an_empty_archive_writes_nothing() {
    let handle = open_archive(&[0x02, 0x00, 0x00, 0x00, b'{', b'}'], false).unwrap();
    let mut extraction = Extraction::begin(&handle, "out");
    assert_eq!(extraction.total(), 0);
    assert_eq!(extraction.next(), None);
    extraction.record(Err("ignored".to_string()));
    assert_eq!(extraction.written(), 0);
    assert_eq!(extraction.finish(), Ok(0));
}

#[test]
fn report_after_the_end_changes_nothing() {
    let handle = sample();
    let mut extraction = Extraction::begin(&handle, "");
    assert_eq!(extraction.total(), 3);
    let first = extraction.next().unwrap();
    assert_eq!(first.file, "a.txt");
    assert_eq!(first.directory, "");
    assert_eq!(first.content, &b"hello".to_vec());
    extraction.record(Ok(()));
    extraction.record(Err("gone".to_string()));
    assert_eq!(extraction.written(), 1);
    assert_eq!(extraction.next(), None);
    extraction.record(Ok(()));
    extraction.record(Err("later".to_string()));
    assert_eq!(extraction.written(), 1);
    assert_eq!(
        extraction.finish(),
        Err(ArchiveError::MaterializationFailed {
            path: "sub/b.txt".to_string(),
            cause: "gone".to_string(),
        })
    );
}

#[test]
fn finish_before_the_end_counts_what_is_written() {
    let handle = sample();
    let mut extraction = Extraction::begin(&handle, "out");
    extraction.record(Ok(()));
    extraction.record(Ok(()));
    assert_eq!(extraction.finish(), Ok(2));
}
