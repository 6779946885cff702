use archive_reader::json::{parse, Json, Member};
use archive_reader::tree::{classify, header_root, Child, Node};

fn member(name: &str, value: Json) -> Member {
    Member { name: name.to_string(), value }
}

fn number(value: u64) -> Json {
    Json::Number(Some(value))
}

#[test]
fn classify_tells_file_directory_and_malformed_apart() {
    let leaf = Json::Object(vec![member("size", number(5)), member("offset", number(7))]);
    assert_eq!(classify(&leaf), Node::File { size: 5, offset: 7 });
    let directory = Json::Object(vec![member("files", Json::Object(vec![]))]);
    assert_eq!(classify(&directory), Node::Directory(vec![]));
    assert_eq!(classify(&Json::Object(vec![])), Node::Malformed);
    assert_eq!(classify(&Json::Null), Node::Malformed);
    assert_eq!(classify(&number(3)), Node::Malformed);
}

#[test]
fn classify_wants_both_size_and_offset_as_numbers() {
    let only_size = Json::Object(vec![member("size", number(5))]);
    assert_eq!(classify(&only_size), Node::Malformed);
    let only_offset = Json::Object(vec![member("offset", number(5))]);
    assert_eq!(classify(&only_offset), Node::Malformed);
    let text_offset = Json::Object(vec![
        member("size", number(5)),
        member("offset", Json::Text("7".to_string())),
    ]);
    assert_eq!(classify(&text_offset), Node::Malformed);
    let negative = Json::Object(vec![
        member("size", Json::Number(None)),
        member("offset", number(0)),
    ]);
    assert_eq!(classify(&negative), Node::Malformed);
}

#[test]
fn classify_takes_files_that_is_no_object_for_no_directory() {
    let value = Json::Object(vec![
        member("files", Json::Array(vec![])),
        member("size", number(1)),
        member("offset", number(2)),
    ]);
    assert_eq!(classify(&value), Node::File { size: 1, offset: 2 });
    let value = Json::Object(vec![member("files", Json::Null)]);
    assert_eq!(classify(&value), Node::Malformed);
}

#[test]
fn classify_ignores_other_members() {
    let value = Json::Object(vec![
        member("executable", Json::Bool(true)),
        member("offset", number(2)),
        member("size", number(1)),
    ]);
    assert_eq!(classify(&value), Node::File { size: 1, offset: 2 });
}

#[test]
fn classify_walks_the_whole_tree_in_order() {
    let text = br#"{"files":{"z":{"size":1,"offset":0},"m":{"files":{"x":{},"a":{"size":2,"offset":1}}}}}"#;
    let document = parse(text).unwrap();
    assert_eq!(
        classify(&document),
        Node::Directory(vec![
            Child {
                name: "m".to_string(),
                node: Node::Directory(vec![
                    Child { name: "a".to_string(), node: Node::File { size: 2, offset: 1 } },
                    Child { name: "x".to_string(), node: Node::Malformed },
                ]),
            },
            Child { name: "z".to_string(), node: Node::File { size: 1, offset: 0 } },
        ])
    );
}

#[test]
fn header_root_is_always_a_directory() {
    assert_eq!(header_root(&Json::Object(vec![])), Node::Directory(vec![]));
    assert_eq!(header_root(&Json::Null), Node::Directory(vec![]));
    let leaf = Json::Object(vec![member("size", number(5)), member("offset", number(7))]);
    assert_eq!(header_root(&leaf), Node::Directory(vec![]));
    let root = Json::Object(vec![member("files", Json::Object(vec![member("f", leaf)]))]);
    assert_eq!(
        header_root(&root),
        Node::Directory(vec![Child {
            name: "f".to_string(),
            node: Node::File { size: 5, offset: 7 },
        }])
    );
}
