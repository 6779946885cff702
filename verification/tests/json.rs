use archive_reader::json::{parse, Json, Member};

fn member(name: &str, value: Json) -> Member {
    Member { name: name.to_string(), value }
}

#[test]
fn parse_reads_every_kind_of_value() {
    let text = br#"{"n":null,"t":true,"i":42,"s":"text","a":[1,false],"o":{"k":0}}"#;
    let json = parse(text).unwrap();
    assert_eq!(
        json,
        Json::Object(vec![
            member("a", Json::Array(vec![Json::Number(Some(1)), Json::Bool(false)])),
            member("i", Json::Number(Some(42))),
            member("n", Json::Null),
            member("o", Json::Object(vec![member("k", Json::Number(Some(0)))])),
            member("s", Json::Text("text".to_string())),
            member("t", Json::Bool(true)),
        ])
    );
}

#[test]
fn parse_keeps_a_number_only_as_an_unsigned_integer() {
    assert_eq!(parse(b"18446744073709551615"), Some(Json::Number(Some(u64::MAX))));
    assert_eq!(parse(b"0"), Some(Json::Number(Some(0))));
    assert_eq!(parse(b"-3"), Some(Json::Number(None)));
    assert_eq!(parse(b"2.0"), Some(Json::Number(None)));
    assert_eq!(parse(b"1e3"), Some(Json::Number(None)));
    assert_eq!(parse(b"18446744073709551616"), Some(Json::Number(None)));
}

#[test]
fn parse_rejects_what_is_no_document() {
    assert_eq!(parse(b""), None);
    assert_eq!(parse(b"{"), None);
    assert_eq!(parse(b"{} {}"), None);
    assert_eq!(parse(b"{'a':1}"), None);
    assert_eq!(parse(&[0xff, 0xfe]), None);
    assert_eq!(parse(b"  [ ]\n"), Some(Json::Array(vec![])));
}

#[test]
fn parse_keeps_the_last_of_two_members_with_one_name() {
    assert_eq!(
        parse(br#"{"a":1,"a":2}"#),
        Some(Json::Object(vec![member("a", Json::Number(Some(2)))]))
    );
}

#[test]
fn get_finds_the_first_member_of_that_name() {
    let object = Json::Object(vec![
        member("x", Json::Number(Some(1))),
        member("y", Json::Null),
        member("x", Json::Number(Some(2))),
    ]);
    assert_eq!(object.get("x"), Some(&Json::Number(Some(1))));
    assert_eq!(object.get("y"), Some(&Json::Null));
    assert_eq!(object.get("z"), None);
    assert_eq!(object.get(""), None);
}

#[test]
fn get_finds_nothing_in_what_is_no_object() {
    assert_eq!(Json::Null.get("x"), None);
    assert_eq!(Json::Array(vec![Json::Text("x".to_string())]).get("x"), None);
    assert_eq!(Json::Text("x".to_string()).get("x"), None);
    assert_eq!(Json::Object(vec![]).get("x"), None);
}
