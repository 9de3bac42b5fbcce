use kvs::{Command, KVStoreError};
use std::collections::BTreeMap;

fn set(k: &str, v: &str) -> Command {
    Command::SET(k.to_string(), v.to_string())
}

#[test]
fn set_command_prints_as_json_object() {
    assert_eq!(set("key1", "value1").serialize(), b"{\"SET\":[\"key1\",\"value1\"]}".to_vec());
}

#[test]
fn rm_command_prints_as_json_object() {
    assert_eq!(Command::RM("key1".to_string()).serialize(), b"{\"RM\":\"key1\"}".to_vec());
}

#[test]
fn printing_matches_serde_json_on_the_same_shape() {
    let mut set_map = BTreeMap::new();
    set_map.insert("SET", ("a\"b\\c\n", "\u{1F600}\u{7}"));
    let expected = serde_json::to_vec(&set_map).unwrap();
    assert_eq!(set("a\"b\\c\n", "\u{1F600}\u{7}").serialize(), expected);
    let mut rm_map = BTreeMap::new();
    rm_map.insert("RM", "x y");
    assert_eq!(Command::RM("x y".to_string()).serialize(), serde_json::to_vec(&rm_map).unwrap());
}

#[test]
fn escaped_strings_round_trip() {
    let c = set("quote\" back\\slash", "tab\tnl\nnul\u{0}é");
    let bytes = c.serialize();
    match Command::parse(&bytes) {
        Ok(Command::SET(k, v)) => {
            assert_eq!(k, "quote\" back\\slash");
            assert_eq!(v, "tab\tnl\nnul\u{0}é");
        }
        other => panic!("unexpected {:?}", other),
    }
}

#[test]
fn rm_round_trips() {
    let bytes = Command::RM("gone".to_string()).serialize();
    match Command::parse(&bytes) {
        Ok(Command::RM(k)) => assert_eq!(k, "gone"),
        other => panic!("unexpected {:?}", other),
    }
}

#[test]
fn whitespace_between_tokens_is_accepted() {
    let text = b" \n{ \"SET\" :\t[ \"a\" ,\r\n \"b\" ] }  ";
    match Command::parse(text) {
        Ok(Command::SET(k, v)) => {
            assert_eq!(k, "a");
            assert_eq!(v, "b");
        }
        other => panic!("unexpected {:?}", other),
    }
}

#[test]
fn escapes_in_the_tag_are_read() {
    match Command::parse(b"{\"\\u0052M\":\"k\"}") {
        Ok(Command::RM(k)) => assert_eq!(k, "k"),
        other => panic!("unexpected {:?}", other),
    }
}

#[test]
fn unicode_escapes_in_values_are_decoded() {
    match Command::parse(b"{\"SET\":[\"\\u0041\",\"\\ud83d\\ude00\"]}") {
        Ok(Command::SET(k, v)) => {
            assert_eq!(k, "A");
            assert_eq!(v, "\u{1F600}");
        }
        other => panic!("unexpected {:?}", other),
    }
}

#[test]
fn malformed_records_are_serde_errors() {
    let cases: Vec<&[u8]> = vec![
        b"",
        b"   ",
        b"{}",
        b"{\"GET\":\"k\"}",
        b"{\"SET\":[\"a\"]}",
        b"{\"SET\":[\"a\",\"b\",\"c\"]}",
        b"{\"SET\":\"a\"}",
        b"{\"RM\":[\"a\"]}",
        b"{\"RM\":\"a\"",
        b"{\"RM\":\"a}",
        b"{\"RM\":\"a\"} x",
        b"{\"RM\":\"a\"}{\"RM\":\"b\"}",
        b"{\"RM\":\"\\q\"}",
        b"{\"RM\":\"\xff\"}",
    ];
    for case in cases {
        assert!(
            matches!(Command::parse(case), Err(KVStoreError::SerdeError(_))),
            "accepted {:?}",
            String::from_utf8_lossy(case)
        );
    }
}

#[test]
fn serde_error_message_is_serdes_own_text() {
    match Command::parse(b"{\"RM\":\"\\q\"}") {
        Err(e) => assert!(!e.message().is_empty()),
        Ok(_) => panic!("accepted a bad escape"),
    }
}
