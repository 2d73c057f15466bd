use avian::client::Message;
use avian::greeting::{read_greeting, write_greeting};

#[test]
fn greeting_is_an_array_of_revision_and_text() {
    assert_eq!(write_greeting(0, "").unwrap(), "[0,\"\"]");
    assert_eq!(write_greeting(3, "hi").unwrap(), "[3,\"hi\"]");
    assert_eq!(write_greeting(u32::MAX, "a\"b\n").unwrap(), "[4294967295,\"a\\\"b\\n\"]");
    assert_eq!(write_greeting(1, "ä€").unwrap(), "[1,\"ä€\"]");
}

#[test]
fn greeting_is_read_back() {
    assert!(matches!(read_greeting("[0,\"\"]"), Some(Message::Status(0, ref text)) if text.is_empty()));
    assert!(matches!(read_greeting("[3,\"hi\"]"), Some(Message::Status(3, ref text)) if text == "hi"));
    assert!(matches!(
        read_greeting(" [ 7 , \"a\\\"b\\n\\u00e4\" ] "),
        Some(Message::Status(7, ref text)) if text == "a\"b\nä"
    ));
    for (rev, text) in [(0u32, ""), (12, "some text"), (u32::MAX, "ä\t\"€\\𝄞")] {
        let json = write_greeting(rev, text).unwrap();
        assert!(matches!(read_greeting(&json), Some(Message::Status(r, ref t)) if r == rev && t == text));
    }
}

#[test]
fn what_is_no_greeting_is_not_read() {
    assert!(read_greeting("").is_none());
    assert!(read_greeting("hi").is_none());
    assert!(read_greeting("{}").is_none());
    assert!(read_greeting("{\"success\":true}").is_none());
    assert!(read_greeting("[3]").is_none());
    assert!(read_greeting("[\"hi\",3]").is_none());
    assert!(read_greeting("[3,\"hi\",1]").is_none());
    assert!(read_greeting("[-1,\"hi\"]").is_none());
    assert!(read_greeting("[4294967296,\"hi\"]").is_none());
    assert!(read_greeting("[3,\"hi\"] x").is_none());
    assert!(read_greeting("{\"pos\":0,\"rev\":0,\"action\":{\"Delete\":1}}").is_none());
}
