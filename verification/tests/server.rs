use avian::client::Message;
use avian::server::{replies, route, same_text, Route, Target};
use avian::{Edit, EditAction, Editor};

#[test]
fn routes() {
    assert_eq!(route("/"), Route::Page);
    assert_eq!(route("/editor.js"), Route::Script);
    assert_eq!(route("/ws"), Route::Socket);
    assert_eq!(route(""), Route::Missing);
    assert_eq!(route("/ws/"), Route::Missing);
    assert_eq!(route("/editor"), Route::Missing);
    assert_eq!(route("/index.html"), Route::Missing);
    assert_eq!(route("ws"), Route::Missing);
    assert_eq!(route("/WS"), Route::Missing);
}

#[test]
fn same_text_compares_the_whole_text() {
    assert!(same_text("", ""));
    assert!(same_text("abc", "abc"));
    assert!(same_text("äö", "äö"));
    assert!(!same_text("abc", "abd"));
    assert!(!same_text("abc", "ab"));
    assert!(!same_text("ab", "abc"));
    assert!(!same_text("", "a"));
    assert!(!same_text("ä", "a"));
}

#[test]
fn applied_edit_is_confirmed_and_told_to_everyone() {
    let edit = Edit { pos: 2, rev: 5, action: EditAction::Insert("x".to_string()) };
    let out = replies(Ok(edit));
    assert_eq!(out.len(), 2);
    assert_eq!(out[0].0, Target::Sender);
    assert!(matches!(out[0].1, Message::Verdict(true, ref reason) if reason.is_empty()));
    assert_eq!(out[1].0, Target::Everyone);
    assert!(matches!(
        out[1].1,
        Message::Applied(Edit { pos: 2, rev: 5, action: EditAction::Insert(ref text) }) if text == "x"
    ));
}

#[test]
fn refused_edit_is_told_to_the_sender_alone() {
    let out = replies(Err("invalid json"));
    assert_eq!(out.len(), 1);
    assert_eq!(out[0].0, Target::Sender);
    assert!(matches!(out[0].1, Message::Verdict(false, ref reason) if reason == "invalid json"));
}

#[test]
fn replies_to_what_the_editor_says() {
    let mut editor = Editor::new();
    editor.connect(1u32);
    let edit = Edit { pos: 1, rev: 0, action: EditAction::Delete(1) };
    let out = replies(editor.edit(1, edit));
    assert_eq!(out.len(), 1);
    assert!(matches!(out[0].1, Message::Verdict(false, ref reason) if reason == "invalid index"));
    let edit = Edit { pos: 0, rev: 0, action: EditAction::Insert("a".to_string()) };
    let out = replies(editor.edit(1, edit));
    assert_eq!(out.len(), 2);
    assert!(matches!(out[1].1, Message::Applied(Edit { pos: 0, rev: 1, .. })));
}
