use avian::{Edit, EditAction, Editor};

fn insert(rev: u32, pos: usize, text: &str) -> Edit {
    Edit { pos, rev, action: EditAction::Insert(text.to_string()) }
}

fn delete(rev: u32, pos: usize, len: usize) -> Edit {
    Edit { pos, rev, action: EditAction::Delete(len) }
}

#[test]
fn single_client() -> Result<(), &'static str> {
    let mut editor = Editor::new();
    assert_eq!(editor.connect(0u32), (0, String::new()));
    let edit = Edit {
        rev: 0,
        pos: 0,
        action: EditAction::Insert("This is a test.".to_string()),
    };
    assert_eq!(editor.edit(0, edit)?.rev, 1);
    assert_eq!(editor.buffer(), "This is a test.");
    let edit = Edit {
        rev: 1,
        pos: "This is a te".len(),
        action: EditAction::Delete(1),
    };
    assert_eq!(editor.edit(0, edit)?.rev, 2);
    let edit = Edit {
        rev: 2,
        pos: "This is a te".len(),
        action: EditAction::Insert("x".to_string()),
    };
    assert_eq!(editor.edit(0, edit)?.rev, 3);
    assert_eq!(editor.buffer(), "This is a text.");
    let edit = Edit {
        rev: 3,
        pos: 0,
        action: EditAction::Delete("This is ".len()),
    };
    assert_eq!(editor.edit(0, edit)?.rev, 4);
    assert_eq!(editor.buffer(), "a text.");
    Ok(())
}

#[test]
fn two_clients() {
    let mut editor = Editor::new();

    assert_eq!(editor.connect(0u32), (0, String::new()));
    let edit = Edit {
        rev: 0,
        pos: 0,
        action: EditAction::Insert("This is a test.".to_string()),
    };
    assert_eq!(editor.edit(0, edit).unwrap().rev, 1);

    assert_eq!(editor.connect(1), (1, "This is a test.".to_string()));

    let edit = Edit {
        rev: 1,
        pos: "This is ".len(),
        action: EditAction::Insert("not ".to_string()),
    };
    assert_eq!(editor.edit(0, edit).unwrap().rev, 2);

    let edit = Edit {
        rev: 1,
        pos: "This is a te".len(),
        action: EditAction::Delete(1),
    };
    assert_eq!(editor.edit(1, edit).unwrap().rev, 3);

    let edit = Edit {
        rev: 3,
        pos: "This is not a te".len(),
        action: EditAction::Insert("x".to_string()),
    };
    assert_eq!(editor.edit(1, edit).unwrap().rev, 4);

    assert_eq!(editor.buffer(), "This is not a text.");

    let edit = Edit {
        rev: 4,
        pos: "This ".len(),
        action: EditAction::Delete("is not a ".len()),
    };
    assert_eq!(editor.edit(0, edit).unwrap().rev, 5);

    let edit = Edit {
        rev: 4,
        pos: "This is not a text.".len(),
        action: EditAction::Insert("\nSo great!".to_string()),
    };
    assert_eq!(editor.edit(1, edit).unwrap().rev, 6);

    assert_eq!(editor.buffer(), "This text.\nSo great!");
}

#[test]
fn new_editor_is_empty_at_revision_zero() {
    let editor: Editor<u32> = Editor::new();
    assert_eq!(editor.status(), (0, String::new()));
    assert_eq!(editor.buffer(), "");
}

#[test]
fn rebased_edit_comes_back_where_it_was_applied() {
    let mut editor = Editor::new();
    editor.connect(0u32);
    editor.edit(0, insert(0, 0, "This is a test.")).unwrap();
    editor.connect(1);
    editor.edit(0, insert(1, 8, "not ")).unwrap();
    let applied = editor.edit(1, delete(1, 12, 1)).unwrap();
    assert_eq!(applied.pos, 16);
    assert_eq!(applied.rev, 3);
    assert!(matches!(applied.action, EditAction::Delete(1)));
    assert_eq!(editor.buffer(), "This is not a tet.");
}

#[test]
fn every_applied_edit_makes_the_next_revision() {
    let mut editor = Editor::new();
    editor.connect(7u32);
    for round in 0..20u32 {
        let before = editor.status().0;
        assert_eq!(before, round);
        let applied = editor.edit(7, insert(before, 0, "x")).unwrap();
        assert_eq!(applied.rev, before + 1);
        assert_eq!(editor.status().0, before + 1);
    }
    assert_eq!(editor.buffer(), "x".repeat(20));
}

#[test]
fn refused_edit_changes_nothing() {
    let mut editor = Editor::new();
    editor.connect(0u32);
    editor.connect(1);
    editor.edit(0, insert(0, 0, "héllo")).unwrap();
    let before = editor.status();

    assert_eq!(editor.edit(1, insert(2, 0, "x")).unwrap_err(), "future revision");
    assert_eq!(editor.status(), before);
    assert_eq!(editor.edit(1, insert(1, 2, "x")).unwrap_err(), "invalid index");
    assert_eq!(editor.status(), before);
    assert_eq!(editor.edit(1, insert(1, 7, "x")).unwrap_err(), "invalid index");
    assert_eq!(editor.edit(1, delete(1, 0, 0)).unwrap_err(), "invalid index");
    assert_eq!(editor.edit(1, delete(1, 0, 2)).unwrap_err(), "invalid index");
    assert_eq!(editor.edit(1, delete(1, 3, 4)).unwrap_err(), "invalid index");
    assert_eq!(editor.edit(1, delete(1, 3, usize::MAX)).unwrap_err(), "invalid index");
    assert_eq!(editor.edit(1, delete(1, usize::MAX, 1)).unwrap_err(), "invalid index");
    assert_eq!(editor.status(), before);
    // the refused edits have not told the editor what client 1 has seen: its
    // base, revision 0, is still remembered
    assert_eq!(editor.edit(1, insert(0, 0, "x")).unwrap_err(), "not implemented");
    assert_eq!(editor.status(), before);
    assert_eq!(editor.edit(1, delete(1, 0, 1)).unwrap().rev, 2);
    assert_eq!(editor.buffer(), "éllo");
}

#[test]
fn overlap_is_refused_and_changes_nothing() {
    let mut editor = Editor::new();
    editor.connect(0u32);
    editor.connect(1);
    editor.edit(0, insert(0, 0, "abcdef")).unwrap();
    // an insert at position 3 that client 1 has not seen
    editor.edit(0, insert(1, 3, "XYZ")).unwrap();
    let before = editor.status();
    assert_eq!(before, (2, "abcXYZdef".to_string()));
    assert_eq!(editor.edit(1, insert(1, 3, "!")).unwrap_err(), "not implemented");
    assert_eq!(editor.edit(1, delete(1, 3, 1)).unwrap_err(), "not implemented");
    assert_eq!(editor.status(), before);
    // behind the insert the edit is moved, before it the edit stays
    assert_eq!(editor.edit(1, insert(1, 4, "!")).unwrap().pos, 7);
    assert_eq!(editor.buffer(), "abcXYZd!ef");
}

#[test]
fn stale_revision_is_refused_once_the_history_is_trimmed() {
    let mut editor = Editor::new();
    editor.connect(0u32);
    for round in 0..5 {
        editor.edit(0, insert(round, 0, "x")).unwrap();
    }
    assert_eq!(editor.status().0, 5);
    // the only client has acknowledged revision 4
    assert_eq!(editor.edit(0, insert(0, 0, "y")).unwrap_err(), "old revision");
    assert_eq!(editor.edit(0, insert(3, 0, "y")).unwrap_err(), "old revision");
    assert_eq!(editor.status(), (5, "xxxxx".to_string()));
    assert_eq!(editor.edit(0, insert(4, 5, "y")).unwrap_err(), "invalid index");
    assert_eq!(editor.edit(0, insert(4, 4, "y")).unwrap().pos, 5);
    assert_eq!(editor.status(), (6, "xxxxxy".to_string()));
}

#[test]
fn history_is_kept_for_the_client_that_has_seen_least() {
    let mut editor = Editor::new();
    editor.connect(0u32);
    editor.edit(0, insert(0, 0, "a")).unwrap();
    editor.connect(1);
    // client 1 stays at revision 1 while client 0 goes on
    for round in 1..6 {
        editor.edit(0, insert(round, round as usize, "b")).unwrap();
    }
    assert_eq!(editor.status(), (6, "abbbbb".to_string()));
    // revision 1 is still a base: 1 -> 6 over five inserts before it
    assert_eq!(editor.edit(1, insert(1, 1, "c")).unwrap_err(), "not implemented");
    assert_eq!(editor.edit(1, delete(1, 0, 1)).unwrap().rev, 7);
    // now both have acknowledged revision 1 or later, but client 1 only 1
    assert_eq!(editor.edit(0, insert(0, 0, "z")).unwrap_err(), "old revision");
    // client 1 catches up, client 0 has acknowledged 5: the history begins there
    assert_eq!(editor.edit(1, insert(7, 0, "c")).unwrap().rev, 8);
    assert_eq!(editor.edit(1, insert(4, 0, "z")).unwrap_err(), "old revision");
    assert_eq!(editor.edit(1, insert(5, 5, "d")).unwrap_err(), "not implemented");
    let applied = editor.edit(1, insert(5, 4, "d")).unwrap();
    assert_eq!((applied.rev, applied.pos), (9, 4));
    assert_eq!(editor.buffer(), "cbbbdbb");
}

#[test]
fn disconnect_lets_the_history_go() {
    let mut editor = Editor::new();
    editor.connect(0u32);
    editor.edit(0, insert(0, 0, "a")).unwrap();
    editor.connect(1);
    editor.edit(0, insert(1, 1, "b")).unwrap();
    editor.edit(0, insert(2, 2, "c")).unwrap();
    // client 1 holds revision 1; once it is gone, client 0 holds revision 2
    editor.disconnect(&1);
    assert_eq!(editor.status(), (3, "abc".to_string()));
    assert_eq!(editor.edit(5, insert(1, 0, "x")).unwrap_err(), "old revision");
    assert_eq!(editor.edit(5, insert(2, 3, "x")).unwrap_err(), "invalid index");
    assert_eq!(editor.edit(5, insert(2, 2, "x")).unwrap_err(), "not implemented");
    assert_eq!(editor.edit(5, insert(2, 1, "x")).unwrap().pos, 1);
    // with nobody left, the history begins at the current revision
    editor.disconnect(&0);
    editor.disconnect(&5);
    assert_eq!(editor.status(), (4, "axbc".to_string()));
    assert_eq!(editor.edit(9, insert(3, 0, "y")).unwrap_err(), "old revision");
    assert_eq!(editor.edit(9, insert(4, 0, "y")).unwrap().rev, 5);
}

#[test]
fn connect_then_disconnect_leaves_the_text() {
    let mut editor = Editor::new();
    editor.connect(0u32);
    editor.edit(0, insert(0, 0, "text")).unwrap();
    let before = editor.status();
    assert_eq!(editor.connect(1), before);
    editor.disconnect(&1);
    assert_eq!(editor.status(), before);
    assert_eq!(editor.buffer(), "text");
    // and client 0 goes on as before
    assert_eq!(editor.edit(0, insert(1, 4, "!")).unwrap().rev, 2);
}

#[test]
fn disconnect_of_an_unknown_client_is_harmless() {
    let mut editor = Editor::new();
    editor.connect(0u32);
    editor.edit(0, insert(0, 0, "text")).unwrap();
    editor.disconnect(&42);
    editor.disconnect(&42);
    assert_eq!(editor.status(), (1, "text".to_string()));
    assert_eq!(editor.edit(0, insert(1, 0, "a ")).unwrap().rev, 2);
}

#[test]
fn connect_twice_overwrites_the_acknowledgement() {
    let mut editor = Editor::new();
    assert_eq!(editor.connect(0u32), (0, String::new()));
    editor.edit(0, insert(0, 0, "a")).unwrap();
    editor.edit(0, insert(1, 1, "b")).unwrap();
    assert_eq!(editor.connect(0), (2, "ab".to_string()));
    // the client has acknowledged revision 2 now; an edit trims the history to it
    editor.edit(0, insert(2, 2, "c")).unwrap();
    assert_eq!(editor.edit(0, insert(1, 0, "x")).unwrap_err(), "old revision");
}

#[test]
fn edit_of_an_unconnected_client_connects_it() {
    let mut editor = Editor::new();
    assert_eq!(editor.edit(3u32, insert(0, 0, "hi")).unwrap().rev, 1);
    assert_eq!(editor.edit(4, insert(1, 2, "!")).unwrap().rev, 2);
    // client 3 holds revision 0
    assert_eq!(editor.edit(5, insert(0, 5, "x")).unwrap_err(), "invalid index");
    editor.disconnect(&3);
    assert_eq!(editor.edit(5, insert(0, 5, "x")).unwrap_err(), "old revision");
}

#[test]
fn text_identities_work_with_any_hashable_id() {
    let mut editor: Editor<(u8, bool)> = Editor::new();
    assert_eq!(editor.connect((1, true)), (0, String::new()));
    assert_eq!(editor.edit((1, true), insert(0, 0, "ä")).unwrap().rev, 1);
    assert_eq!(editor.edit((1, false), insert(1, 1, "x")).unwrap_err(), "invalid index");
    assert_eq!(editor.edit((1, false), insert(1, 2, "x")).unwrap().rev, 2);
    assert_eq!(editor.buffer(), "äx");
}

#[test]
fn ordinary_edits_are_within_limits() {
    let mut editor = Editor::new();
    editor.connect(0u32);
    let edit = insert(0, 0, "text");
    assert!(editor.within_limits(&edit));
    editor.edit(0, edit).unwrap();
    assert!(editor.within_limits(&delete(1, 0, 4)));
}
