use avian::PieceTable;

#[test]
fn pt_insert() {
    let mut pt = PieceTable::new();
    pt.insert(0, "Hello");
    pt.insert(5, "!");
    assert_eq!("Hello!", pt.to_string());
    pt.insert(5, "World");
    pt.insert(5, " ");
    assert_eq!("Hello World!", pt.to_string());
}

#[test]
fn pt_delete() {
    let mut pt = PieceTable::from("the quick brown fox jumps over the lazy dog");
    pt.delete(3, 1); // remove space before quick
    pt.delete(8, 1); // split between quick and brown
    pt.delete(4, 10); // remove "quick brown"
    pt.delete(0, 4); // remove "the "
    assert_eq!("fox jumps over the lazy dog", pt.to_string());
    // delete all spaces.
    pt.delete(23, 1);
    pt.delete(18, 1);
    pt.delete(14, 1);
    pt.delete(9, 1);
    pt.delete(3, 1);
    // delete entire string, except for "fo" and "g"
    pt.delete(2, 19);
    assert_eq!("fog", pt.to_string());
}

#[test]
fn pt_valid_index() {
    assert!(PieceTable::new().valid_index(0));
    let pt = PieceTable::from("Hello!");
    for i in 0..=("Hello!".len()) {
        assert!(pt.valid_index(i));
    }
    assert!(!pt.valid_index(7));
    let pt = PieceTable::from("ä");
    assert_eq!("ä".len(), 2);
    assert!(pt.valid_index(0));
    assert!(pt.valid_index(2));
    assert!(!pt.valid_index(1));
}

#[test]
fn new_table_is_one_empty_piece() {
    let pt = PieceTable::new();
    assert_eq!(pt.piece_count(), 1);
    assert_eq!(pt.buffer(), "");
    assert_eq!(pt.render(), "");
    assert!(pt.valid_index(0));
    assert!(!pt.valid_index(1));
}

#[test]
fn from_text_is_one_piece_over_the_text() {
    let pt = PieceTable::from("héllo");
    assert_eq!(pt.piece_count(), 1);
    assert_eq!(pt.buffer(), "héllo");
    assert_eq!(pt.render(), "héllo");
    assert_eq!(pt.piece_index(6), Some((0, 6)));
    assert_eq!(pt.piece_index(7), None);
}

#[test]
fn insert_at_end_of_last_insertion_extends_the_piece() {
    let mut pt = PieceTable::new();
    pt.insert(0, "abc");
    assert_eq!(pt.piece_count(), 1);
    pt.insert(3, "def");
    assert_eq!(pt.piece_count(), 1);
    assert_eq!(pt.render(), "abcdef");
    assert_eq!(pt.buffer(), "abcdef");
}

#[test]
fn insert_at_end_of_a_piece_adds_one_piece() {
    let mut pt = PieceTable::from("abcdef");
    pt.insert(3, "X");
    assert_eq!(pt.piece_count(), 3);
    // position 4 is the end of the piece that holds X, which does not end the buffer
    // any more once more text is stored
    pt.insert(7, "YZ");
    assert_eq!(pt.render(), "abcXdefYZ");
    assert_eq!(pt.piece_count(), 4);
    pt.insert(4, "-");
    assert_eq!(pt.render(), "abcX-defYZ");
    assert_eq!(pt.piece_count(), 5);
    assert_eq!(pt.buffer(), "abcdefXYZ-");
}

#[test]
fn insert_inside_a_piece_splits_it() {
    let mut pt = PieceTable::from("abcdef");
    assert_eq!(pt.piece_count(), 1);
    pt.insert(2, "XY");
    assert_eq!(pt.piece_count(), 3);
    assert_eq!(pt.render(), "abXYcdef");
    assert_eq!(pt.piece_index(2), Some((0, 2)));
    assert_eq!(pt.piece_index(3), Some((1, 4)));
    assert_eq!(pt.piece_index(4), Some((1, 4)));
    assert_eq!(pt.piece_index(5), Some((2, 8)));
    assert_eq!(pt.piece_index(8), Some((2, 8)));
    assert_eq!(pt.piece_index(9), None);
}

#[test]
fn lookups_differ_at_the_end_of_a_piece() {
    let mut pt = PieceTable::from("abcdef");
    pt.insert(2, "XY");
    assert_eq!(pt.piece_index(2), Some((0, 2)));
    assert_eq!(pt.piece_index_del(2), Some((1, 4)));
    assert_eq!(pt.piece_index(0), Some((0, 2)));
    assert_eq!(pt.piece_index_del(0), Some((0, 2)));
    assert_eq!(pt.piece_index(8), Some((2, 8)));
    assert_eq!(pt.piece_index_del(8), None);
    assert_eq!(pt.piece_index_del(7), Some((2, 8)));
}

#[test]
fn insert_of_nothing_keeps_the_text() {
    let mut pt = PieceTable::from("abc");
    pt.insert(1, "");
    assert_eq!(pt.render(), "abc");
    pt.insert(3, "");
    assert_eq!(pt.render(), "abc");
    pt.delete(0, 3);
    assert_eq!(pt.render(), "");
    assert!(pt.piece_count() >= 1);
}

#[test]
fn delete_whole_piece() {
    let mut pt = PieceTable::from("abcdef");
    pt.insert(3, "XY");
    assert_eq!(pt.piece_count(), 3);
    pt.delete(3, 2);
    assert_eq!(pt.piece_count(), 2);
    assert_eq!(pt.render(), "abcdef");
    pt.delete(0, 3);
    assert_eq!(pt.piece_count(), 1);
    assert_eq!(pt.render(), "def");
    pt.delete(0, 3);
    assert_eq!(pt.piece_count(), 1);
    assert_eq!(pt.render(), "");
}

#[test]
fn delete_at_start_of_piece() {
    let mut pt = PieceTable::from("abcdef");
    pt.delete(0, 2);
    assert_eq!(pt.piece_count(), 1);
    assert_eq!(pt.render(), "cdef");
    assert_eq!(pt.piece_index(4), Some((0, 4)));
}

#[test]
fn delete_at_end_of_piece() {
    let mut pt = PieceTable::from("abcdef");
    pt.delete(4, 2);
    assert_eq!(pt.piece_count(), 1);
    assert_eq!(pt.render(), "abcd");
}

#[test]
fn delete_in_the_middle_splits_the_piece() {
    let mut pt = PieceTable::from("abcdef");
    pt.delete(2, 2);
    assert_eq!(pt.piece_count(), 2);
    assert_eq!(pt.render(), "abef");
    assert_eq!(pt.piece_index(2), Some((0, 2)));
    assert_eq!(pt.piece_index(3), Some((1, 4)));
}

#[test]
fn delete_across_pieces() {
    let mut pt = PieceTable::from("abc");
    pt.insert(1, "12");
    pt.insert(5, "xyz");
    assert_eq!(pt.render(), "a12bcxyz");
    // from inside the first piece to inside the last
    pt.delete(2, 5);
    assert_eq!(pt.render(), "a1z");
    // from the start of a piece over the rest
    pt.delete(0, 3);
    assert_eq!(pt.render(), "");
    assert_eq!(pt.piece_count(), 1);
    assert!(pt.valid_index(0));
    assert!(!pt.valid_index(1));
}

#[test]
fn delete_everything_then_insert_again() {
    let mut pt = PieceTable::from("abc");
    pt.delete(0, 3);
    assert_eq!(pt.piece_count(), 1);
    pt.insert(0, "new");
    assert_eq!(pt.render(), "new");
    assert_eq!(pt.buffer(), "abcnew");
}

#[test]
fn piece_list_is_never_empty() {
    let mut pt = PieceTable::new();
    assert!(pt.piece_count() >= 1);
    pt.insert(0, "one");
    assert!(pt.piece_count() >= 1);
    pt.delete(0, 3);
    assert!(pt.piece_count() >= 1);
    pt.insert(0, "two");
    pt.insert(1, "2");
    assert!(pt.piece_count() >= 1);
    pt.delete(1, 2);
    assert!(pt.piece_count() >= 1);
    pt.delete(0, 2);
    assert!(pt.piece_count() >= 1);
    assert_eq!(pt.render(), "");
}

#[test]
fn buffer_only_grows() {
    let mut pt = PieceTable::from("abc");
    let mut seen = pt.buffer().to_string();
    pt.insert(1, "xy");
    assert!(pt.buffer().starts_with(&seen));
    assert_eq!(pt.buffer().len(), seen.len() + 2);
    seen = pt.buffer().to_string();
    pt.delete(0, 4);
    assert_eq!(pt.buffer(), seen);
    pt.insert(1, "ö");
    assert!(pt.buffer().starts_with(&seen));
    assert_eq!(pt.buffer(), "abcxyö");
    seen = pt.buffer().to_string();
    pt.delete(0, 3);
    assert_eq!(pt.buffer(), seen);
}

#[test]
fn render_matches_a_plain_string() {
    let words = ["a", "bc", "ä", "", "€uro", "xyz", "𝄞"];
    let mut pt = PieceTable::new();
    let mut plain = String::new();
    let mut seed: u32 = 12345;
    for round in 0..400 {
        seed = seed.wrapping_mul(1664525).wrapping_add(1013904223);
        let mut pos = (seed >> 8) as usize % (plain.len() + 1);
        while !plain.is_char_boundary(pos) {
            pos -= 1;
        }
        if round % 3 != 2 || plain.len() == pos {
            let word = words[(seed >> 4) as usize % words.len()];
            assert!(pt.valid_index(pos));
            assert!(pt.has_room(word));
            pt.insert(pos, word);
            plain.insert_str(pos, word);
        } else {
            let mut end = pos + 1 + (seed >> 16) as usize % 6;
            if end > plain.len() {
                end = plain.len();
            }
            while !plain.is_char_boundary(end) {
                end += 1;
            }
            assert!(pt.valid_index(pos) && pt.valid_index(end));
            pt.delete(pos, end - pos);
            plain.replace_range(pos..end, "");
        }
        assert_eq!(pt.render(), plain);
        assert!(pt.piece_count() >= 1);
        for i in 0..plain.len() + 3 {
            assert_eq!(pt.valid_index(i), i <= plain.len() && plain.is_char_boundary(i));
        }
    }
}

#[test]
fn valid_index_is_in_range_and_not_inside_a_character() {
    let mut pt = PieceTable::from("a€b");
    pt.insert(4, "𝄞");
    let text = pt.render();
    assert_eq!(text, "a€𝄞b");
    let bytes = text.as_bytes();
    for pos in 0..bytes.len() + 4 {
        let expected = pos <= bytes.len() && (pos == bytes.len() || (bytes[pos] & 0xC0) != 0x80);
        assert_eq!(pt.valid_index(pos), expected);
    }
    assert!(pt.valid_index(0));
    assert!(pt.valid_index(1));
    assert!(!pt.valid_index(2));
    assert!(!pt.valid_index(3));
    assert!(pt.valid_index(4));
    assert!(!pt.valid_index(5));
    assert!(pt.valid_index(8));
    assert!(pt.valid_index(9));
    assert!(!pt.valid_index(10));
    assert!(!pt.valid_index(usize::MAX));
}

#[test]
fn insert_then_delete_restores_the_text() {
    let mut pt = PieceTable::from("a€b");
    pt.insert(1, "x");
    let before = pt.render();
    let profile: Vec<bool> = (0..12).map(|i| pt.valid_index(i)).collect();
    for pos in [0usize, 1, 2, 5, 6] {
        for word in ["q", "ä𝄞", "long text"] {
            pt.insert(pos, word);
            assert!(pt.valid_index(pos));
            assert!(pt.valid_index(pos + word.len()));
            pt.delete(pos, word.len());
            assert_eq!(pt.render(), before);
            let after: Vec<bool> = (0..12).map(|i| pt.valid_index(i)).collect();
            assert_eq!(after, profile);
        }
    }
}

#[test]
fn has_room_for_ordinary_text() {
    let pt = PieceTable::from("abc");
    assert!(pt.has_room(""));
    assert!(pt.has_room("more text"));
}

#[test]
fn empty_check_adds_nothing_to_a_table_with_pieces() {
    let mut pt = PieceTable::from("abc");
    pt.empty_check();
    assert_eq!(pt.piece_count(), 1);
    assert_eq!(pt.render(), "abc");
}

#[test]
fn from_an_owned_string() {
    let mut pt = PieceTable::from(String::from("owned"));
    assert_eq!(pt.render(), "owned");
    assert_eq!(pt.piece_count(), 1);
    pt.insert(5, "!");
    assert_eq!(pt.to_string(), "owned!");
}
