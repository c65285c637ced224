use pedit::editor::piece_table::{Buffer, PieceTable, PieceTableEntry, PieceTableError};

fn text(t: &PieceTable) -> String {
    t.contents().into_iter().collect()
}

fn read_all(t: &PieceTable) -> String {
    (0..t.document_length()).map(|i| t.index(i)).collect()
}

fn entry(buffer: Buffer, start_index: usize, length: usize) -> PieceTableEntry {
    PieceTableEntry { buffer, start_index, length }
}

#[test]
fn new_makes_one_original_piece() {
    let t = PieceTable::new("hello".to_string());
    assert_eq!(t.pieces().clone(), vec![entry(Buffer::Original, 0, 5)]);
    assert_eq!(t.document_length(), 5);
    assert!(t.add_buffer().is_empty());
    assert_eq!(text(&t), "hello");
}

#[test]
fn new_from_empty_text_has_no_pieces() {
    let t = PieceTable::new(String::new());
    assert!(t.pieces().is_empty());
    assert_eq!(t.document_length(), 0);
}

#[test]
fn new_counts_characters_not_bytes() {
    let t = PieceTable::new("héllo".to_string());
    assert_eq!(t.document_length(), 5);
    assert_eq!(t.index(1), 'é');
    assert_eq!(t.pieces().clone(), vec![entry(Buffer::Original, 0, 5)]);
}

#[test]
fn scenario_hello_edits() {
    let mut t = PieceTable::new("hello".to_string());
    assert_eq!(t.insert('X', 0), Ok(()));
    assert_eq!(read_all(&t), "Xhello");
    assert_eq!(t.insert('Y', 6), Ok(()));
    assert_eq!(read_all(&t), "XhelloY");
    assert_eq!(t.delete(0), Ok(()));
    assert_eq!(read_all(&t), "helloY");
    assert_eq!(t.delete(5), Ok(()));
    assert_eq!(read_all(&t), "hello");
    assert!(t.pieces().iter().all(|p| p.buffer == Buffer::Original));
    assert_eq!(t.pieces().clone(), vec![entry(Buffer::Original, 0, 5)]);
    assert_eq!(t.add_buffer().clone(), vec!['X', 'Y']);
}

#[test]
fn scenario_typing_then_delete_middle() {
    let mut t = PieceTable::new(String::new());
    t.insert('a', 0).unwrap();
    t.insert('b', 1).unwrap();
    t.insert('c', 2).unwrap();
    assert_eq!(read_all(&t), "abc");
    assert_eq!(t.pieces().clone(), vec![entry(Buffer::Add, 0, 3)]);
    t.delete(1).unwrap();
    assert_eq!(read_all(&t), "ac");
    assert_eq!(t.pieces().clone(), vec![entry(Buffer::Add, 0, 1), entry(Buffer::Add, 2, 1)]);
}

#[test]
fn delete_at_or_past_end_changes_nothing() {
    let mut t = PieceTable::new("abc".to_string());
    t.insert('x', 1).unwrap();
    let pieces = t.pieces().clone();
    let original = t.original_buffer().clone();
    let add = t.add_buffer().clone();
    let len = t.document_length();
    assert_eq!(t.delete(len), Err(PieceTableError::IndexOutOfBounds));
    assert_eq!(t.delete(len + 5), Err(PieceTableError::IndexOutOfBounds));
    assert_eq!(t.pieces().clone(), pieces);
    assert_eq!(t.original_buffer().clone(), original);
    assert_eq!(t.add_buffer().clone(), add);
}

#[test]
fn delete_on_empty_table_is_refused() {
    let mut t = PieceTable::new(String::new());
    assert_eq!(t.delete(0), Err(PieceTableError::IndexOutOfBounds));
    assert!(t.pieces().is_empty());
}

#[test]
fn insert_past_end_is_refused() {
    let mut t = PieceTable::new("ab".to_string());
    assert_eq!(t.insert('z', 7), Err(PieceTableError::IndexOutOfBounds));
    assert_eq!(text(&t), "ab");
    assert!(t.add_buffer().is_empty());
    assert_eq!(t.pieces().clone(), vec![entry(Buffer::Original, 0, 2)]);
}

#[test]
fn insert_at_end_appends() {
    let mut t = PieceTable::new("ab".to_string());
    assert_eq!(t.insert('z', 2), Ok(()));
    assert_eq!(text(&t), "abz");
    assert_eq!(t.pieces().clone(), vec![entry(Buffer::Original, 0, 2), entry(Buffer::Add, 0, 1)]);
}

#[test]
fn insert_inside_a_piece_splits_it() {
    let mut t = PieceTable::new("hello".to_string());
    t.insert('X', 2).unwrap();
    assert_eq!(text(&t), "heXllo");
    assert_eq!(
        t.pieces().clone(),
        vec![entry(Buffer::Original, 0, 2), entry(Buffer::Add, 0, 1), entry(Buffer::Original, 2, 3)]
    );
}

#[test]
fn typing_in_the_middle_coalesces() {
    let mut t = PieceTable::new("hello".to_string());
    t.insert('x', 1).unwrap();
    t.insert('y', 2).unwrap();
    t.insert('z', 3).unwrap();
    assert_eq!(text(&t), "hxyzello");
    assert_eq!(
        t.pieces().clone(),
        vec![entry(Buffer::Original, 0, 1), entry(Buffer::Add, 0, 3), entry(Buffer::Original, 1, 4)]
    );
}

#[test]
fn typing_at_end_makes_one_piece() {
    let mut t = PieceTable::new("ab".to_string());
    for (k, c) in "typing".chars().enumerate() {
        t.insert(c, 2 + k).unwrap();
    }
    assert_eq!(text(&t), "abtyping");
    assert_eq!(t.pieces().clone(), vec![entry(Buffer::Original, 0, 2), entry(Buffer::Add, 0, 6)]);
}

#[test]
fn typing_after_a_jump_does_not_coalesce() {
    let mut t = PieceTable::new(String::new());
    t.insert('a', 0).unwrap();
    t.insert('b', 0).unwrap();
    assert_eq!(text(&t), "ba");
    assert_eq!(t.pieces().clone(), vec![entry(Buffer::Add, 1, 1), entry(Buffer::Add, 0, 1)]);
}

#[test]
fn delete_first_and_last_characters_of_a_piece() {
    let mut t = PieceTable::new("hello".to_string());
    t.delete(0).unwrap();
    assert_eq!(t.pieces().clone(), vec![entry(Buffer::Original, 1, 4)]);
    t.delete(3).unwrap();
    assert_eq!(t.pieces().clone(), vec![entry(Buffer::Original, 1, 3)]);
    assert_eq!(text(&t), "ell");
}

#[test]
fn delete_inside_a_piece_splits_it() {
    let mut t = PieceTable::new("hello".to_string());
    t.delete(2).unwrap();
    assert_eq!(text(&t), "helo");
    assert_eq!(t.pieces().clone(), vec![entry(Buffer::Original, 0, 2), entry(Buffer::Original, 3, 2)]);
}

#[test]
fn index_and_get_past_end() {
    let t = PieceTable::new("ab".to_string());
    assert_eq!(t.index(0), 'a');
    assert_eq!(t.index(1), 'b');
    assert_eq!(t.index(2), ' ');
    assert_eq!(t.index(100), ' ');
    assert_eq!(t.get(1), Some('b'));
    assert_eq!(t.get(2), None);
}

#[test]
fn round_trip_against_a_plain_string() {
    let mut t = PieceTable::new(String::new());
    let mut reference: Vec<char> = Vec::new();
    let ops = [('h', 0), ('e', 1), ('o', 2), ('l', 2), ('l', 2), ('!', 5), ('[', 0), (']', 7), ('-', 3)];
    for (c, i) in ops {
        t.insert(c, i).unwrap();
        reference.insert(i, c);
        assert_eq!(read_all(&t), reference.iter().collect::<String>());
    }
    assert_eq!(read_all(&t), "[he-llo!]");
}

#[test]
fn length_follows_inserts_and_deletes() {
    let mut t = PieceTable::new("abcdef".to_string());
    t.insert('1', 3).unwrap();
    t.insert('2', 0).unwrap();
    t.insert('3', 8).unwrap();
    t.delete(5).unwrap();
    t.delete(0).unwrap();
    assert_eq!(t.document_length(), 6 + 3 - 2);
    assert_eq!(text(&t), "abc1ef3");
}

#[test]
fn no_piece_is_ever_empty() {
    let mut t = PieceTable::new("abc".to_string());
    t.insert('x', 1).unwrap();
    t.insert('y', 2).unwrap();
    t.delete(1).unwrap();
    t.delete(1).unwrap();
    t.delete(0).unwrap();
    t.insert('z', 0).unwrap();
    t.delete(2).unwrap();
    assert_eq!(text(&t), "zb");
    assert!(t.pieces().iter().all(|p| p.length > 0));
}

#[test]
fn set_rows_accepts_a_snapshot() {
    let mut t = PieceTable::new("hello".to_string());
    let snapshot = t.pieces().clone();
    t.insert('X', 2).unwrap();
    assert_eq!(text(&t), "heXllo");
    assert_eq!(t.set_rows(&snapshot), Ok(()));
    assert_eq!(text(&t), "hello");
    assert_eq!(t.add_buffer().clone(), vec!['X']);
}

#[test]
fn set_rows_refuses_invalid_pieces() {
    let mut t = PieceTable::new("hello".to_string());
    let before = t.pieces().clone();
    assert_eq!(t.set_rows(&vec![entry(Buffer::Original, 0, 0)]), Err(PieceTableError::InvalidRows));
    assert_eq!(t.set_rows(&vec![entry(Buffer::Original, 3, 3)]), Err(PieceTableError::InvalidRows));
    assert_eq!(t.set_rows(&vec![entry(Buffer::Add, 0, 1)]), Err(PieceTableError::InvalidRows));
    assert_eq!(t.pieces().clone(), before);
    assert_eq!(t.set_rows(&vec![entry(Buffer::Original, 3, 2), entry(Buffer::Original, 0, 3)]), Ok(()));
    assert_eq!(text(&t), "lohel");
}
