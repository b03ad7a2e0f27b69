use piece_table::{EditError, Piece, PieceTable, Source};

fn piece(source: Source, start: usize, length: usize) -> Piece {
    Piece { source, start, length }
}

#[test]
fn basics() {
    let mut pt = PieceTable::new("the quick brown fox\njumped over the lazy dog");

    assert_eq!(pt.insert(20, "went to the park and\n"), Ok(()));

    assert_eq!(
        "the quick brown fox\nwent to the park and\njumped over the lazy dog",
        &pt.edited_string()
    );
    assert_eq!(pt.len(), 44 + 21);
}

#[test]
fn insert_delete_insert_scenario() {
    let mut pt = PieceTable::new("abc");
    assert_eq!(pt.insert(3, "def"), Ok(()));
    assert_eq!(pt.edited_string(), "abcdef");
    assert_eq!(pt.delete(0, 3), Ok(()));
    assert_eq!(pt.edited_string(), "def");
    assert_eq!(pt.insert(0, "X"), Ok(()));
    assert_eq!(pt.edited_string(), "Xdef");
    assert_eq!(pt.len(), 4);
}

#[test]
fn load_reads_back_the_text() {
    for text in ["", "a", "abc", "two\nlines\n", "h\u{e9}llo \u{1F600}"] {
        let pt = PieceTable::new(text);
        assert_eq!(pt.edited_string(), text);
        assert_eq!(pt.len(), text.chars().count());
        assert_eq!(pt.read(0, pt.len()), Ok(text.to_string()));
    }
}

#[test]
fn loaded_table_has_one_piece_or_none() {
    let pt = PieceTable::new("abc");
    assert_eq!(pt.pieces(), &vec![piece(Source::Original, 0, 3)]);
    let empty = PieceTable::new("");
    assert!(empty.pieces().is_empty());
    assert_eq!(empty.len(), 0);
}

#[test]
fn insert_into_empty_document() {
    let mut pt = PieceTable::new("");
    assert_eq!(pt.insert(0, "hi"), Ok(()));
    assert_eq!(pt.edited_string(), "hi");
    assert_eq!(pt.pieces(), &vec![piece(Source::Added, 0, 2)]);
}

#[test]
fn empty_insert_changes_nothing() {
    let mut pt = PieceTable::new("hello");
    pt.insert(2, "XY").unwrap();
    let pieces = pt.pieces().clone();
    for position in 0..=7 {
        assert_eq!(pt.insert(position, ""), Ok(()));
        assert_eq!(pt.edited_string(), "heXYllo");
        assert_eq!(pt.len(), 7);
        assert_eq!(pt.pieces(), &pieces);
    }
}

#[test]
fn empty_delete_changes_nothing() {
    let mut pt = PieceTable::new("hello");
    pt.insert(2, "XY").unwrap();
    let pieces = pt.pieces().clone();
    for position in 0..=7 {
        assert_eq!(pt.delete(position, 0), Ok(()));
        assert_eq!(pt.edited_string(), "heXYllo");
        assert_eq!(pt.len(), 7);
        assert_eq!(pt.pieces(), &pieces);
    }
}

#[test]
fn insert_then_delete_restores_text() {
    let base = "the quick brown fox";
    for position in 0..=base.len() {
        for text in ["", "x", "inserted text"] {
            let mut pt = PieceTable::new(base);
            pt.insert(4, "very ").unwrap();
            pt.delete(0, 2).unwrap();
            let before = pt.edited_string();
            let len = pt.len();
            if position <= len {
                assert_eq!(pt.insert(position, text), Ok(()));
                assert_eq!(pt.len(), len + text.len());
                assert_eq!(pt.delete(position, text.len()), Ok(()));
                assert_eq!(pt.edited_string(), before);
                assert_eq!(pt.len(), len);
            }
        }
    }
}

#[test]
fn interior_insert_splits_the_piece() {
    let mut pt = PieceTable::new("abcdef");
    assert_eq!(pt.insert(2, "XY"), Ok(()));
    assert_eq!(
        pt.pieces(),
        &vec![
            piece(Source::Original, 0, 2),
            piece(Source::Added, 0, 2),
            piece(Source::Original, 2, 4),
        ]
    );
    assert_eq!(pt.pieces()[0].length + pt.pieces()[2].length, 6);
    assert_eq!(pt.edited_string(), "abXYcdef");
}

#[test]
fn boundary_insert_splits_nothing() {
    let mut pt = PieceTable::new("abcdef");
    pt.insert(2, "XY").unwrap();
    // On the boundary between the added piece and the right half.
    assert_eq!(pt.insert(4, "Q"), Ok(()));
    assert_eq!(
        pt.pieces(),
        &vec![
            piece(Source::Original, 0, 2),
            piece(Source::Added, 0, 2),
            piece(Source::Added, 2, 1),
            piece(Source::Original, 2, 4),
        ]
    );
    // At the very start and at the very end.
    assert_eq!(pt.insert(0, "<"), Ok(()));
    assert_eq!(pt.insert(10, ">"), Ok(()));
    assert_eq!(
        pt.pieces(),
        &vec![
            piece(Source::Added, 3, 1),
            piece(Source::Original, 0, 2),
            piece(Source::Added, 0, 2),
            piece(Source::Added, 2, 1),
            piece(Source::Original, 2, 4),
            piece(Source::Added, 4, 1),
        ]
    );
    assert_eq!(pt.edited_string(), "<abXYQcdef>");
}

#[test]
fn delete_across_pieces_narrows_the_two_at_the_edges() {
    let mut pt = PieceTable::new("abcdef");
    pt.insert(3, "123").unwrap();
    pt.insert(6, "xyz").unwrap();
    // abc 123 xyz def
    assert_eq!(pt.pieces().len(), 4);
    assert_eq!(pt.delete(2, 8), Ok(()));
    assert_eq!(
        pt.pieces(),
        &vec![piece(Source::Original, 0, 2), piece(Source::Original, 4, 2)]
    );
    assert_eq!(pt.edited_string(), "abef");
    assert_eq!(pt.len(), 4);
}

#[test]
fn delete_inside_one_piece_splits_it() {
    let mut pt = PieceTable::new("abcdef");
    assert_eq!(pt.delete(2, 2), Ok(()));
    assert_eq!(
        pt.pieces(),
        &vec![piece(Source::Original, 0, 2), piece(Source::Original, 4, 2)]
    );
    assert_eq!(pt.edited_string(), "abef");
}

#[test]
fn delete_at_one_edge_narrows_from_that_edge() {
    let mut front = PieceTable::new("abcdef");
    assert_eq!(front.delete(0, 2), Ok(()));
    assert_eq!(front.pieces(), &vec![piece(Source::Original, 2, 4)]);
    assert_eq!(front.edited_string(), "cdef");

    let mut back = PieceTable::new("abcdef");
    assert_eq!(back.delete(4, 2), Ok(()));
    assert_eq!(back.pieces(), &vec![piece(Source::Original, 0, 4)]);
    assert_eq!(back.edited_string(), "abcd");
}

#[test]
fn delete_whole_pieces_drops_them() {
    let mut pt = PieceTable::new("abc");
    pt.insert(3, "123").unwrap();
    pt.insert(6, "xyz").unwrap();
    assert_eq!(pt.delete(3, 3), Ok(()));
    assert_eq!(
        pt.pieces(),
        &vec![piece(Source::Original, 0, 3), piece(Source::Added, 3, 3)]
    );
    assert_eq!(pt.edited_string(), "abcxyz");
    assert_eq!(pt.delete(0, 6), Ok(()));
    assert!(pt.pieces().is_empty());
    assert_eq!(pt.edited_string(), "");
    assert_eq!(pt.len(), 0);
}

#[test]
fn no_piece_is_ever_empty() {
    let mut pt = PieceTable::new("abcdef");
    pt.insert(0, "12").unwrap();
    pt.insert(8, "34").unwrap();
    pt.insert(4, "56").unwrap();
    pt.delete(0, 2).unwrap();
    pt.delete(2, 2).unwrap();
    pt.delete(6, 2).unwrap();
    pt.delete(1, 3).unwrap();
    assert!(pt.pieces().iter().all(|p| p.length > 0));
    let sum: usize = pt.pieces().iter().map(|p| p.length).sum();
    assert_eq!(sum, pt.len());
    assert_eq!(pt.edited_string().chars().count(), pt.len());
}

#[test]
fn insert_beyond_the_end_is_out_of_bounds() {
    let mut pt = PieceTable::new("abc");
    assert_eq!(pt.insert(4, "x"), Err(EditError::OutOfBounds));
    assert_eq!(pt.insert(4, ""), Err(EditError::OutOfBounds));
    assert_eq!(pt.insert(usize::MAX, "x"), Err(EditError::OutOfBounds));
    assert_eq!(pt.edited_string(), "abc");
    assert_eq!(pt.pieces(), &vec![piece(Source::Original, 0, 3)]);
}

#[test]
fn delete_beyond_the_end_is_refused() {
    let mut pt = PieceTable::new("abc");
    assert_eq!(pt.delete(4, 0), Err(EditError::OutOfBounds));
    assert_eq!(pt.delete(4, 1), Err(EditError::OutOfBounds));
    assert_eq!(pt.delete(3, 1), Err(EditError::InvalidRange));
    assert_eq!(pt.delete(1, 3), Err(EditError::InvalidRange));
    assert_eq!(pt.delete(1, usize::MAX), Err(EditError::InvalidRange));
    assert_eq!(pt.delete(3, 0), Ok(()));
    assert_eq!(pt.edited_string(), "abc");
    assert_eq!(pt.len(), 3);
}

#[test]
fn bad_code_points_are_refused_before_anything_is_stored() {
    let mut pt = PieceTable::new("abc");
    assert_eq!(
        pt.insert_code_points(1, &[0x68, 0xD800, 0x69]),
        Err(EditError::EncodingError)
    );
    assert_eq!(
        pt.insert_code_points(1, &[0x110000]),
        Err(EditError::EncodingError)
    );
    assert_eq!(pt.insert_code_points(4, &[0xD800]), Err(EditError::OutOfBounds));
    assert_eq!(pt.edited_string(), "abc");
    assert_eq!(pt.pieces(), &vec![piece(Source::Original, 0, 3)]);
    // Nothing reached the added store: the next insertion starts at 0.
    assert_eq!(pt.insert(1, "Z"), Ok(()));
    assert_eq!(pt.pieces()[1], piece(Source::Added, 0, 1));
}

#[test]
fn code_points_are_inserted_as_text() {
    let mut pt = PieceTable::new("abc");
    assert_eq!(pt.insert_code_points(1, &[0x68, 0xE9, 0x1F600, 0xD7FF, 0xE000, 0x10FFFF]), Ok(()));
    assert_eq!(pt.edited_string(), "ah\u{e9}\u{1F600}\u{D7FF}\u{E000}\u{10FFFF}bc");
    assert_eq!(pt.len(), 9);
    assert_eq!(pt.insert_code_points(0, &[]), Ok(()));
    assert_eq!(pt.len(), 9);
}

#[test]
fn positions_count_code_points() {
    let mut pt = PieceTable::new("h\u{e9}llo");
    assert_eq!(pt.len(), 5);
    assert_eq!(pt.insert(2, "\u{1F600}"), Ok(()));
    assert_eq!(pt.edited_string(), "h\u{e9}\u{1F600}llo");
    assert_eq!(pt.delete(1, 2), Ok(()));
    assert_eq!(pt.edited_string(), "hllo");
    assert_eq!(pt.len(), 4);
}

#[test]
fn read_gives_the_range() {
    let mut pt = PieceTable::new("abcdef");
    pt.insert(3, "123").unwrap();
    pt.insert(6, "xyz").unwrap();
    let whole = "abc123xyzdef";
    for start in 0..=whole.len() {
        for end in start..=whole.len() {
            assert_eq!(pt.read(start, end), Ok(whole[start..end].to_string()));
        }
    }
    assert_eq!(pt.read(2, 10), Ok("c123xyzd".to_string()));
}

#[test]
fn read_outside_the_document_is_refused() {
    let pt = PieceTable::new("abc");
    assert_eq!(pt.read(4, 4), Err(EditError::OutOfBounds));
    assert_eq!(pt.read(4, 2), Err(EditError::OutOfBounds));
    assert_eq!(pt.read(2, 1), Err(EditError::InvalidRange));
    assert_eq!(pt.read(2, 4), Err(EditError::InvalidRange));
    assert_eq!(pt.read(3, 3), Ok(String::new()));
    let empty = PieceTable::new("");
    assert_eq!(empty.read(0, 0), Ok(String::new()));
}

#[test]
fn read_does_not_change_the_table() {
    let mut pt = PieceTable::new("abcdef");
    pt.insert(3, "123").unwrap();
    let pieces = pt.pieces().clone();
    assert_eq!(pt.read(1, 8), Ok("bc123de".to_string()));
    assert_eq!(pt.read(1, 8), Ok("bc123de".to_string()));
    assert_eq!(pt.pieces(), &pieces);
    assert_eq!(pt.edited_string(), "abc123def");
}

#[test]
fn char_at_gives_each_code_point() {
    let mut pt = PieceTable::new("abcdef");
    pt.insert(3, "1\u{e9}3").unwrap();
    let whole: Vec<char> = "abc1\u{e9}3def".chars().collect();
    for (i, c) in whole.iter().enumerate() {
        assert_eq!(pt.char_at(i), Some(*c));
    }
    assert_eq!(pt.char_at(whole.len()), None);
    assert_eq!(pt.char_at(usize::MAX), None);
    assert_eq!(PieceTable::new("").char_at(0), None);
}

#[test]
fn earlier_pieces_survive_later_insertions() {
    let mut pt = PieceTable::new("ab");
    pt.insert(1, "first").unwrap();
    let first = pt.pieces()[1];
    pt.insert(7, "second").unwrap();
    pt.insert(0, "third").unwrap();
    assert!(pt.pieces().contains(&first));
    assert_eq!(pt.edited_string(), "thirdafirstbsecond");
}
