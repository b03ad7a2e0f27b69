use piece_table::{EditError, PieceTable};

/// A small linear congruential generator, so that every run makes the
/// same edits.
struct Rng(u64);

impl Rng {
    fn next(&mut self, bound: usize) -> usize {
        self.0 = self.0.wrapping_mul(6364136223846793005).wrapping_add(1442695040888963407);
        ((self.0 >> 33) as usize) % bound
    }
}

fn compare(pt: &PieceTable, model: &[char]) {
    let text: String = model.iter().collect();
    assert_eq!(pt.edited_string(), text);
    assert_eq!(pt.len(), model.len());
    assert!(pt.pieces().iter().all(|p| p.length > 0));
    let sum: usize = pt.pieces().iter().map(|p| p.length).sum();
    assert_eq!(sum, model.len());
}

fn run(seed: u64, start: &str, steps: usize) {
    let words = ["", "a", "bc", "\u{e9}t\u{e9}", "line\n", "\u{1F600}", "0123456789"];
    let mut rng = Rng(seed);
    let mut pt = PieceTable::new(start);
    let mut model: Vec<char> = start.chars().collect();
    compare(&pt, &model);
    for _ in 0..steps {
        if rng.next(2) == 0 {
            let position = rng.next(model.len() + 3);
            let word = words[rng.next(words.len())];
            let result = pt.insert(position, word);
            if position <= model.len() {
                assert_eq!(result, Ok(()));
                let tail = model.split_off(position);
                model.extend(word.chars());
                model.extend(tail);
            } else {
                assert_eq!(result, Err(EditError::OutOfBounds));
            }
        } else {
            let position = rng.next(model.len() + 3);
            let length = rng.next(8);
            let result = pt.delete(position, length);
            if position > model.len() {
                assert_eq!(result, Err(EditError::OutOfBounds));
            } else if position + length > model.len() {
                assert_eq!(result, Err(EditError::InvalidRange));
            } else {
                assert_eq!(result, Ok(()));
                model.drain(position..position + length);
            }
        }
        compare(&pt, &model);
        if !model.is_empty() {
            let at = rng.next(model.len());
            assert_eq!(pt.char_at(at), Some(model[at]));
            let end = at + rng.next(model.len() - at + 1);
            let want: String = model[at..end].iter().collect();
            assert_eq!(pt.read(at, end), Ok(want));
        }
    }
}

#[test]
fn random_edits_agree_with_a_plain_string() {
    run(1, "the quick brown fox\njumped over the lazy dog", 400);
    run(2, "", 400);
    run(3, "x", 400);
}

#[test]
fn a_fixed_sequence_of_edits_agrees_with_a_plain_string() {
    let mut pt = PieceTable::new("hello world");
    let mut model = String::from("hello world");
    let edits: [(bool, usize, &str, usize); 8] = [
        (true, 5, ",", 0),
        (false, 0, "", 1),
        (true, 0, "H", 0),
        (true, 12, "!", 0),
        (false, 6, "", 6),
        (true, 6, " there", 0),
        (false, 3, "", 9),
        (true, 3, "p", 0),
    ];
    for (is_insert, position, text, length) in edits {
        if is_insert {
            assert_eq!(pt.insert(position, text), Ok(()));
            model.insert_str(position, text);
        } else {
            assert_eq!(pt.delete(position, length), Ok(()));
            model.replace_range(position..position + length, "");
        }
        assert_eq!(pt.edited_string(), model);
        assert_eq!(pt.len(), model.len());
    }
    assert_eq!(pt.edited_string(), "Help!");
}
