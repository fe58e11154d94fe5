use seven_solver::board::Board;
use seven_solver::dictionary::Dictionary;

fn rows(r: &[&str]) -> Vec<String> {
    r.iter().map(|s| s.to_string()).collect()
}

#[test]
fn test_board_stacks_rows_bottom_up() {
    let b = Board::from_letter_rows(&rows(&["AAAAAAA", "pickles"]), "20240101".to_string());

    // The last fetched row is the bottom row of every column.
    assert_eq!(b.get(0, 0), Some('p'));
    assert_eq!(b.get(6, 0), Some('s'));
    // The first fetched row sits one slot above, lowercased.
    assert_eq!(b.get(0, 1), Some('a'));
    // Slots above the fetched rows are blanks.
    assert_eq!(b.get(0, 2), Some(' '));
    assert_eq!(b.date, "20240101");
    assert_eq!(b.score, 700);
    assert!(b.words.is_empty());
}

#[test]
fn test_get_above_grid_is_none() {
    let b = Board::from_letter_rows(&rows(&["pickles"]), "20240102".to_string());

    assert_eq!(b.get(3, 7), None);
    assert_eq!(b.get(3, 100), None);
}

#[test]
fn test_find_words_reads_bottom_row() {
    let list: Vec<String> = ["pickles", "monster"].iter().map(|s| s.to_string()).collect();
    let dict = Dictionary::new(&list, 7);
    let mut b = Board::from_letter_rows(&rows(&["csiplek"]), "20240103".to_string());

    assert_eq!(b.find_words(&dict), vec!["pickles"]);
}

#[test]
fn test_find_words_empty_when_nothing_matches() {
    let list: Vec<String> = ["pickles"].iter().map(|s| s.to_string()).collect();
    let dict = Dictionary::new(&list, 7);
    let mut b = Board::from_letter_rows(&rows(&["zzzzzzz"]), "20240104".to_string());

    assert!(b.find_words(&dict).is_empty());
}
