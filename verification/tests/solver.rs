use wordgrid::board::Board;
use wordgrid::point::Point;
use wordgrid::trie::SpellingTrie;

fn board_from(rows: [&str; 5]) -> Board {
    let rows: Vec<Vec<char>> = rows.iter().map(|r| r.chars().collect()).collect();
    Board::from_rows(rows).expect("each test grid is 5x5")
}

#[test]
fn empty() {
    let trie = SpellingTrie::new();

    assert!(!trie.contains_word("hi"));
    assert!(!trie.contains_prefix("hi"));
}

#[test]
fn does_contain_word() {
    let trie = SpellingTrie::from_vec(vec!["hi"]);
    assert!(trie.contains_word("hi"));
}

#[test]
fn does_not_contain_word() {
    let trie = SpellingTrie::from_vec(vec!["hi"]);
    assert!(!trie.contains_word("bye"));
}

#[test]
fn does_contain_prefix() {
    let trie = SpellingTrie::from_vec(vec!["hello"]);
    assert!(trie.contains_prefix("he"));
}

#[test]
fn does_not_contain_prefix() {
    let trie = SpellingTrie::from_vec(vec!["hello"]);
    assert!(!trie.contains_prefix("be"));
}

#[test]
fn does_contain_prefix_equals_word() {
    let trie = SpellingTrie::from_vec(vec!["he"]);
    assert!(trie.contains_prefix("he"));
}

#[test]
fn every_prefix_of_inserted_word_is_reported() {
    let trie = SpellingTrie::from_vec(vec!["cats"]);
    assert!(trie.contains_word("cats"));
    assert!(trie.contains_prefix("c"));
    assert!(trie.contains_prefix("ca"));
    assert!(trie.contains_prefix("cat"));
    assert!(trie.contains_prefix("cats"));
    assert!(!trie.contains_word("cat"));
}

#[test]
fn lookups_are_case_insensitive() {
    let mut trie = SpellingTrie::new();
    trie.add_word("Hello");
    assert!(trie.contains_word("hello"));
    assert!(trie.contains_word("HELLO"));
    assert!(trie.contains_prefix("hEl"));
}

#[test]
fn unshared_string_is_never_a_prefix() {
    let trie = SpellingTrie::from_vec(vec!["mouse", "moose"]);
    assert!(!trie.contains_prefix("house"));
    assert!(!trie.contains_prefix("h"));
}

#[test]
fn pruning_is_monotone() {
    let trie = SpellingTrie::from_vec(vec!["mouse"]);
    assert!(!trie.contains_prefix("xy"));
    assert!(!trie.contains_prefix("xyz"));
    assert!(!trie.contains_prefix("xyzz"));
}

#[test]
fn empty_string_is_a_prefix_of_anything_stored() {
    let trie = SpellingTrie::new();
    assert!(trie.contains_prefix(""));
    assert!(!trie.contains_word(""));
}

#[test]
fn neighbor_counts_by_position() {
    let corner = Point::new(0, 0).neighbors();
    assert_eq!(corner.len(), 3);
    let edge = Point::new(0, 2).neighbors();
    assert_eq!(edge.len(), 5);
    let interior = Point::new(2, 2).neighbors();
    assert_eq!(interior.len(), 8);
    assert!(!interior.contains(&Point::new(2, 2)));
    assert!(interior.contains(&Point::new(1, 1)));
    assert!(interior.contains(&Point::new(3, 3)));
}

#[test]
fn bounded_steps_clip_at_the_edges() {
    assert_eq!(Point::before_bounded(0), 0);
    assert_eq!(Point::before_bounded(3), 2);
    assert_eq!(Point::after_bounded(4), 4);
    assert_eq!(Point::after_bounded(1), 2);
}

#[test]
fn from_rows_rejects_wrong_shapes() {
    let four_rows: Vec<Vec<char>> = vec![vec!['a'; 5]; 4];
    assert!(Board::from_rows(four_rows).is_none());
    let mut short_row: Vec<Vec<char>> = vec![vec!['a'; 5]; 5];
    short_row[2] = vec!['a'; 4];
    assert!(Board::from_rows(short_row).is_none());
}

#[test]
fn word_at_expands_every_tile_code() {
    let board = board_from(["12345", "6xxxx", "xxxxx", "xxxxx", "xxxxx"]);
    let path = vec![
        Point::new(0, 0),
        Point::new(0, 1),
        Point::new(0, 2),
        Point::new(0, 3),
        Point::new(0, 4),
        Point::new(1, 0),
        Point::new(1, 1),
    ];
    assert_eq!(board.word_at(&path), "ANERHEINQUTHx");
}

#[test]
fn found_words_are_sorted_and_deduplicated() {
    // "tape" traces twice (two e tiles) but is reported once; "apes" ties
    // "tape" in length and comes first lexicographically; "tapes" is longer
    // and comes last.
    let dict = SpellingTrie::from_vec(vec!["tape", "apes", "tapes"]);
    let board = board_from(["tapex", "xxxes", "xxxxx", "xxxxx", "xxxxx"]);
    let words = board.valid_words(&dict);
    assert_eq!(words, vec!["apes".to_string(), "tape".to_string(), "tapes".to_string()]);
}

#[test]
fn short_words_are_not_reported() {
    let dict = SpellingTrie::from_vec(vec!["cat", "cats", "at"]);
    let board = board_from(["catsx", "xxxxx", "xxxxx", "xxxxx", "xxxxx"]);
    let words = board.valid_words(&dict);
    assert_eq!(words, vec!["cats".to_string()]);
    assert_eq!(Board::score(words), 1);
}

#[test]
fn paths_never_reuse_a_tile() {
    // "noon" needs two n tiles and two o tiles; with only one of each the
    // word cannot be traced, and with both it can.
    let dict = SpellingTrie::from_vec(vec!["noon"]);
    let too_few = board_from(["noxxx", "xxxxx", "xxxxx", "xxxxx", "xxxxx"]);
    assert!(too_few.valid_words(&dict).is_empty());
    let enough = board_from(["noxxx", "onxxx", "xxxxx", "xxxxx", "xxxxx"]);
    assert_eq!(enough.valid_words(&dict), vec!["noon".to_string()]);
}

#[test]
fn tile_code_traces_queen() {
    let dict = SpellingTrie::from_vec(vec!["queen"]);
    let board = board_from(["5EENx", "xxxxx", "xxxxx", "xxxxx", "xxxxx"]);
    let words = board.valid_words(&dict);
    assert_eq!(words, vec!["QUEEN".to_string()]);
    assert_eq!(Board::score(words), 2);
}

#[test]
fn empty_dictionary_finds_nothing() {
    let dict = SpellingTrie::new();
    let board = board_from(["abcde", "fghij", "klmno", "pqrst", "uvwxy"]);
    let words = board.valid_words(&dict);
    assert!(words.is_empty());
    assert_eq!(Board::score(words), 0);
}

#[test]
fn empty_dictionary_entries_are_harmless() {
    let dict = SpellingTrie::from_vec(vec![""]);
    assert!(dict.contains_word(""));
    let board = board_from(["abcde", "fghij", "klmno", "pqrst", "uvwxy"]);
    assert!(board.valid_words(&dict).is_empty());
}

#[test]
fn scores_follow_the_length_buckets() {
    assert_eq!(Board::score_word("tap".to_string()), 0);
    assert_eq!(Board::score_word("tape".to_string()), 1);
    assert_eq!(Board::score_word("tapes".to_string()), 2);
    assert_eq!(Board::score_word("retape".to_string()), 3);
    assert_eq!(Board::score_word("retapes".to_string()), 5);
    assert_eq!(Board::score_word("retaping".to_string()), 11);
    assert_eq!(Board::score_word("retapings".to_string()), 11);
    let list = vec![
        "abcd".to_string(),
        "abcde".to_string(),
        "abcdef".to_string(),
        "abcdefg".to_string(),
        "abcdefgh".to_string(),
        "abcdefghi".to_string(),
    ];
    assert_eq!(Board::score(list), 1 + 2 + 3 + 5 + 11 + 11);
}

#[test]
fn blank_board_holds_no_words() {
    let board = Board::new();
    let dict = SpellingTrie::from_vec(vec!["word"]);
    assert!(board.valid_words(&dict).is_empty());
}
