use tetris::highscore::{
    highscore_file_contents, line_to_slice, parse_highscores_and_lines, slice_to_string,
    u32_to_string, update_vec,
};

#[test]
fn renders_numbers_in_decimal() {
    assert_eq!(u32_to_string(0), "0");
    assert_eq!(u32_to_string(7), "7");
    assert_eq!(u32_to_string(1234), "1234");
    assert_eq!(u32_to_string(u32::MAX), "4294967295");
}

#[test]
fn renders_joined_lists() {
    assert_eq!(slice_to_string(&[]), "");
    assert_eq!(slice_to_string(&[42]), "42");
    assert_eq!(slice_to_string(&[12, 5, 7]), "12 5 7");
}

#[test]
fn file_contents_have_two_lines() {
    assert_eq!(highscore_file_contents(&[100], &[5]), "100\n5\n");
    assert_eq!(highscore_file_contents(&[], &[]), "\n\n");
}

#[test]
fn parses_tokens_leniently() {
    assert_eq!(line_to_slice("12 34"), vec![12, 34]);
    assert_eq!(line_to_slice("12 x 7"), vec![12, 7]);
    assert_eq!(line_to_slice("+5 007"), vec![5, 7]);
    assert_eq!(line_to_slice(""), Vec::<u32>::new());
    assert_eq!(line_to_slice("   "), Vec::<u32>::new());
    assert_eq!(line_to_slice("4294967295 4294967296"), vec![4294967295]);
    assert_eq!(line_to_slice("99999999999999999999"), Vec::<u32>::new());
}

#[test]
fn parses_saved_contents() {
    let (scores, counts) = parse_highscores_and_lines("10 20\n3 4").unwrap();
    assert_eq!(scores, vec![10, 20]);
    assert_eq!(counts, vec![3, 4]);
    assert!(parse_highscores_and_lines("no newline").is_none());
    assert!(parse_highscores_and_lines("").is_none());
}

#[test]
fn second_line_ends_at_next_newline() {
    let (scores, counts) = parse_highscores_and_lines("10\n5\n").unwrap();
    assert_eq!(scores, vec![10]);
    assert_eq!(counts, vec![5]);
    let (scores, counts) = parse_highscores_and_lines("10\n5\n99 ignored").unwrap();
    assert_eq!(scores, vec![10]);
    assert_eq!(counts, vec![5]);
}

#[test]
fn save_then_load_round_trips() {
    let contents = highscore_file_contents(&[100, 200, 4294967295], &[3, 4]);
    let (scores, counts) = parse_highscores_and_lines(&contents).unwrap();
    assert_eq!(scores, vec![100, 200, 4294967295]);
    assert_eq!(counts, vec![3, 4]);
    let contents = highscore_file_contents(&[0], &[]);
    let (scores, counts) = parse_highscores_and_lines(&contents).unwrap();
    assert_eq!(scores, vec![0]);
    assert_eq!(counts, Vec::<u32>::new());
}

#[test]
fn first_session_becomes_the_table() {
    let mut scores: Vec<u32> = Vec::new();
    assert!(update_vec(&mut scores, 100));
    assert_eq!(scores, vec![100]);
    let mut counts: Vec<u32> = Vec::new();
    assert!(update_vec(&mut counts, 7));
    assert_eq!(highscore_file_contents(&scores, &counts), "100\n7\n");
}

#[test]
fn table_keeps_top_five() {
    let mut table = vec![10, 20, 30, 40, 50];
    assert!(update_vec(&mut table, 35));
    assert_eq!(table, vec![20, 30, 35, 40, 50]);
    assert!(!update_vec(&mut table, 5));
    assert_eq!(table, vec![20, 30, 35, 40, 50]);
}

#[test]
fn short_table_inserts_sorted() {
    let mut table = vec![3, 1];
    assert!(update_vec(&mut table, 2));
    assert_eq!(table, vec![1, 2, 3]);
}
