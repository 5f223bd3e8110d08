use sudoku::text::{parse_board, render_board, ParseError};

const S1_FILE: &str = "530070000\n600195000\n098000060\n800060003\n400803001\n700020006\n060000280\n000419005\n000080079\n";

#[test]
fn parse_reads_nine_lines_of_digits() {
    let board = parse_board(S1_FILE).unwrap();
    assert_eq!(board.len(), 81);
    assert_eq!(&board[0..9], &[5, 3, 0, 0, 7, 0, 0, 0, 0]);
    assert_eq!(board[80], 9);
}

#[test]
fn parse_skips_any_whitespace() {
    let spaced = S1_FILE.replace("0", "0 ").replace("\n", "\r\n\t");
    assert_eq!(parse_board(&spaced), parse_board(S1_FILE));
    let unicode = S1_FILE.replace("\n", "\u{3000}");
    assert_eq!(parse_board(&unicode), parse_board(S1_FILE));
}

#[test]
fn parse_rejects_other_characters() {
    let bad = S1_FILE.replacen("7", "x", 1);
    assert_eq!(parse_board(&bad), Err(ParseError::InvalidChar('x')));
    let dotted = format!(".{}a", S1_FILE);
    assert_eq!(parse_board(&dotted), Err(ParseError::InvalidChar('.')));
}

#[test]
fn parse_rejects_wrong_digit_count() {
    assert_eq!(parse_board(""), Err(ParseError::WrongCount(0)));
    let short = &S1_FILE[..S1_FILE.len() - 2];
    assert_eq!(parse_board(short), Err(ParseError::WrongCount(80)));
    let long = format!("{}1", S1_FILE);
    assert_eq!(parse_board(&long), Err(ParseError::WrongCount(82)));
}

#[test]
fn render_matches_the_printed_layout() {
    let board = parse_board(S1_FILE).unwrap();
    let text = render_board(&board);
    let lines: Vec<&str> = text.split('\n').collect();
    assert_eq!(lines.len(), 12);
    assert_eq!(lines[0], "5 3 0  | 0 7 0  | 0 0 0 ");
    assert_eq!(lines[3], "-------------------------");
    assert_eq!(lines[4], "8 0 0  | 0 6 0  | 0 0 3 ");
    assert_eq!(lines[11], "");
    assert!(text.ends_with("0 0 0  | 0 8 0  | 0 7 9 \n"));
}

#[test]
fn render_then_parse_round_trips() {
    let board = parse_board(S1_FILE).unwrap();
    let text = render_board(&board).replace('|', " ").replace('-', " ");
    assert_eq!(parse_board(&text).unwrap(), board);
}
