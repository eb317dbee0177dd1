use mla::CharStream;
use mla::FilePosition;
use mla::LexError;
use mla::LexErrorKind;
use mla::Token;
use mla::TokenBuilder;
use mla::TokenType;

fn pos(line: u32, offset: u32) -> FilePosition {
    FilePosition::new("f".to_string(), line, offset)
}

fn scan(text: &str) -> Result<Vec<Token>, LexError> {
    let mut builder = TokenBuilder::new("f".to_string(), text);
    builder.get_token_stream()
}

#[test]
fn rescan_is_idempotent() {
    let first = scan("id := [x] x");
    let second = scan("id := [x] x");
    assert_eq!(first, second);
    let first_err = scan("id := @");
    let second_err = scan("id := @");
    assert_eq!(first_err, second_err);
}

#[test]
fn empty_input_gives_no_tokens() {
    assert_eq!(scan(""), Ok(vec![]));
}

#[test]
fn whitespace_only_gives_no_tokens() {
    assert_eq!(scan(" \t\n  "), Ok(vec![]));
}

#[test]
fn lone_colon_is_malformed_assignment() {
    assert_eq!(
        scan(":"),
        Err(LexError { position: pos(0, 0), kind: LexErrorKind::MalformedAssignment })
    );
}

#[test]
fn colon_without_equals_is_malformed_assignment() {
    assert_eq!(
        scan("x :y"),
        Err(LexError { position: pos(0, 2), kind: LexErrorKind::MalformedAssignment })
    );
}

#[test]
fn lone_assign_scans() {
    assert_eq!(scan(":="), Ok(vec![Token::new(pos(0, 0), TokenType::Assign)]));
}

#[test]
fn unrecognized_character_is_reported_at_its_position() {
    assert_eq!(
        scan("@"),
        Err(LexError { position: pos(0, 0), kind: LexErrorKind::UnrecognizedCharacter })
    );
    assert_eq!(
        scan("ab _"),
        Err(LexError { position: pos(0, 3), kind: LexErrorKind::UnrecognizedCharacter })
    );
}

#[test]
fn leading_zeros_parse_to_their_value() {
    assert_eq!(
        scan("42 007"),
        Ok(vec![
            Token::new(pos(0, 0), TokenType::NaturalNumber(42)),
            Token::new(pos(0, 3), TokenType::NaturalNumber(7)),
        ])
    );
}

#[test]
fn largest_number_scans_and_one_more_overflows() {
    assert_eq!(
        scan("4294967295"),
        Ok(vec![Token::new(pos(0, 0), TokenType::NaturalNumber(u32::MAX))])
    );
    assert_eq!(
        scan("4294967296"),
        Err(LexError { position: pos(0, 0), kind: LexErrorKind::NumericOverflow })
    );
    assert_eq!(
        scan("x 99999999999999999999"),
        Err(LexError { position: pos(0, 2), kind: LexErrorKind::NumericOverflow })
    );
}

#[test]
fn identifier_scan_is_greedy_and_stops_at_class_boundary() {
    assert_eq!(
        scan("abc123 x9"),
        Ok(vec![
            Token::new(pos(0, 0), TokenType::Ident("abc123".to_string())),
            Token::new(pos(0, 7), TokenType::Ident("x9".to_string())),
        ])
    );
    // the bracket after the run is not consumed by the identifier scan
    assert_eq!(
        scan("ab]"),
        Ok(vec![
            Token::new(pos(0, 0), TokenType::Ident("ab".to_string())),
            Token::new(pos(0, 2), TokenType::RightBracket),
        ])
    );
}

#[test]
fn number_scan_is_greedy_and_stops_at_class_boundary() {
    assert_eq!(
        scan("12(34"),
        Ok(vec![
            Token::new(pos(0, 0), TokenType::NaturalNumber(12)),
            Token::new(pos(0, 2), TokenType::LeftParen),
            Token::new(pos(0, 3), TokenType::NaturalNumber(34)),
        ])
    );
}

#[test]
fn newlines_advance_lines_and_reset_offsets() {
    assert_eq!(
        scan("a\nb\n  c"),
        Ok(vec![
            Token::new(pos(0, 0), TokenType::Ident("a".to_string())),
            Token::new(pos(1, 0), TokenType::Ident("b".to_string())),
            Token::new(pos(2, 2), TokenType::Ident("c".to_string())),
        ])
    );
}

#[test]
fn positions_strictly_increase() {
    let tokens = scan("one 2 [three]\n(:= four)").unwrap();
    for pair in tokens.windows(2) {
        let a = &pair[0].position;
        let b = &pair[1].position;
        assert!(a.line < b.line || (a.line == b.line && a.offset < b.offset));
    }
}

#[test]
fn token_lengths_follow_their_kind() {
    assert_eq!(Token::new(pos(0, 0), TokenType::Ident("everything".to_string())).len(), 10);
    assert_eq!(Token::new(pos(0, 0), TokenType::NaturalNumber(0)).len(), 1);
    assert_eq!(Token::new(pos(0, 0), TokenType::NaturalNumber(7)).len(), 1);
    assert_eq!(Token::new(pos(0, 0), TokenType::NaturalNumber(42)).len(), 2);
    assert_eq!(Token::new(pos(0, 0), TokenType::NaturalNumber(1000)).len(), 4);
    assert_eq!(Token::new(pos(0, 0), TokenType::NaturalNumber(u32::MAX)).len(), 10);
    assert_eq!(Token::new(pos(0, 0), TokenType::Assign).len(), 2);
    assert_eq!(Token::new(pos(0, 0), TokenType::LeftBracket).len(), 1);
    assert_eq!(Token::new(pos(0, 0), TokenType::RightBracket).len(), 1);
    assert_eq!(Token::new(pos(0, 0), TokenType::LeftParen).len(), 1);
    assert_eq!(Token::new(pos(0, 0), TokenType::RightParen).len(), 1);
    assert_eq!(Token::new(pos(0, 0), TokenType::EOF).len(), 0);
}

#[test]
fn leading_zeros_keep_the_anchor_of_the_first_digit() {
    assert_eq!(scan("007"), Ok(vec![Token::new(pos(0, 0), TokenType::NaturalNumber(7))]));
}

#[test]
fn move_to_newline_bumps_line_and_resets_offset() {
    let mut position = FilePosition::new("f".to_string(), 3, 17);
    position.move_to_newline();
    assert_eq!(position, pos(4, 0));
}

#[test]
fn char_stream_tracks_positions_across_newlines() {
    let mut stream = CharStream::new("f".to_string(), "a\nb");
    assert_eq!(stream.peek(), Some('a'));
    assert_eq!(stream.advance(), Some((pos(0, 0), 'a')));
    assert_eq!(stream.advance(), Some((pos(0, 1), '\n')));
    // the pair carries the newline's own position; later characters start
    // the next line at offset zero
    assert_eq!(stream.peek(), Some('b'));
    assert_eq!(stream.advance(), Some((pos(1, 0), 'b')));
    assert_eq!(stream.advance(), None);
    assert_eq!(stream.peek(), None);
}

#[test]
fn error_aborts_the_whole_scan_without_partial_tokens() {
    assert_eq!(
        scan("good 42 @ more"),
        Err(LexError { position: pos(0, 8), kind: LexErrorKind::UnrecognizedCharacter })
    );
}
