use mla::FilePosition;
use mla::Token;
use mla::TokenBuilder;
use mla::TokenType;

#[test]
fn builder_token_builder_1() {
    let mut token_builder = TokenBuilder::new("something.file".to_string(), "id := [x] x");

    assert_eq!(
        token_builder.get_token_stream(),
        Ok(vec![
            Token::new(
                FilePosition::new("something.file".to_string(), 0, 0),
                TokenType::Ident("id".to_string())
            ),
            Token::new(
                FilePosition::new("something.file".to_string(), 0, 3),
                TokenType::Assign
            ),
            Token::new(
                FilePosition::new("something.file".to_string(), 0, 6),
                TokenType::LeftBracket
            ),
            Token::new(
                FilePosition::new("something.file".to_string(), 0, 7),
                TokenType::Ident("x".to_string())
            ),
            Token::new(
                FilePosition::new("something.file".to_string(), 0, 8),
                TokenType::RightBracket
            ),
            Token::new(
                FilePosition::new("something.file".to_string(), 0, 10),
                TokenType::Ident("x".to_string())
            )
        ])
    );
}

#[test]
fn builder_token_builder_2() {
    let mut token_builder =
        TokenBuilder::new("something.file".to_string(), "inc := map\n\t([x] add x 1)");

    assert_eq!(
        token_builder.get_token_stream(),
        Ok(vec![
            Token::new(
                FilePosition::new("something.file".to_string(), 0, 0),
                TokenType::Ident("inc".to_string())
            ),
            Token::new(
                FilePosition::new("something.file".to_string(), 0, 4),
                TokenType::Assign
            ),
            Token::new(
                FilePosition::new("something.file".to_string(), 0, 7),
                TokenType::Ident("map".to_string())
            ),
            Token::new(
                FilePosition::new("something.file".to_string(), 1, 1),
                TokenType::LeftParen
            ),
            Token::new(
                FilePosition::new("something.file".to_string(), 1, 2),
                TokenType::LeftBracket
            ),
            Token::new(
                FilePosition::new("something.file".to_string(), 1, 3),
                TokenType::Ident("x".to_string())
            ),
            Token::new(
                FilePosition::new("something.file".to_string(), 1, 4),
                TokenType::RightBracket
            ),
            Token::new(
                FilePosition::new("something.file".to_string(), 1, 6),
                TokenType::Ident("add".to_string())
            ),
            Token::new(
                FilePosition::new("something.file".to_string(), 1, 10),
                TokenType::Ident("x".to_string())
            ),
            Token::new(
                FilePosition::new("something.file".to_string(), 1, 12),
                TokenType::NaturalNumber(1)
            ),
            Token::new(
                FilePosition::new("something.file".to_string(), 1, 13),
                TokenType::RightParen
            ),
        ])
    );
}

#[test]
fn lib_token_builder_1() {
    let mut token_builder = TokenBuilder::new("something.file".to_string(), "id := [x] x");

    assert_eq!(
        token_builder.get_token_stream(),
        Ok(vec![
            Token::new(
                FilePosition::new("something.file".to_string(), 0, 0),
                TokenType::Ident("id".to_string())
            ),
            Token::new(
                FilePosition::new("something.file".to_string(), 0, 3),
                TokenType::Assign
            ),
            Token::new(
                FilePosition::new("something.file".to_string(), 0, 6),
                TokenType::LeftBracket
            ),
            Token::new(
                FilePosition::new("something.file".to_string(), 0, 7),
                TokenType::Ident("x".to_string())
            ),
            Token::new(
                FilePosition::new("something.file".to_string(), 0, 8),
                TokenType::RightBracket
            ),
            Token::new(
                FilePosition::new("something.file".to_string(), 0, 10),
                TokenType::Ident("x".to_string())
            )
        ])
    );
}

#[test]
fn lib_token_builder_2() {
    let mut token_builder =
        TokenBuilder::new("something.file".to_string(), "inc := map\n\t([x] add x 1)");

    assert_eq!(
        token_builder.get_token_stream(),
        Ok(vec![
            Token::new(
                FilePosition::new("something.file".to_string(), 0, 0),
                TokenType::Ident("inc".to_string())
            ),
            Token::new(
                FilePosition::new("something.file".to_string(), 0, 4),
                TokenType::Assign
            ),
            Token::new(
                FilePosition::new("something.file".to_string(), 0, 7),
                TokenType::Ident("map".to_string())
            ),
            Token::new(
                FilePosition::new("something.file".to_string(), 1, 1),
                TokenType::LeftParen
            ),
            Token::new(
                FilePosition::new("something.file".to_string(), 1, 2),
                TokenType::LeftBracket
            ),
            Token::new(
                FilePosition::new("something.file".to_string(), 1, 3),
                TokenType::Ident("x".to_string())
            ),
            Token::new(
                FilePosition::new("something.file".to_string(), 1, 4),
                TokenType::RightBracket
            ),
            Token::new(
                FilePosition::new("something.file".to_string(), 1, 6),
                TokenType::Ident("add".to_string())
            ),
            Token::new(
                FilePosition::new("something.file".to_string(), 1, 10),
                TokenType::Ident("x".to_string())
            ),
            Token::new(
                FilePosition::new("something.file".to_string(), 1, 12),
                TokenType::NaturalNumber(1)
            ),
            Token::new(
                FilePosition::new("something.file".to_string(), 1, 13),
                TokenType::RightParen
            ),
        ])
    );
}

#[test]
fn token_1() {
    let token = Token::new(
        FilePosition::new("something.file".to_string(), 5, 2),
        TokenType::Ident("everything".to_string()),
    );

    assert_eq!(token.len(), 10);
}
