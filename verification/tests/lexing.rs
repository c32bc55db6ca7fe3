use lexer::LexError;
use lexer::Token;
use lexer::Tokenizer;

/// Scans the whole input, stopping after the first error or after `EOC`.
fn scan_all(input: &str) -> Vec<Result<Token, LexError>> {
    let mut t = Tokenizer::new(input.to_string());
    let mut out = Vec::new();
    loop {
        let r = t.next_token();
        let stop = match &r {
            Ok(tok) => *tok == Token::EOC,
            Err(_) => true,
        };
        out.push(r);
        if stop {
            return out;
        }
    }
}

fn ident(name: &str) -> Token {
    Token::Identifier(name.to_string())
}

#[test]
fn whitespace_kinds_skip_alike() {
    let bare = scan_all("x.");
    for padded in ["x.", " x.", "\tx.", "\nx.", "\rx.", "\u{000C}x.", " \t\r\n  x."] {
        assert_eq!(scan_all(padded), bare);
    }
    assert_eq!(bare, vec![Ok(ident("x")), Ok(Token::EOC)]);
}

#[test]
fn peek_then_next_agree() {
    let mut peeked = Tokenizer::new("computation c;".to_string());
    let mut plain = Tokenizer::new("computation c;".to_string());
    for _ in 0..3 {
        let ahead = peeked.peek_token();
        let consumed = peeked.next_token();
        assert_eq!(ahead, consumed);
        assert_eq!(consumed, plain.next_token());
    }
    // Both cursors have moved identically: the streams stay in step.
    assert_eq!(peeked.next_token(), plain.next_token());
}

#[test]
fn peek_reports_errors_without_consuming() {
    let mut t = Tokenizer::new("?".to_string());
    assert_eq!(t.peek_token(), Err(LexError::UnexpectedCharacter));
    assert_eq!(t.next_token(), Err(LexError::UnexpectedCharacter));
}

#[test]
fn keyword_exactness() {
    assert_eq!(scan_all("variable."), vec![Ok(ident("variable")), Ok(Token::EOC)]);
    assert_eq!(scan_all("var."), vec![Ok(Token::Variable), Ok(Token::EOC)]);
    assert_eq!(scan_all("computation."), vec![Ok(Token::Computation), Ok(Token::EOC)]);
    assert_eq!(scan_all("computations."), vec![Ok(ident("computations")), Ok(Token::EOC)]);
    assert_eq!(scan_all("vara."), vec![Ok(ident("vara")), Ok(Token::EOC)]);
}

#[test]
fn number_round_trip() {
    assert_eq!(scan_all("0."), vec![Ok(Token::Number(0)), Ok(Token::EOC)]);
    assert_eq!(scan_all("42."), vec![Ok(Token::Number(42)), Ok(Token::EOC)]);
    assert_eq!(scan_all("2147483647."), vec![Ok(Token::Number(2147483647)), Ok(Token::EOC)]);
    assert_eq!(scan_all("007."), vec![Ok(Token::Number(7)), Ok(Token::EOC)]);
}

#[test]
fn number_overflow() {
    assert_eq!(scan_all("2147483648"), vec![Err(LexError::NumberOverflow)]);
    assert_eq!(scan_all("99999999999999999999"), vec![Err(LexError::NumberOverflow)]);
}

#[test]
fn assignment_arrow() {
    assert_eq!(scan_all("<-"), vec![Ok(Token::Assignment), Err(LexError::OutOfBounds)]);
    assert_eq!(scan_all("a<-b."), vec![
        Ok(ident("a")),
        Ok(Token::Assignment),
        Ok(ident("b")),
        Ok(Token::EOC),
    ]);
    assert_eq!(scan_all("<*"), vec![Err(LexError::MalformedAssignment)]);
    assert_eq!(scan_all("< -"), vec![Err(LexError::MalformedAssignment)]);
    assert_eq!(scan_all("<"), vec![Err(LexError::OutOfBounds)]);
}

#[test]
fn program_scenario() {
    assert_eq!(scan_all("computation c; var x; x <- 3 + 4 * 2; c <- x."), vec![
        Ok(Token::Computation),
        Ok(ident("c")),
        Ok(Token::Semicolon),
        Ok(Token::Variable),
        Ok(ident("x")),
        Ok(Token::Semicolon),
        Ok(ident("x")),
        Ok(Token::Assignment),
        Ok(Token::Number(3)),
        Ok(Token::Plus),
        Ok(Token::Number(4)),
        Ok(Token::Times),
        Ok(Token::Number(2)),
        Ok(Token::Semicolon),
        Ok(ident("c")),
        Ok(Token::Assignment),
        Ok(ident("x")),
        Ok(Token::EOC),
    ]);
}

#[test]
fn remainder_scenario() {
    let mut t = Tokenizer::new("5 % 2".to_string());
    assert_eq!(t.next_token(), Ok(Token::Number(5)));
    assert_eq!(t.next_token(), Ok(Token::Remainder));
    assert_eq!(t.next_token(), Ok(Token::Number(2)));
    assert_eq!(t.next_token(), Err(LexError::OutOfBounds));
}

#[test]
fn malformed_assignment_scenario() {
    assert_eq!(scan_all("c <> 3."), vec![Ok(ident("c")), Err(LexError::MalformedAssignment)]);
    assert_eq!(scan_all("<>"), vec![Err(LexError::MalformedAssignment)]);
}

#[test]
fn unexpected_character() {
    assert_eq!(scan_all("?"), vec![Err(LexError::UnexpectedCharacter)]);
    assert_eq!(scan_all("x # y"), vec![Ok(ident("x")), Err(LexError::UnexpectedCharacter)]);
    // A character outside ASCII is scanned byte by byte and starts no token.
    assert_eq!(scan_all("\u{00E9}"), vec![Err(LexError::UnexpectedCharacter)]);
}

#[test]
fn end_of_input() {
    assert_eq!(scan_all(""), vec![Err(LexError::OutOfBounds)]);
    assert_eq!(scan_all("  \t\n "), vec![Err(LexError::OutOfBounds)]);
}

#[test]
fn errors_leave_the_cursor_in_place() {
    let mut t = Tokenizer::new("x <- 2147483648".to_string());
    assert_eq!(t.next_token(), Ok(ident("x")));
    assert_eq!(t.next_token(), Ok(Token::Assignment));
    // The failing scan can be retried and reports the same error again.
    assert_eq!(t.next_token(), Err(LexError::NumberOverflow));
    assert_eq!(t.next_token(), Err(LexError::NumberOverflow));
}

#[test]
fn identifiers_may_contain_digits() {
    assert_eq!(scan_all("x1y2."), vec![Ok(ident("x1y2")), Ok(Token::EOC)]);
    assert_eq!(scan_all("12ab."), vec![Ok(Token::Number(12)), Ok(ident("ab")), Ok(Token::EOC)]);
}

#[test]
fn all_symbols() {
    assert_eq!(scan_all("+ - * / % ( ) ; ."), vec![
        Ok(Token::Plus),
        Ok(Token::Minus),
        Ok(Token::Times),
        Ok(Token::Divide),
        Ok(Token::Remainder),
        Ok(Token::Openpar),
        Ok(Token::Closepar),
        Ok(Token::Semicolon),
        Ok(Token::EOC),
    ]);
}
