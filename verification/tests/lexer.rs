use arith_lexer::error::{ErrorManager, LexerError};
use arith_lexer::lexer::{Lexer, TokenKind};

/// Runs the scanner over `input` until end of input, collecting the
/// tokens it emits and the errors it records.
fn scan_all(input: &[u8]) -> (Vec<(TokenKind, u32)>, Vec<(u32, u32, LexerError)>) {
    let mut lexer = Lexer::new(input.to_vec()).unwrap();
    let mut error_mgr = ErrorManager::new();
    let mut tokens = Vec::new();
    loop {
        match lexer.next_token(&mut error_mgr) {
            Ok(Some(t)) => tokens.push(t),
            Ok(None) => break,
            Err(_) => {}
        }
    }
    (tokens, error_mgr.errors().clone())
}

fn scan_str(input: &str) -> (Vec<(TokenKind, u32)>, Vec<(u32, u32, LexerError)>) {
    scan_all(input.as_bytes())
}

#[test]
fn expression_tokens() {
    let (tokens, errors) = scan_str("1+2*3");
    assert_eq!(
        tokens,
        vec![
            (TokenKind::Number, 1),
            (TokenKind::Add, 0),
            (TokenKind::Number, 2),
            (TokenKind::Multiply, 0),
            (TokenKind::Number, 3),
        ]
    );
    assert_eq!(errors, vec![]);
}

#[test]
fn divide_keeps_lookahead() {
    let (tokens, errors) = scan_str("/5");
    assert_eq!(tokens, vec![(TokenKind::Divide, 0), (TokenKind::Number, 5)]);
    assert_eq!(errors, vec![]);
}

#[test]
fn line_comment_splits_numbers() {
    let (tokens, errors) = scan_str("12//comment\n34");
    assert_eq!(tokens, vec![(TokenKind::Number, 12), (TokenKind::Number, 34)]);
    assert_eq!(errors, vec![]);
}

#[test]
fn subtract_and_add() {
    let (tokens, errors) = scan_str("- +");
    assert_eq!(tokens, vec![(TokenKind::Subtract, 0), (TokenKind::Add, 0)]);
    assert_eq!(errors, vec![]);
}

#[test]
fn division_expression() {
    let (tokens, errors) = scan_str("8/2");
    assert_eq!(
        tokens,
        vec![(TokenKind::Number, 8), (TokenKind::Divide, 0), (TokenKind::Number, 2)]
    );
    assert_eq!(errors, vec![]);
}

#[test]
fn unexpected_char_is_skipped_and_recorded() {
    let (tokens, errors) = scan_str("1 # 2");
    assert_eq!(tokens, vec![(TokenKind::Number, 1), (TokenKind::Number, 2)]);
    assert_eq!(errors, vec![(1, 3, LexerError::UnexpectedChar('#'))]);
}

#[test]
fn error_position_on_second_line() {
    let (tokens, errors) = scan_str("1\n@");
    assert_eq!(tokens, vec![(TokenKind::Number, 1)]);
    assert_eq!(errors, vec![(2, 1, LexerError::UnexpectedChar('@'))]);
}

#[test]
fn error_positions_count_characters_not_bytes() {
    let (tokens, errors) = scan_str("\u{20ac} @");
    assert_eq!(tokens, vec![]);
    assert_eq!(
        errors,
        vec![
            (1, 1, LexerError::UnexpectedChar('\u{20ac}')),
            (1, 3, LexerError::UnexpectedChar('@')),
        ]
    );
}

#[test]
fn end_of_input_is_stable() {
    let mut lexer = Lexer::new(b"7".to_vec()).unwrap();
    let mut error_mgr = ErrorManager::new();
    assert_eq!(lexer.next_token(&mut error_mgr), Ok(Some((TokenKind::Number, 7))));
    assert_eq!(lexer.next_token(&mut error_mgr), Ok(None));
    assert_eq!(lexer.next_token(&mut error_mgr), Ok(None));
    assert_eq!(lexer.next_token(&mut error_mgr), Ok(None));
    assert_eq!(error_mgr.errors().len(), 0);
}

#[test]
fn empty_input_gives_end() {
    let (tokens, errors) = scan_str("");
    assert_eq!(tokens, vec![]);
    assert_eq!(errors, vec![]);
}

#[test]
fn whitespace_only_input_gives_end() {
    let (tokens, errors) = scan_str(" \t\r\n  \n");
    assert_eq!(tokens, vec![]);
    assert_eq!(errors, vec![]);
}

#[test]
fn unicode_whitespace_is_skipped() {
    let (tokens, errors) = scan_str("\u{a0}\u{2003}5");
    assert_eq!(tokens, vec![(TokenKind::Number, 5)]);
    assert_eq!(errors, vec![]);
}

#[test]
fn comment_only_input_gives_end() {
    let (tokens, errors) = scan_str("// only a comment");
    assert_eq!(tokens, vec![]);
    assert_eq!(errors, vec![]);
    let (tokens, errors) = scan_str("/* a block */");
    assert_eq!(tokens, vec![]);
    assert_eq!(errors, vec![]);
}

#[test]
fn nested_looking_block_comment_ends_at_first_close() {
    let (tokens, errors) = scan_str("/* a /* b */ 1");
    assert_eq!(tokens, vec![(TokenKind::Number, 1)]);
    assert_eq!(errors, vec![]);
}

#[test]
fn block_comment_with_star_runs() {
    let (tokens, errors) = scan_str("/* *** */2");
    assert_eq!(tokens, vec![(TokenKind::Number, 2)]);
    assert_eq!(errors, vec![]);
}

#[test]
fn unterminated_comments_give_end() {
    let (tokens, errors) = scan_str("/* still open");
    assert_eq!(tokens, vec![]);
    assert_eq!(errors, vec![]);
    let (tokens, errors) = scan_str("/*/");
    assert_eq!(tokens, vec![]);
    assert_eq!(errors, vec![]);
}

#[test]
fn block_comment_between_tokens() {
    let (tokens, errors) = scan_str("1/**/2");
    assert_eq!(tokens, vec![(TokenKind::Number, 1), (TokenKind::Number, 2)]);
    assert_eq!(errors, vec![]);
}

#[test]
fn slash_at_end_is_division() {
    let (tokens, errors) = scan_str("/**/ /");
    assert_eq!(tokens, vec![(TokenKind::Divide, 0)]);
    assert_eq!(errors, vec![]);
}

#[test]
fn literal_wraps_modulo_two_to_the_32() {
    let (tokens, errors) = scan_str("4294967295");
    assert_eq!(tokens, vec![(TokenKind::Number, 4294967295)]);
    assert_eq!(errors, vec![]);
    let (tokens, errors) = scan_str("4294967296");
    assert_eq!(tokens, vec![(TokenKind::Number, 0)]);
    assert_eq!(errors, vec![]);
}

#[test]
fn construction_fails_on_undecodable_first_character() {
    let r = Lexer::new(vec![0xff, b'1']);
    assert!(matches!(r, Err(LexerError::DecodeFault)));
}

#[test]
fn decode_fault_mid_stream_is_recorded_and_preempts_token() {
    // "5" followed by a truncated two-byte UTF-8 sequence.
    let mut lexer = Lexer::new(vec![b'5', 0xc3]).unwrap();
    let mut error_mgr = ErrorManager::new();
    let r = lexer.next_token(&mut error_mgr);
    assert!(r.is_err());
    assert_eq!(lexer.next_token(&mut error_mgr), Ok(None));
    assert_eq!(error_mgr.errors().clone(), vec![(1, 2, LexerError::DecodeFault)]);
}

#[test]
fn lone_unexpected_char_reports_once() {
    let mut lexer = Lexer::new(b"#".to_vec()).unwrap();
    let mut error_mgr = ErrorManager::new();
    assert!(lexer.next_token(&mut error_mgr).is_err());
    assert_eq!(lexer.next_token(&mut error_mgr), Ok(None));
    assert_eq!(error_mgr.errors().clone(), vec![(1, 1, LexerError::UnexpectedChar('#'))]);
}
