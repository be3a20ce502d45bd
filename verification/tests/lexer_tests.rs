use lexparse::ast::{BareOp, BType, LitVal};
use lexparse::parser::lex::{chars_of, lex_kind_to_str, Lex, LexError, LexErrorKind, LexItem};
use lexparse::parser::tok::{Loc, LocTok, Misc, Token};

fn loc(line: u32, col: u16, len: u16) -> Loc {
    Loc { line, col, len }
}

fn all_items(source: &str) -> Vec<LexItem> {
    let mut lx = Lex::lex(source);
    let mut out = Vec::new();
    while let Some(item) = lx.next() {
        out.push(item);
    }
    out
}

fn tokens(source: &str) -> Vec<LocTok> {
    all_items(source).into_iter().map(|item| item.unwrap()).collect()
}

fn kinds(source: &str) -> Vec<Token> {
    tokens(source).into_iter().map(|t| t.0).collect()
}

fn failure(source: &str) -> LexError {
    all_items(source).into_iter().last().unwrap().unwrap_err()
}

#[test]
fn chars_of_gives_every_character() {
    assert_eq!(chars_of("a+b"), vec!['a', '+', 'b']);
    assert_eq!(chars_of(""), Vec::<char>::new());
}

#[test]
fn empty_text_has_no_tokens() {
    assert_eq!(all_items(""), vec![]);
    assert_eq!(all_items("  \t\n  "), vec![]);
}

#[test]
fn punctuation_marks() {
    assert_eq!(
        kinds(";(){},."),
        vec![
            Token::Marker(Misc::Semicolon),
            Token::Marker(Misc::ParenOpen),
            Token::Marker(Misc::ParenClose),
            Token::Marker(Misc::BraceOpen),
            Token::Marker(Misc::BraceClose),
            Token::Marker(Misc::Comma),
            Token::Marker(Misc::Dot),
        ]
    );
}

#[test]
fn punctuation_locations() {
    assert_eq!(
        tokens("; ("),
        vec![
            (Token::Marker(Misc::Semicolon), loc(0, 0, 1)),
            (Token::Marker(Misc::ParenOpen), loc(0, 2, 1)),
        ]
    );
}

#[test]
fn empty_list_is_one_token() {
    assert_eq!(tokens("[]"), vec![(Token::Lit(LitVal::Nil), loc(0, 0, 2))]);
}

#[test]
fn bracket_alone_is_a_marker() {
    assert_eq!(
        tokens("[ ]"),
        vec![
            (Token::Marker(Misc::BrackOpen), loc(0, 0, 1)),
            (Token::Marker(Misc::BrackClose), loc(0, 2, 1)),
        ]
    );
    assert_eq!(kinds("[1]").len(), 3);
}

#[test]
fn two_character_operators() {
    assert_eq!(
        tokens("<= >= == != && ||"),
        vec![
            (Token::Op(BareOp::Leq), loc(0, 0, 2)),
            (Token::Op(BareOp::Geq), loc(0, 3, 2)),
            (Token::Op(BareOp::Eq), loc(0, 6, 2)),
            (Token::Op(BareOp::Neq), loc(0, 9, 2)),
            (Token::Op(BareOp::And), loc(0, 12, 2)),
            (Token::Op(BareOp::Or), loc(0, 15, 2)),
        ]
    );
}

#[test]
fn one_character_fallbacks() {
    assert_eq!(
        kinds("< > = !"),
        vec![
            Token::Op(BareOp::Lt),
            Token::Op(BareOp::Gt),
            Token::Marker(Misc::Assign),
            Token::Op(BareOp::Not),
        ]
    );
    assert_eq!(kinds("<<="), vec![Token::Op(BareOp::Lt), Token::Op(BareOp::Leq)]);
    assert_eq!(kinds("==="), vec![Token::Op(BareOp::Eq), Token::Marker(Misc::Assign)]);
}

#[test]
fn arithmetic_operators() {
    assert_eq!(
        kinds("+ - * %"),
        vec![
            Token::Op(BareOp::Plus),
            Token::Op(BareOp::Minus),
            Token::Op(BareOp::Mul),
            Token::Op(BareOp::Div),
        ]
    );
}

#[test]
fn arrow_is_one_token() {
    assert_eq!(tokens("->"), vec![(Token::Marker(Misc::Arrow), loc(0, 0, 2))]);
    assert_eq!(kinds("- >"), vec![Token::Op(BareOp::Minus), Token::Op(BareOp::Gt)]);
}

#[test]
fn lone_ampersand_fails_at_its_character() {
    assert_eq!(
        all_items("1 & 2"),
        vec![
            Ok((Token::Lit(LitVal::Int(1)), loc(0, 0, 1))),
            Err(LexError { kind: LexErrorKind::LoneAmpersand, loc: loc(0, 2, 1) }),
        ]
    );
    assert_eq!(failure("&"), LexError { kind: LexErrorKind::LoneAmpersand, loc: loc(0, 0, 1) });
    assert_eq!(failure("\n  &x").loc, loc(1, 2, 1));
}

#[test]
fn lone_pipe_fails_at_its_character() {
    assert_eq!(failure("a |b"), LexError { kind: LexErrorKind::LonePipe, loc: loc(0, 2, 1) });
    assert_eq!(failure("|"), LexError { kind: LexErrorKind::LonePipe, loc: loc(0, 0, 1) });
}

#[test]
fn sequence_ends_with_its_error() {
    let mut lx = Lex::lex("& 1");
    assert_eq!(lx.next(), Some(Err(LexError { kind: LexErrorKind::LoneAmpersand, loc: loc(0, 0, 1) })));
    assert_eq!(lx.next(), None);
    assert_eq!(lx.next(), None);
}

#[test]
fn character_literals() {
    assert_eq!(tokens("'a'"), vec![(Token::Lit(LitVal::Char('a')), loc(0, 0, 3))]);
    assert_eq!(tokens(" ' '"), vec![(Token::Lit(LitVal::Char(' ')), loc(0, 1, 3))]);
    assert_eq!(kinds("'''"), vec![Token::Lit(LitVal::Char('\''))]);
}

#[test]
fn unterminated_character_literals() {
    assert_eq!(failure("'"), LexError { kind: LexErrorKind::UnterminatedChar, loc: loc(0, 0, 1) });
    assert_eq!(
        failure("x '\n'"),
        LexError { kind: LexErrorKind::UnterminatedChar, loc: loc(0, 2, 1) }
    );
    assert_eq!(failure("'ab'"), LexError { kind: LexErrorKind::UnterminatedChar, loc: loc(0, 0, 2) });
    assert_eq!(failure("'a"), LexError { kind: LexErrorKind::UnterminatedChar, loc: loc(0, 0, 2) });
}

#[test]
fn escapes_are_rejected() {
    assert_eq!(
        failure("'\\n'"),
        LexError { kind: LexErrorKind::UnsupportedEscape, loc: loc(0, 0, 2) }
    );
}

#[test]
fn keywords_and_types() {
    assert_eq!(
        tokens("var if else while return"),
        vec![
            (Token::Marker(Misc::Var), loc(0, 0, 3)),
            (Token::Marker(Misc::If), loc(0, 4, 2)),
            (Token::Marker(Misc::Else), loc(0, 7, 4)),
            (Token::Marker(Misc::While), loc(0, 12, 5)),
            (Token::Marker(Misc::Return), loc(0, 18, 6)),
        ]
    );
    assert_eq!(
        kinds("Int Bool Char Void"),
        vec![
            Token::TypeTok(BType::IntT),
            Token::TypeTok(BType::BoolT),
            Token::TypeTok(BType::CharT),
            Token::TypeTok(BType::UnitT),
        ]
    );
}

#[test]
fn keywords_match_exactly() {
    assert_eq!(kinds("vars"), vec![Token::IdTok(0)]);
    assert_eq!(kinds("Var"), vec![Token::IdTok(0)]);
    assert_eq!(kinds("int if_"), vec![Token::IdTok(0), Token::IdTok(1)]);
}

#[test]
fn identifiers_are_interned() {
    assert_eq!(
        tokens("foo bar foo _x1 bar"),
        vec![
            (Token::IdTok(0), loc(0, 0, 3)),
            (Token::IdTok(1), loc(0, 4, 3)),
            (Token::IdTok(0), loc(0, 8, 3)),
            (Token::IdTok(2), loc(0, 12, 3)),
            (Token::IdTok(1), loc(0, 16, 3)),
        ]
    );
}

#[test]
fn name_table_is_read_both_ways() {
    let mut lx = Lex::lex("foo bar foo");
    assert_eq!(lx.lookup("foo"), None);
    assert_eq!(lx.name(0), None);
    lx.next();
    assert_eq!(lx.lookup("foo"), Some(0));
    assert_eq!(lx.lookup("bar"), None);
    lx.next();
    lx.next();
    assert_eq!(lx.lookup("foo"), Some(0));
    assert_eq!(lx.lookup("bar"), Some(1));
    assert_eq!(lx.lookup("fo"), None);
    assert_eq!(lx.name(0), Some(vec!['f', 'o', 'o']));
    assert_eq!(lx.name(1), Some(vec!['b', 'a', 'r']));
    assert_eq!(lx.name(2), None);
}

#[test]
fn integer_literals() {
    assert_eq!(
        tokens("0 42 007"),
        vec![
            (Token::Lit(LitVal::Int(0)), loc(0, 0, 1)),
            (Token::Lit(LitVal::Int(42)), loc(0, 2, 2)),
            (Token::Lit(LitVal::Int(7)), loc(0, 5, 3)),
        ]
    );
    assert_eq!(kinds("18446744073709551615"), vec![Token::Lit(LitVal::Int(u64::MAX))]);
    assert_eq!(kinds("12ab"), vec![Token::Lit(LitVal::Int(12)), Token::IdTok(0)]);
}

#[test]
fn integer_literal_too_large() {
    assert_eq!(
        failure("18446744073709551616"),
        LexError { kind: LexErrorKind::IntTooLarge, loc: loc(0, 0, 20) }
    );
    assert_eq!(failure("x 99999999999999999999999").kind, LexErrorKind::IntTooLarge);
}

#[test]
fn comments_and_blank_space_move_the_location() {
    assert_eq!(
        tokens("a // rest of line ; b\n  b /* x\n y */ c"),
        vec![
            (Token::IdTok(0), loc(0, 0, 1)),
            (Token::IdTok(1), loc(1, 2, 1)),
            (Token::IdTok(2), loc(2, 6, 1)),
        ]
    );
    assert_eq!(tokens("/**/1"), vec![(Token::Lit(LitVal::Int(1)), loc(0, 4, 1))]);
    assert_eq!(tokens("// only a comment"), vec![]);
    assert_eq!(tokens("\t\r\n\t1"), vec![(Token::Lit(LitVal::Int(1)), loc(1, 1, 1))]);
}

#[test]
fn unterminated_block_comment() {
    assert_eq!(
        failure("1 /* never closed"),
        LexError { kind: LexErrorKind::UnterminatedComment, loc: loc(0, 2, 2) }
    );
    assert_eq!(failure("/*/").kind, LexErrorKind::UnterminatedComment);
    assert_eq!(failure("\n/*").loc, loc(1, 0, 2));
}

#[test]
fn unrecognized_characters() {
    assert_eq!(failure("#"), LexError { kind: LexErrorKind::UnrecognizedChar, loc: loc(0, 0, 1) });
    assert_eq!(failure("1 / 2"), LexError { kind: LexErrorKind::UnrecognizedChar, loc: loc(0, 2, 1) });
    assert_eq!(failure("a : b").kind, LexErrorKind::UnrecognizedChar);
    assert_eq!(failure("x\n é").loc, loc(1, 1, 1));
}

#[test]
fn column_past_the_range_is_an_error() {
    let mut text = " ".repeat(65535);
    text.push('1');
    assert_eq!(
        failure(&text),
        LexError { kind: LexErrorKind::PositionOverflow, loc: loc(0, 65535, 0) }
    );
    let mut fits = " ".repeat(65534);
    fits.push('1');
    assert_eq!(tokens(&fits), vec![(Token::Lit(LitVal::Int(1)), loc(0, 65534, 1))]);
    let mut wide = " ".repeat(70000);
    wide.push('#');
    assert_eq!(
        failure(&wide),
        LexError { kind: LexErrorKind::PositionOverflow, loc: loc(0, 65535, 0) }
    );
}

#[test]
fn long_line_before_a_token_is_no_error() {
    let mut text = "/".repeat(70000);
    text.push_str("\n x");
    assert_eq!(tokens(&text), vec![(Token::IdTok(0), loc(1, 1, 1))]);
}

#[test]
fn peek_does_not_take() {
    let mut lx = Lex::lex("1 2");
    assert!(!lx.has_pending());
    let first = lx.peek();
    assert_eq!(first, Some(Ok((Token::Lit(LitVal::Int(1)), loc(0, 0, 1)))));
    assert!(lx.has_pending());
    assert_eq!(lx.peek(), first);
    assert_eq!(lx.next(), first);
    assert!(!lx.has_pending());
    assert_eq!(lx.next(), Some(Ok((Token::Lit(LitVal::Int(2)), loc(0, 2, 1)))));
    assert_eq!(lx.peek(), None);
    assert_eq!(lx.next(), None);
}

#[test]
fn unpeek_puts_a_token_back() {
    let mut lx = Lex::lex("1 2");
    let first = lx.next().unwrap().unwrap();
    assert_eq!(lx.unpeek(first), Ok(()));
    assert!(lx.has_pending());
    assert_eq!(lx.peek(), Some(Ok(first)));
    assert_eq!(lx.next(), Some(Ok(first)));
    assert_eq!(lx.next(), Some(Ok((Token::Lit(LitVal::Int(2)), loc(0, 2, 1)))));
}

#[test]
fn unpeek_refuses_a_second_token() {
    let mut lx = Lex::lex("1 2 3");
    let first = lx.next().unwrap().unwrap();
    let second = lx.next().unwrap().unwrap();
    assert_eq!(lx.unpeek(second), Ok(()));
    assert_eq!(lx.unpeek(first), Err(first));
    assert_eq!(lx.next(), Some(Ok(second)));
    assert_eq!(lx.peek(), Some(Ok((Token::Lit(LitVal::Int(3)), loc(0, 4, 1)))));
    assert_eq!(lx.unpeek(first), Err(first));
    assert_eq!(lx.next(), Some(Ok((Token::Lit(LitVal::Int(3)), loc(0, 4, 1)))));
    assert_eq!(lx.next(), None);
}

#[test]
fn peeked_error_stays_until_taken() {
    let mut lx = Lex::lex("| 1");
    let e = Err(LexError { kind: LexErrorKind::LonePipe, loc: loc(0, 0, 1) });
    assert_eq!(lx.peek(), Some(e));
    assert_eq!(lx.peek(), Some(e));
    assert_eq!(lx.next(), Some(e));
    assert_eq!(lx.peek(), None);
}

#[test]
fn lexical_messages() {
    assert_eq!(lex_kind_to_str(LexErrorKind::LoneAmpersand), "Found lone &");
    assert_eq!(lex_kind_to_str(LexErrorKind::LonePipe), "Found lone |");
    assert_eq!(lex_kind_to_str(LexErrorKind::UnterminatedChar), "unterminated character literal");
    assert_eq!(lex_kind_to_str(LexErrorKind::UnsupportedEscape), "escape sequences are not supported");
    assert_eq!(lex_kind_to_str(LexErrorKind::UnterminatedComment), "unterminated block comment");
    assert_eq!(lex_kind_to_str(LexErrorKind::UnrecognizedChar), "unrecognized character");
    assert_eq!(lex_kind_to_str(LexErrorKind::IntTooLarge), "integer literal too large");
    assert_eq!(lex_kind_to_str(LexErrorKind::TooManyNames), "too many identifiers");
    assert_eq!(lex_kind_to_str(LexErrorKind::PositionOverflow), "source position out of range");
    assert_eq!(failure("#").message(), "unrecognized character");
}
