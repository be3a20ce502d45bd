use lexparse::ast::{BareExp, BareOp, BareSelector, Exp, Id, LitVal, Op, Selector, Span};
use lexparse::parser::grammar::{expected_to_str, Expected, ParseError, ParseErrorKind};
use lexparse::parser::lex::{LexError, LexErrorKind};
use lexparse::parser::shunting_yard::{parse_binary, parse_exp, parse_unary};
use lexparse::parser::tok::{Loc, Misc, TokPat, Token};
use lexparse::parser::{eof, lexfail, unexpected, Parser};

fn loc(line: u32, col: u16, len: u16) -> Loc {
    Loc { line, col, len }
}

fn sp(startline: u32, endline: u32, startcol: u16, endcol: u16) -> Option<Span> {
    Some(Span::new(startline, endline, startcol, endcol))
}

fn num(value: u64, from: u16, to: u16) -> Exp {
    Exp { bare: BareExp::Lit(LitVal::Int(value)), typ: None, span: sp(0, 0, from, to) }
}

fn binop(op: BareOp, at: u16, width: u16, lhs: Exp, rhs: Exp) -> Exp {
    let span = match (lhs.span, rhs.span) {
        (Some(a), Some(b)) => Some(Span::hull(a, b)),
        _ => None,
    };
    Exp {
        bare: BareExp::BinOp(
            Op { op, span: sp(0, 0, at, at + width) },
            Box::new(lhs),
            Box::new(rhs),
        ),
        typ: None,
        span,
    }
}

fn unexpected_at(found: Token, at: Loc, expected: Expected) -> ParseError {
    ParseError {
        kind: ParseErrorKind::Unexpected { found: Some(found), expected },
        loc: Some(at),
    }
}

fn at_end(expected: Expected) -> ParseError {
    ParseError { kind: ParseErrorKind::Unexpected { found: None, expected }, loc: None }
}

/// The shape of a tree: everything but the ranges.
fn shape(e: &Exp) -> String {
    match &e.bare {
        BareExp::Lit(v) => format!("{:?}", v),
        BareExp::Var(id, sels) => {
            format!("v{}{:?}", id.name, sels.iter().map(|s| s.sel).collect::<Vec<_>>())
        }
        BareExp::Call(id, args) => {
            format!("c{}({})", id.name, args.iter().map(shape).collect::<Vec<_>>().join(","))
        }
        BareExp::Tuple(elems) => {
            format!("({})", elems.iter().map(shape).collect::<Vec<_>>().join(","))
        }
        BareExp::BinOp(op, l, r) => format!("[{} {:?} {}]", shape(l), op.op, shape(r)),
        BareExp::UnOp(op, a) => format!("[{:?} {}]", op.op, shape(a)),
    }
}

fn shape_of(source: &str) -> String {
    shape(&Parser::new(source).exp().unwrap())
}

#[test]
fn subtraction_groups_to_the_left() {
    let test = Parser::new("1-2-3").exp();
    let correct =
        binop(BareOp::Minus, 3, 1, binop(BareOp::Minus, 1, 1, num(1, 0, 1), num(2, 2, 3)), num(3, 4, 5));
    assert_eq!(test, Ok(correct));
    assert_eq!(shape_of("1-2-3"), "[[Int(1) Minus Int(2)] Minus Int(3)]");
}

#[test]
fn every_level_groups_to_the_left() {
    assert_eq!(shape_of("1*2%3"), "[[Int(1) Mul Int(2)] Div Int(3)]");
    assert_eq!(shape_of("1<2<=3"), "[[Int(1) Lt Int(2)] Leq Int(3)]");
    assert_eq!(shape_of("1==2!=3"), "[[Int(1) Eq Int(2)] Neq Int(3)]");
    assert_eq!(shape_of("1&&2&&3"), "[[Int(1) And Int(2)] And Int(3)]");
    assert_eq!(shape_of("1||2||3"), "[[Int(1) Or Int(2)] Or Int(3)]");
}

#[test]
fn multiplication_binds_tighter_than_addition() {
    assert_eq!(shape_of("1+2*3"), "[Int(1) Plus [Int(2) Mul Int(3)]]");
    assert_eq!(shape_of("2*3+1"), "[[Int(2) Mul Int(3)] Plus Int(1)]");
    assert_eq!(shape_of("1*(2+3)"), "[Int(1) Mul [Int(2) Plus Int(3)]]");
}

#[test]
fn all_levels_in_one_expression() {
    assert_eq!(
        shape_of("1 || 2 && 3 == 4 < 5 + 6 * 7"),
        "[Int(1) Or [Int(2) And [Int(3) Eq [Int(4) Lt [Int(5) Plus [Int(6) Mul Int(7)]]]]]]"
    );
    assert_eq!(
        shape_of("1 * 2 + 3 < 4 == 5 && 6 || 7"),
        "[[[[[[Int(1) Mul Int(2)] Plus Int(3)] Lt Int(4)] Eq Int(5)] And Int(6)] Or Int(7)]"
    );
    assert_eq!(shape_of("1 >= 2 - 3 % 4"), "[Int(1) Geq [Int(2) Minus [Int(3) Div Int(4)]]]");
}

#[test]
fn prefix_operator_binds_tightest() {
    assert_eq!(shape_of("!a && b"), "[[Not v0[]] And v1[]]");
    assert_eq!(shape_of("!!a"), "[Not [Not v0[]]]");
    assert_eq!(shape_of("1 + !2 * 3"), "[Int(1) Plus [[Not Int(2)] Mul Int(3)]]");
    assert_eq!(shape_of("!(a || b)"), "[Not [v0[] Or v1[]]]");
}

#[test]
fn prefix_operator_range() {
    let test = Parser::new(" !x").exp().unwrap();
    assert_eq!(test.span, sp(0, 0, 1, 3));
    match test.bare {
        BareExp::UnOp(op, arg) => {
            assert_eq!(op, Op { op: BareOp::Not, span: sp(0, 0, 1, 2) });
            assert_eq!(arg.span, sp(0, 0, 2, 3));
        }
        _ => unreachable!(),
    }
}

#[test]
fn parentheses_change_only_the_range() {
    assert_eq!(shape_of("(1+2)"), shape_of("1+2"));
    assert_eq!(shape_of("((foo(1)))"), shape_of("foo(1)"));
    assert_eq!(shape_of("(!x)"), shape_of("!x"));
    assert_eq!(shape_of("((1,2))"), shape_of("(1,2)"));
    let plain = Parser::new(" 1+2 ").exp().unwrap();
    let wrapped = Parser::new("(1+2)").exp().unwrap();
    assert_eq!(plain.bare, wrapped.bare);
    assert_eq!(plain.span, sp(0, 0, 1, 4));
    assert_eq!(wrapped.span, sp(0, 0, 0, 5));
}

#[test]
fn operand_range_keeps_its_parentheses() {
    let test = Parser::new("(1)+2").exp().unwrap();
    assert_eq!(test.span, sp(0, 0, 0, 5));
    match test.bare {
        BareExp::BinOp(_, lhs, rhs) => {
            assert_eq!(*lhs, num(1, 0, 3));
            assert_eq!(*rhs, num(2, 4, 5));
        }
        _ => unreachable!(),
    }
}

#[test]
fn range_runs_from_first_to_last_character() {
    let mut p = Parser::new("  foo(1) + 20  ; x");
    let test = p.exp().unwrap();
    assert_eq!(test.span, sp(0, 0, 2, 13));
    assert_eq!(Parser::new("a").exp().unwrap().span, sp(0, 0, 0, 1));
    assert_eq!(Parser::new("   !  ( 1 , 2 )   ").exp().unwrap().span, sp(0, 0, 3, 15));
    assert_eq!(Parser::new("1 +\n  2 *\n 3").exp().unwrap().span, sp(0, 2, 0, 2));
}

#[test]
fn expression_leaves_what_follows() {
    let mut p = Parser::new("1 + 2 ; 3");
    assert_eq!(p.exp().map(|e| e.span), Ok(sp(0, 0, 0, 5)));
    assert_eq!(p.nexttok(), Some(Ok((Token::Marker(Misc::Semicolon), loc(0, 6, 1)))));
    assert_eq!(p.exp(), Ok(num(3, 8, 9)));
    assert_eq!(p.nexttok(), None);
    let mut q = Parser::new("(1))");
    assert_eq!(q.exp(), Ok(num(1, 0, 3)));
    assert_eq!(q.nexttok(), Some(Ok((Token::Marker(Misc::ParenClose), loc(0, 3, 1)))));
}

#[test]
fn call_with_arguments() {
    let mut p = Parser::new("f(1, g(), x)");
    let test = p.exp().unwrap();
    let f = p.lookup("f").unwrap();
    let g = p.lookup("g").unwrap();
    let x = p.lookup("x").unwrap();
    assert_eq!((f, g, x), (0, 1, 2));
    let correct = Exp {
        bare: BareExp::Call(
            Id { name: f, span: sp(0, 0, 0, 1) },
            vec![
                num(1, 2, 3),
                Exp {
                    bare: BareExp::Call(Id { name: g, span: sp(0, 0, 5, 6) }, vec![]),
                    typ: None,
                    span: sp(0, 0, 5, 8),
                },
                Exp {
                    bare: BareExp::Var(Id { name: x, span: sp(0, 0, 10, 11) }, vec![]),
                    typ: None,
                    span: sp(0, 0, 10, 11),
                },
            ],
        ),
        typ: None,
        span: sp(0, 0, 0, 12),
    };
    assert_eq!(test, correct);
}

#[test]
fn variable_without_selectors() {
    let mut p = Parser::new("foo");
    let test = p.exp();
    let correct = Ok(Exp {
        bare: BareExp::Var(Id { name: 0, span: sp(0, 0, 0, 3) }, Vec::new()),
        typ: None,
        span: sp(0, 0, 0, 3),
    });
    assert_eq!(test, correct);
    assert_eq!(p.name(0), Some(vec!['f', 'o', 'o']));
}

#[test]
fn same_spelling_same_identifier() {
    let mut p = Parser::new("a + b * a");
    let test = p.exp().unwrap();
    assert_eq!(shape(&test), "[v0[] Plus [v1[] Mul v0[]]]");
    assert_eq!(p.lookup("a"), Some(0));
    assert_eq!(p.lookup("b"), Some(1));
    assert_eq!(p.lookup("c"), None);
}

#[test]
fn empty_parentheses_are_an_empty_tuple() {
    let mut p = Parser::new(" ( ) ");
    let correct = Ok(Exp { bare: BareExp::Tuple(Vec::new()), typ: None, span: sp(0, 0, 1, 4) });
    assert_eq!(p.exp(), correct);
    assert_eq!(p.nexttok(), None);
}

#[test]
fn tuple_of_three() {
    let test = Parser::new("(1,2,3)").exp();
    let correct = Ok(Exp {
        bare: BareExp::Tuple(vec![num(1, 1, 2), num(2, 3, 4), num(3, 5, 6)]),
        typ: None,
        span: sp(0, 0, 0, 7),
    });
    assert_eq!(test, correct);
}

#[test]
fn tuplish_yields_elements_and_range() {
    let mut p = Parser::new("(1, 2) 3");
    assert_eq!(p.tuplish(), Ok((vec![num(1, 1, 2), num(2, 4, 5)], Span::new(0, 0, 0, 6))));
    assert_eq!(p.nexttok(), Some(Ok((Token::Lit(LitVal::Int(3)), loc(0, 7, 1)))));
    let mut q = Parser::new("()");
    assert_eq!(q.tuplish(), Ok((vec![], Span::new(0, 0, 0, 2))));
    let mut r = Parser::new("(7)");
    assert_eq!(r.parens(), Ok((vec![num(7, 1, 2)], loc(0, 0, 1), loc(0, 2, 1))));
}

#[test]
fn selectors_follow_a_variable() {
    let mut p = Parser::new("x");
    assert_eq!(p.trytok(), Ok(Some((Token::IdTok(0), loc(0, 0, 1)))));
    p.unpeektok((Token::Selector(BareSelector::Hd), loc(0, 1, 3)));
    let id = Id { name: 0, span: sp(0, 0, 0, 1) };
    let correct = Ok(Exp {
        bare: BareExp::Var(id, vec![Selector { sel: BareSelector::Hd, span: sp(0, 0, 1, 4) }]),
        typ: None,
        span: sp(0, 0, 0, 4),
    });
    assert_eq!(p.field_or_call(id), correct);
    assert_eq!(p.nexttok(), None);
}

#[test]
fn field_takes_selectors_only() {
    let mut p = Parser::new("+");
    p.unpeektok((Token::Selector(BareSelector::Snd), loc(0, 4, 4)));
    assert_eq!(
        p.field(),
        Ok((vec![Selector { sel: BareSelector::Snd, span: sp(0, 0, 4, 8) }], sp(0, 0, 4, 8)))
    );
    assert_eq!(p.field(), Ok((vec![], None)));
    assert_eq!(p.nexttok(), Some(Ok((Token::Op(BareOp::Plus), loc(0, 0, 1)))));
}

#[test]
fn selector_takes_one() {
    let mut p = Parser::new("x");
    p.unpeektok((Token::Selector(BareSelector::Fst), loc(2, 0, 3)));
    assert_eq!(p.selector(), Ok(Selector { sel: BareSelector::Fst, span: sp(2, 2, 0, 3) }));
    assert_eq!(
        p.selector(),
        Err(unexpected_at(Token::IdTok(0), loc(0, 0, 1), Expected::Shape(TokPat::AnySelector)))
    );
    assert_eq!(p.nexttok(), Some(Ok((Token::IdTok(0), loc(0, 0, 1)))));
    assert_eq!(p.selector(), Err(at_end(Expected::Shape(TokPat::AnySelector))));
}

#[test]
fn atom_rejects_other_tokens() {
    let mut p = Parser::new(" ) 1");
    assert_eq!(
        p.atom(),
        Err(unexpected_at(Token::Marker(Misc::ParenClose), loc(0, 1, 1), Expected::Atom))
    );
    assert_eq!(p.nexttok(), Some(Ok((Token::Lit(LitVal::Int(1)), loc(0, 3, 1)))));
    assert_eq!(
        Parser::new("1 + *").exp(),
        Err(unexpected_at(Token::Op(BareOp::Mul), loc(0, 4, 1), Expected::Atom))
    );
    assert_eq!(
        Parser::new("-1").exp(),
        Err(unexpected_at(Token::Op(BareOp::Minus), loc(0, 0, 1), Expected::Atom))
    );
    assert_eq!(
        Parser::new("Int").exp(),
        Err(unexpected_at(
            Token::TypeTok(lexparse::ast::BType::IntT),
            loc(0, 0, 3),
            Expected::Atom
        ))
    );
}

#[test]
fn atom_at_the_end_of_input() {
    assert_eq!(Parser::new("").atom(), Err(at_end(Expected::Atom)));
    assert_eq!(Parser::new("  // nothing").exp(), Err(at_end(Expected::Atom)));
    assert_eq!(Parser::new("1 +").exp(), Err(at_end(Expected::Atom)));
    assert_eq!(Parser::new("(1,").exp(), Err(at_end(Expected::Atom)));
    assert_eq!(Parser::new("!").exp(), Err(at_end(Expected::Atom)));
}

#[test]
fn list_needs_comma_or_close() {
    let mut p = Parser::new("(1 2)");
    assert_eq!(
        p.exp(),
        Err(unexpected_at(Token::Lit(LitVal::Int(2)), loc(0, 3, 1), Expected::CommaOrClose))
    );
    assert_eq!(p.nexttok(), Some(Ok((Token::Lit(LitVal::Int(2)), loc(0, 3, 1)))));
    assert_eq!(Parser::new("(1").exp(), Err(at_end(Expected::CommaOrClose)));
    assert_eq!(Parser::new("f(1, 2").exp(), Err(at_end(Expected::CommaOrClose)));
    assert_eq!(
        Parser::new("(1,)").exp(),
        Err(unexpected_at(Token::Marker(Misc::ParenClose), loc(0, 3, 1), Expected::Atom))
    );
}

#[test]
fn lexical_error_becomes_parse_error() {
    let amp = ParseError {
        kind: ParseErrorKind::Lex(LexErrorKind::LoneAmpersand),
        loc: Some(loc(0, 2, 1)),
    };
    assert_eq!(Parser::new("1 & 2").exp(), Err(amp));
    assert_eq!(Parser::new("( &").exp().unwrap_err().loc, Some(loc(0, 2, 1)));
    assert_eq!(
        Parser::new("(1 |").exp(),
        Err(ParseError { kind: ParseErrorKind::Lex(LexErrorKind::LonePipe), loc: Some(loc(0, 3, 1)) })
    );
    assert_eq!(
        Parser::new("#").atom(),
        Err(ParseError {
            kind: ParseErrorKind::Lex(LexErrorKind::UnrecognizedChar),
            loc: Some(loc(0, 0, 1))
        })
    );
    assert_eq!(
        ParseError::from(LexError { kind: LexErrorKind::LonePipe, loc: loc(1, 2, 1) }),
        ParseError { kind: ParseErrorKind::Lex(LexErrorKind::LonePipe), loc: Some(loc(1, 2, 1)) }
    );
}

#[test]
fn peektok_is_idempotent() {
    let mut p = Parser::new("a b");
    let first = Ok(Some((Token::IdTok(0), loc(0, 0, 1))));
    assert_eq!(p.peektok(), first);
    assert_eq!(p.peektok(), first);
    assert!(p.has_pending());
    assert_eq!(p.trytok(), first);
    assert!(!p.has_pending());
    assert_eq!(p.trytok(), Ok(Some((Token::IdTok(1), loc(0, 2, 1)))));
    assert_eq!(p.peektok(), Ok(None));
    assert_eq!(p.trytok(), Ok(None));
}

#[test]
fn peektok_surfaces_the_error_without_passing_it() {
    let mut p = Parser::new("& 1");
    let e = ParseError {
        kind: ParseErrorKind::Lex(LexErrorKind::LoneAmpersand),
        loc: Some(loc(0, 0, 1)),
    };
    assert_eq!(p.peektok(), Err(e));
    assert_eq!(p.peektok(), Err(e));
    assert_eq!(p.trytok(), Err(e));
    assert_eq!(p.trytok(), Ok(None));
}

#[test]
fn pushback_reproduces_the_token() {
    let mut p = Parser::new("a b");
    let a = p.trytok().unwrap().unwrap();
    p.unpeektok(a);
    assert_eq!(p.peektok(), Ok(Some(a)));
    assert_eq!(p.trytok(), Ok(Some(a)));
    let b = p.trytok().unwrap().unwrap();
    p.unpeektok(b);
    assert_eq!(p.nexttok(), Some(Ok(b)));
    assert_eq!(p.nexttok(), None);
}

#[test]
fn backtrack_puts_back_and_fails() {
    let mut p = Parser::new("; x");
    let semi = p.trytok().unwrap().unwrap();
    let r: Result<(), ParseError> = p.backtrack(semi, Expected::Shape(TokPat::AnyType));
    assert_eq!(
        r,
        Err(unexpected_at(
            Token::Marker(Misc::Semicolon),
            loc(0, 0, 1),
            Expected::Shape(TokPat::AnyType)
        ))
    );
    assert_eq!(p.trytok(), Ok(Some(semi)));
}

#[test]
fn expect_takes_a_matching_token() {
    let mut p = Parser::new("var x = 1;");
    assert_eq!(
        p.expect(TokPat::Exactly(Token::Marker(Misc::Var))),
        Ok((Token::Marker(Misc::Var), loc(0, 0, 3)))
    );
    assert_eq!(p.expect(TokPat::AnyId), Ok((Token::IdTok(0), loc(0, 4, 1))));
    assert_eq!(
        p.expect(TokPat::Exactly(Token::Marker(Misc::Assign))),
        Ok((Token::Marker(Misc::Assign), loc(0, 6, 1)))
    );
    assert_eq!(p.exp(), Ok(num(1, 8, 9)));
    assert_eq!(
        p.expect(TokPat::Exactly(Token::Marker(Misc::Semicolon))),
        Ok((Token::Marker(Misc::Semicolon), loc(0, 9, 1)))
    );
    assert_eq!(
        p.expect(TokPat::Exactly(Token::Marker(Misc::Semicolon))),
        Err(at_end(Expected::Shape(TokPat::Exactly(Token::Marker(Misc::Semicolon)))))
    );
}

#[test]
fn expect_leaves_a_mismatch_in_place() {
    let mut p = Parser::new("x 1");
    assert_eq!(
        p.expect(TokPat::AnyLit),
        Err(unexpected_at(Token::IdTok(0), loc(0, 0, 1), Expected::Shape(TokPat::AnyLit)))
    );
    assert_eq!(p.expect(TokPat::AnyId), Ok((Token::IdTok(0), loc(0, 0, 1))));
    assert_eq!(p.expect(TokPat::AnyLit), Ok((Token::Lit(LitVal::Int(1)), loc(0, 2, 1))));
    let mut q = Parser::new("|");
    assert_eq!(
        q.expect(TokPat::AnyOp),
        Err(ParseError { kind: ParseErrorKind::Lex(LexErrorKind::LonePipe), loc: Some(loc(0, 0, 1)) })
    );
}

#[test]
fn failures_as_results() {
    let e: Result<u8, ParseError> = eof(Expected::Atom);
    assert_eq!(e, Err(at_end(Expected::Atom)));
    let u: Result<u8, ParseError> =
        unexpected((Token::Marker(Misc::Dot), loc(4, 5, 1)), Expected::CommaOrClose);
    assert_eq!(u, Err(unexpected_at(Token::Marker(Misc::Dot), loc(4, 5, 1), Expected::CommaOrClose)));
    let l: Result<u8, ParseError> =
        lexfail(LexError { kind: LexErrorKind::IntTooLarge, loc: loc(0, 1, 30) });
    assert_eq!(
        l,
        Err(ParseError { kind: ParseErrorKind::Lex(LexErrorKind::IntTooLarge), loc: Some(loc(0, 1, 30)) })
    );
}

#[test]
fn parse_messages() {
    assert_eq!(
        unexpected_at(Token::Marker(Misc::ParenClose), loc(0, 0, 1), Expected::Atom).message(),
        "unexpected ')', expected identifier, literal, or '('"
    );
    assert_eq!(
        at_end(Expected::Atom).message(),
        "unexpected end of input, expected identifier, literal, or '('"
    );
    assert_eq!(
        unexpected_at(Token::Lit(LitVal::Int(2)), loc(0, 3, 1), Expected::CommaOrClose).message(),
        "unexpected literal, expected ',' or ')'"
    );
    assert_eq!(
        unexpected_at(Token::IdTok(0), loc(0, 0, 1), Expected::Shape(TokPat::AnyType)).message(),
        "unexpected identifier, expected base type"
    );
    assert_eq!(
        at_end(Expected::Shape(TokPat::Exactly(Token::Marker(Misc::Semicolon)))).message(),
        "unexpected end of input, expected ';'"
    );
    assert_eq!(
        ParseError { kind: ParseErrorKind::Lex(LexErrorKind::LoneAmpersand), loc: Some(loc(0, 0, 1)) }
            .message(),
        "Found lone &"
    );
    assert_eq!(expected_to_str(Expected::Atom), "identifier, literal, or '('");
    assert_eq!(expected_to_str(Expected::CommaOrClose), "',' or ')'");
    assert_eq!(expected_to_str(Expected::Shape(TokPat::AnyId)), "identifier");
}

#[test]
fn rules_of_the_operator_parser() {
    let mut p = Parser::new("1 + 2 * 3");
    assert_eq!(parse_unary(&mut p), Ok(num(1, 0, 1)));
    let mut q = Parser::new("1 + 2 * 3 < 4");
    assert_eq!(parse_binary(&mut q, 5).map(|e| shape(&e)), Ok("[Int(1) Plus [Int(2) Mul Int(3)]]".to_string()));
    assert_eq!(q.nexttok(), Some(Ok((Token::Op(BareOp::Lt), loc(0, 10, 1)))));
    let mut r = Parser::new("1 + 2 * 3");
    assert_eq!(parse_binary(&mut r, 6), Ok(num(1, 0, 1)));
    let mut s = Parser::new("1 + 2 * 3");
    assert_eq!(parse_exp(&mut s).map(|e| shape(&e)), Ok("[Int(1) Plus [Int(2) Mul Int(3)]]".to_string()));
}
