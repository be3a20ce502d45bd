use lexparse::ast::{BareOp, BareSelector, BType, LitVal, Span};
use lexparse::parser::shunting_yard::binary_prec;
use lexparse::parser::tok::{
    misc_to_str, op_to_str, token_to_str, tokpat_to_str, Loc, Misc, TokAble, TokPat, Token,
};
use lexparse::parser::{hull, opthull};

#[test]
fn loc_step_lengthens() {
    let mut l = Loc { line: 3, col: 7, len: 2 };
    l.step();
    assert_eq!(l, Loc { line: 3, col: 7, len: 3 });
}

#[test]
fn loc_advance_commits_the_length() {
    let mut l = Loc { line: 3, col: 7, len: 2 };
    l.advance();
    assert_eq!(l, Loc { line: 3, col: 9, len: 0 });
    l.advance();
    assert_eq!(l, Loc { line: 3, col: 9, len: 0 });
}

#[test]
fn loc_next_line_resets_the_column() {
    let mut l = Loc { line: 3, col: 7, len: 2 };
    l.next_line();
    assert_eq!(l, Loc { line: 4, col: 0, len: 0 });
}

#[test]
fn loc_drives_to_the_next_token() {
    // "ab\n c": two characters, a line end, a blank, then a token
    let mut l = Loc { line: 0, col: 0, len: 0 };
    l.step();
    l.step();
    assert_eq!(l, Loc { line: 0, col: 0, len: 2 });
    l.advance();
    l.next_line();
    l.step();
    l.advance();
    l.step();
    assert_eq!(l, Loc { line: 1, col: 1, len: 1 });
}

#[test]
fn span_of_a_location() {
    assert_eq!(Span::from_loc(Loc { line: 2, col: 5, len: 3 }), Span::new(2, 2, 5, 8));
    assert_eq!(Span::from_loc(Loc { line: 0, col: 0, len: 0 }), Span::new(0, 0, 0, 0));
    assert_eq!(Span::from_loc(Loc { line: 0, col: 65535, len: 0 }), Span::new(0, 0, 65535, 65535));
}

#[test]
fn hull_on_one_line() {
    let a = Span::new(0, 0, 2, 5);
    let b = Span::new(0, 0, 7, 9);
    assert_eq!(Span::hull(a, b), Span::new(0, 0, 2, 9));
    assert_eq!(Span::hull(b, a), Span::new(0, 0, 2, 9));
    assert_eq!(hull(a, b), Span::new(0, 0, 2, 9));
}

#[test]
fn hull_across_lines() {
    let a = Span::new(0, 0, 10, 12);
    let b = Span::new(1, 2, 0, 3);
    assert_eq!(Span::hull(a, b), Span::new(0, 2, 10, 3));
    assert_eq!(Span::hull(b, a), Span::new(0, 2, 10, 3));
    let inner = Span::new(1, 1, 4, 6);
    let outer = Span::new(0, 3, 9, 1);
    assert_eq!(Span::hull(inner, outer), outer);
    assert_eq!(Span::hull(outer, inner), outer);
}

#[test]
fn hull_is_idempotent() {
    let a = Span::new(4, 6, 17, 2);
    assert_eq!(Span::hull(a, a), a);
}

#[test]
fn hull_in_any_grouping() {
    let a = Span::new(0, 0, 0, 1);
    let b = Span::new(0, 1, 5, 2);
    let c = Span::new(2, 2, 0, 9);
    assert_eq!(Span::hull(Span::hull(a, b), c), Span::hull(a, Span::hull(b, c)));
    assert_eq!(Span::hull(Span::hull(c, a), b), Span::new(0, 2, 0, 9));
}

#[test]
fn opthull_needs_both() {
    let a = Span::new(0, 0, 2, 5);
    let b = Span::new(0, 0, 7, 9);
    assert_eq!(opthull(Some(a), Some(b)), Some(Span::new(0, 0, 2, 9)));
    assert_eq!(opthull(None, Some(b)), None);
    assert_eq!(opthull(Some(a), None), None);
    assert_eq!(opthull(None, None), None);
}

#[test]
fn names_of_markers() {
    assert_eq!(misc_to_str(Misc::Var), "'var'");
    assert_eq!(misc_to_str(Misc::If), "'if'");
    assert_eq!(misc_to_str(Misc::Else), "'else'");
    assert_eq!(misc_to_str(Misc::While), "'while'");
    assert_eq!(misc_to_str(Misc::Return), "'return'");
    assert_eq!(misc_to_str(Misc::Semicolon), "';'");
    assert_eq!(misc_to_str(Misc::ParenOpen), "'('");
    assert_eq!(misc_to_str(Misc::ParenClose), "')'");
    assert_eq!(misc_to_str(Misc::BraceOpen), "'{'");
    assert_eq!(misc_to_str(Misc::BraceClose), "'}'");
    assert_eq!(misc_to_str(Misc::BrackOpen), "'['");
    assert_eq!(misc_to_str(Misc::BrackClose), "']'");
    assert_eq!(misc_to_str(Misc::Comma), "','");
    assert_eq!(misc_to_str(Misc::Dot), "'.'");
    assert_eq!(misc_to_str(Misc::Arrow), "'->'");
    assert_eq!(misc_to_str(Misc::Assign), "'='");
}

#[test]
fn names_of_operators() {
    assert_eq!(op_to_str(BareOp::Plus), "'+'");
    assert_eq!(op_to_str(BareOp::Minus), "'-'");
    assert_eq!(op_to_str(BareOp::Mul), "'*'");
    assert_eq!(op_to_str(BareOp::Div), "'%'");
    assert_eq!(op_to_str(BareOp::Lt), "'<'");
    assert_eq!(op_to_str(BareOp::Leq), "'<='");
    assert_eq!(op_to_str(BareOp::Gt), "'>'");
    assert_eq!(op_to_str(BareOp::Geq), "'>='");
    assert_eq!(op_to_str(BareOp::Eq), "'=='");
    assert_eq!(op_to_str(BareOp::Neq), "'!='");
    assert_eq!(op_to_str(BareOp::And), "'&&'");
    assert_eq!(op_to_str(BareOp::Or), "'||'");
    assert_eq!(op_to_str(BareOp::Not), "'!'");
}

#[test]
fn names_of_tokens() {
    assert_eq!(token_to_str(Token::IdTok(4)), "identifier");
    assert_eq!(token_to_str(Token::Lit(LitVal::Int(4))), "literal");
    assert_eq!(token_to_str(Token::Lit(LitVal::Nil)), "literal");
    assert_eq!(token_to_str(Token::Selector(BareSelector::Hd)), "'hd'");
    assert_eq!(token_to_str(Token::Selector(BareSelector::Tl)), "'tl'");
    assert_eq!(token_to_str(Token::Selector(BareSelector::Fst)), "'fst'");
    assert_eq!(token_to_str(Token::Selector(BareSelector::Snd)), "'snd'");
    assert_eq!(token_to_str(Token::TypeTok(BType::IntT)), "'Int'");
    assert_eq!(token_to_str(Token::TypeTok(BType::BoolT)), "'Bool'");
    assert_eq!(token_to_str(Token::TypeTok(BType::UnitT)), "'Void'");
    assert_eq!(token_to_str(Token::Op(BareOp::Div)), "'%'");
    assert_eq!(token_to_str(Token::Marker(Misc::Var)), "'var'");
}

#[test]
fn names_of_shapes() {
    assert_eq!(tokpat_to_str(TokPat::AnySelector), "selector");
    assert_eq!(tokpat_to_str(TokPat::AnyOp), "operator");
    assert_eq!(tokpat_to_str(TokPat::Exactly(Token::Marker(Misc::Var))), "'var'");
    assert_eq!(tokpat_to_str(TokPat::Exactly(Token::TypeTok(BType::IntT))), "'Int'");
    assert_eq!(tokpat_to_str(TokPat::Exactly(Token::Marker(Misc::BraceOpen))), "'{'");
    assert_eq!(tokpat_to_str(TokPat::Exactly(Token::IdTok(0))), "identifier");
}

#[test]
fn shapes_match_their_tokens() {
    assert!(TokPat::AnyId.matches(Token::IdTok(9)));
    assert!(!TokPat::AnyId.matches(Token::Lit(LitVal::Nil)));
    assert!(TokPat::AnySelector.matches(Token::Selector(BareSelector::Snd)));
    assert!(!TokPat::AnySelector.matches(Token::Marker(Misc::Dot)));
    assert!(TokPat::AnyType.matches(Token::TypeTok(BType::CharT)));
    assert!(!TokPat::AnyType.matches(Token::IdTok(0)));
    assert!(TokPat::AnyLit.matches(Token::Lit(LitVal::Char('x'))));
    assert!(!TokPat::AnyLit.matches(Token::Op(BareOp::Plus)));
    assert!(TokPat::AnyOp.matches(Token::Op(BareOp::Not)));
    assert!(!TokPat::AnyOp.matches(Token::Marker(Misc::Assign)));
    assert!(TokPat::Exactly(Token::IdTok(3)).matches(Token::IdTok(3)));
    assert!(!TokPat::Exactly(Token::IdTok(3)).matches(Token::IdTok(4)));
    assert!(!TokPat::Exactly(Token::Marker(Misc::Comma)).matches(Token::Marker(Misc::Dot)));
}

#[test]
fn values_become_tokens() {
    assert_eq!(7u32.to_tok(), Token::IdTok(7));
    assert_eq!(BareSelector::Tl.to_tok(), Token::Selector(BareSelector::Tl));
    assert_eq!(BType::BoolT.to_tok(), Token::TypeTok(BType::BoolT));
    assert_eq!(LitVal::Int(5).to_tok(), Token::Lit(LitVal::Int(5)));
    assert_eq!(BareOp::Geq.to_tok(), Token::Op(BareOp::Geq));
    assert_eq!(Misc::Arrow.to_tok(), Token::Marker(Misc::Arrow));
    let l = Loc { line: 1, col: 2, len: 3 };
    assert_eq!(Misc::Comma.to_ltok(l), (Token::Marker(Misc::Comma), l));
    assert_eq!(1u32.to_ltok(l), (Token::IdTok(1), l));
}

#[test]
fn operator_levels() {
    assert_eq!(binary_prec(BareOp::Mul), Some(6));
    assert_eq!(binary_prec(BareOp::Div), Some(6));
    assert_eq!(binary_prec(BareOp::Plus), Some(5));
    assert_eq!(binary_prec(BareOp::Minus), Some(5));
    assert_eq!(binary_prec(BareOp::Lt), Some(4));
    assert_eq!(binary_prec(BareOp::Leq), Some(4));
    assert_eq!(binary_prec(BareOp::Gt), Some(4));
    assert_eq!(binary_prec(BareOp::Geq), Some(4));
    assert_eq!(binary_prec(BareOp::Eq), Some(3));
    assert_eq!(binary_prec(BareOp::Neq), Some(3));
    assert_eq!(binary_prec(BareOp::And), Some(2));
    assert_eq!(binary_prec(BareOp::Or), Some(1));
    assert_eq!(binary_prec(BareOp::Not), None);
}
