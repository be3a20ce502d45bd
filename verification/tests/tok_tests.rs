use lexparse::ast::BType;
use lexparse::parser::tok::{tokpat_to_str, Misc, TokPat, Token};

#[test]
fn test_sanity() {
    assert!(true);
}

#[test]
fn typetokpat_to_str() {
    assert_eq!(tokpat_to_str(TokPat::AnyType), "base type");
    assert_eq!(tokpat_to_str(TokPat::Exactly(Token::TypeTok(BType::CharT))), "'Char'");
}

#[test]
fn parenopen_to_str() {
    assert_eq!(tokpat_to_str(TokPat::Exactly(Token::Marker(Misc::ParenOpen))), "'('");
}

#[test]
fn idtok_to_str() {
    assert_eq!(tokpat_to_str(TokPat::AnyId), "identifier");
}

#[test]
fn lit_to_str() {
    assert_eq!(tokpat_to_str(TokPat::AnyLit), "literal");
}
