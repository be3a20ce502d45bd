//! Locations and tokens.

use crate::ast::{BareId, BareOp, BareSelector, BType, LitVal};
use vstd::prelude::*;

verus! {

/// Where a lexeme begins and how wide it is. While a token is being scanned
/// `len` grows; `col` moves only when the token is finished.
#[derive(Copy, Clone, Debug, PartialEq, Eq, Structural)]
pub struct Loc {
    pub line: u32,
    pub col: u16,
    pub len: u16,
}

impl Loc {
    /// The lexeme ends within the range of columns that can be represented.
    pub open spec fn fits(self) -> bool {
        self.col + self.len <= u16::MAX
    }

    /// The location at the start of the next line.
    pub open spec fn on_next_line(self) -> Loc {
        Loc { line: (self.line + 1) as u32, col: 0, len: 0 }
    }

    /// The location after the current lexeme: the column is past it, and the width is zero.
    pub open spec fn advanced(self) -> Loc {
        Loc { line: self.line, col: (self.col + self.len) as u16, len: 0 }
    }

    /// The location with the current lexeme one character longer.
    pub open spec fn stepped(self) -> Loc {
        Loc { line: self.line, col: self.col, len: (self.len + 1) as u16 }
    }

    /// Moves to the start of the next line.
    pub fn next_line(&mut self)
        requires
            old(self).line < u32::MAX,
        ensures
            *final(self) == old(self).on_next_line(),
    {
        self.line += 1;
        self.col = 0;
        self.len = 0;
    }

    /// Finishes the current lexeme: the column moves past it and the width starts again at zero.
    pub fn advance(&mut self)
        requires
            old(self).fits(),
        ensures
            *final(self) == old(self).advanced(),
    {
        self.col += self.len;
        self.len = 0;
    }

    /// Lengthens the current lexeme by one character.
    pub fn step(&mut self)
        requires
            old(self).len < u16::MAX,
        ensures
            *final(self) == old(self).stepped(),
    {
        self.len += 1;
    }
}

/// A value together with the location it was read at.
pub type Located<T> = (T, Loc);

/// Keywords and punctuation.
#[derive(Copy, Clone, Debug, PartialEq, Eq, Structural)]
pub enum Misc {
    Var,
    If,
    Else,
    While,
    Return,
    Semicolon,
    ParenOpen,
    ParenClose,
    BraceOpen,
    BraceClose,
    BrackOpen,
    BrackClose,
    Comma,
    Dot,
    Arrow,
    Assign,
}

/// A token of the language.
#[derive(Copy, Clone, Debug, PartialEq, Eq, Structural)]
pub enum Token {
    IdTok(BareId),
    Selector(BareSelector),
    TypeTok(BType),
    Lit(LitVal),
    Op(BareOp),
    Marker(Misc),
}

/// A token with the location of the character that began it.
pub type LocTok = Located<Token>;

/// A shape that a token may have: one exact token, or any token of a class.
#[derive(Copy, Clone, Debug, PartialEq, Eq, Structural)]
pub enum TokPat {
    AnyId,
    AnySelector,
    AnyType,
    AnyLit,
    AnyOp,
    Exactly(Token),
}

/// How a keyword or punctuation mark is named in messages.
pub open spec fn misc_name(m: Misc) -> Seq<char> {
    match m {
        Misc::Var => "'var'"@,
        Misc::If => "'if'"@,
        Misc::Else => "'else'"@,
        Misc::While => "'while'"@,
        Misc::Return => "'return'"@,
        Misc::Semicolon => "';'"@,
        Misc::ParenOpen => "'('"@,
        Misc::ParenClose => "')'"@,
        Misc::BraceOpen => "'{'"@,
        Misc::BraceClose => "'}'"@,
        Misc::BrackOpen => "'['"@,
        Misc::BrackClose => "']'"@,
        Misc::Comma => "','"@,
        Misc::Dot => "'.'"@,
        Misc::Arrow => "'->'"@,
        Misc::Assign => "'='"@,
    }
}

/// How an operator is named in messages: by the characters it is written with.
pub open spec fn op_name(op: BareOp) -> Seq<char> {
    match op {
        BareOp::Plus => "'+'"@,
        BareOp::Minus => "'-'"@,
        BareOp::Mul => "'*'"@,
        BareOp::Div => "'%'"@,
        BareOp::Lt => "'<'"@,
        BareOp::Leq => "'<='"@,
        BareOp::Gt => "'>'"@,
        BareOp::Geq => "'>='"@,
        BareOp::Eq => "'=='"@,
        BareOp::Neq => "'!='"@,
        BareOp::And => "'&&'"@,
        BareOp::Or => "'||'"@,
        BareOp::Not => "'!'"@,
    }
}

/// How a token is named in messages. Identifiers and literals are named by
/// their class, every other token by its spelling.
pub open spec fn token_name(t: Token) -> Seq<char> {
    match t {
        Token::IdTok(_) => "identifier"@,
        Token::Selector(BareSelector::Hd) => "'hd'"@,
        Token::Selector(BareSelector::Tl) => "'tl'"@,
        Token::Selector(BareSelector::Fst) => "'fst'"@,
        Token::Selector(BareSelector::Snd) => "'snd'"@,
        Token::TypeTok(BType::IntT) => "'Int'"@,
        Token::TypeTok(BType::BoolT) => "'Bool'"@,
        Token::TypeTok(BType::CharT) => "'Char'"@,
        Token::TypeTok(BType::UnitT) => "'Void'"@,
        Token::Lit(_) => "literal"@,
        Token::Op(op) => op_name(op),
        Token::Marker(m) => misc_name(m),
    }
}

/// How a token shape is named in messages.
pub open spec fn tokpat_name(p: TokPat) -> Seq<char> {
    match p {
        TokPat::AnyId => "identifier"@,
        TokPat::AnySelector => "selector"@,
        TokPat::AnyType => "base type"@,
        TokPat::AnyLit => "literal"@,
        TokPat::AnyOp => "operator"@,
        TokPat::Exactly(t) => token_name(t),
    }
}

impl TokPat {
    /// The token `t` has this shape.
    pub open spec fn matches_spec(self, t: Token) -> bool {
        match self {
            TokPat::AnyId => t is IdTok,
            TokPat::AnySelector => t is Selector,
            TokPat::AnyType => t is TypeTok,
            TokPat::AnyLit => t is Lit,
            TokPat::AnyOp => t is Op,
            TokPat::Exactly(u) => t == u,
        }
    }

    /// Tells whether the token `t` has this shape.
    pub fn matches(&self, t: Token) -> (b: bool)
        ensures
            b == self.matches_spec(t),
    {
        match *self {
            TokPat::AnyId => match t {
                Token::IdTok(_) => true,
                _ => false,
            },
            TokPat::AnySelector => match t {
                Token::Selector(_) => true,
                _ => false,
            },
            TokPat::AnyType => match t {
                Token::TypeTok(_) => true,
                _ => false,
            },
            TokPat::AnyLit => match t {
                Token::Lit(_) => true,
                _ => false,
            },
            TokPat::AnyOp => match t {
                Token::Op(_) => true,
                _ => false,
            },
            TokPat::Exactly(u) => t == u,
        }
    }
}

/// The name of a keyword or punctuation mark.
pub fn misc_to_str(m: Misc) -> (s: &'static str)
    ensures
        s@ == misc_name(m),
{
    match m {
        Misc::Var => "'var'",
        Misc::If => "'if'",
        Misc::Else => "'else'",
        Misc::While => "'while'",
        Misc::Return => "'return'",
        Misc::Semicolon => "';'",
        Misc::ParenOpen => "'('",
        Misc::ParenClose => "')'",
        Misc::BraceOpen => "'{'",
        Misc::BraceClose => "'}'",
        Misc::BrackOpen => "'['",
        Misc::BrackClose => "']'",
        Misc::Comma => "','",
        Misc::Dot => "'.'",
        Misc::Arrow => "'->'",
        Misc::Assign => "'='",
    }
}

/// The name of an operator.
pub fn op_to_str(op: BareOp) -> (s: &'static str)
    ensures
        s@ == op_name(op),
{
    match op {
        BareOp::Plus => "'+'",
        BareOp::Minus => "'-'",
        BareOp::Mul => "'*'",
        BareOp::Div => "'%'",
        BareOp::Lt => "'<'",
        BareOp::Leq => "'<='",
        BareOp::Gt => "'>'",
        BareOp::Geq => "'>='",
        BareOp::Eq => "'=='",
        BareOp::Neq => "'!='",
        BareOp::And => "'&&'",
        BareOp::Or => "'||'",
        BareOp::Not => "'!'",
    }
}

/// The name of a token.
pub fn token_to_str(t: Token) -> (s: &'static str)
    ensures
        s@ == token_name(t),
{
    match t {
        Token::IdTok(_) => "identifier",
        Token::Selector(BareSelector::Hd) => "'hd'",
        Token::Selector(BareSelector::Tl) => "'tl'",
        Token::Selector(BareSelector::Fst) => "'fst'",
        Token::Selector(BareSelector::Snd) => "'snd'",
        Token::TypeTok(BType::IntT) => "'Int'",
        Token::TypeTok(BType::BoolT) => "'Bool'",
        Token::TypeTok(BType::CharT) => "'Char'",
        Token::TypeTok(BType::UnitT) => "'Void'",
        Token::Lit(_) => "literal",
        Token::Op(op) => op_to_str(op),
        Token::Marker(m) => misc_to_str(m),
    }
}

/// The name of a token shape.
pub fn tokpat_to_str(p: TokPat) -> (s: &'static str)
    ensures
        s@ == tokpat_name(p),
{
    match p {
        TokPat::AnyId => "identifier",
        TokPat::AnySelector => "selector",
        TokPat::AnyType => "base type",
        TokPat::AnyLit => "literal",
        TokPat::AnyOp => "operator",
        TokPat::Exactly(t) => token_to_str(t),
    }
}

/// What can be turned into a token.
pub trait TokAble: Sized {
    /// The token that `self` stands for.
    spec fn tok(self) -> Token;

    /// Wraps `self` in the token variant of its type.
    fn to_tok(self) -> (t: Token)
        ensures
            t == self.tok(),
    ;

    /// Wraps `self` in its token and attaches the location `l`.
    fn to_ltok(self, l: Loc) -> (lt: LocTok)
        ensures
            lt == (self.tok(), l),
    {
        (self.to_tok(), l)
    }
}

impl TokAble for BareId {
    open spec fn tok(self) -> Token {
        Token::IdTok(self)
    }

    fn to_tok(self) -> Token {
        Token::IdTok(self)
    }
}

impl TokAble for BareSelector {
    open spec fn tok(self) -> Token {
        Token::Selector(self)
    }

    fn to_tok(self) -> Token {
        Token::Selector(self)
    }
}

impl TokAble for BType {
    open spec fn tok(self) -> Token {
        Token::TypeTok(self)
    }

    fn to_tok(self) -> Token {
        Token::TypeTok(self)
    }
}

impl TokAble for LitVal {
    open spec fn tok(self) -> Token {
        Token::Lit(self)
    }

    fn to_tok(self) -> Token {
        Token::Lit(self)
    }
}

impl TokAble for BareOp {
    open spec fn tok(self) -> Token {
        Token::Op(self)
    }

    fn to_tok(self) -> Token {
        Token::Op(self)
    }
}

impl TokAble for Misc {
    open spec fn tok(self) -> Token {
        Token::Marker(self)
    }

    fn to_tok(self) -> Token {
        Token::Marker(self)
    }
}

} // verus!
