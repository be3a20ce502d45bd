//! The lexer: from characters to located tokens, with identifier interning
//! and a one-slot buffer for lookahead and pushback.

use super::tok::{Loc, LocTok, Misc, Token};
use crate::ast::{BareId, BareOp, BType, LitVal};
use vstd::prelude::*;
use vstd::string::StrSliceExecFns;

verus! {

/// Why a piece of source text is not a token.
#[derive(Copy, Clone, Debug, PartialEq, Eq, Structural)]
pub enum LexErrorKind {
    /// A `&` that is not followed by a second `&`.
    LoneAmpersand,
    /// A `|` that is not followed by a second `|`.
    LonePipe,
    /// A character literal that is not closed on the character after its value.
    UnterminatedChar,
    /// A backslash as the value of a character literal.
    UnsupportedEscape,
    /// A block comment without its closing delimiter.
    UnterminatedComment,
    /// A character that starts no token.
    UnrecognizedChar,
    /// An integer literal above the largest value a literal can hold.
    IntTooLarge,
    /// More distinct identifiers than indices.
    TooManyNames,
    /// A lexeme at a line or column that a location cannot hold.
    PositionOverflow,
}

/// A lexical error and the location of the text that caused it.
#[derive(Copy, Clone, Debug, PartialEq, Eq, Structural)]
pub struct LexError {
    pub kind: LexErrorKind,
    pub loc: Loc,
}

/// What the lexer hands out: a located token, or the error that ends the sequence.
pub type LexItem = Result<LocTok, LexError>;

/// The message of each kind of lexical error.
pub open spec fn lex_message(kind: LexErrorKind) -> Seq<char> {
    match kind {
        LexErrorKind::LoneAmpersand => "Found lone &"@,
        LexErrorKind::LonePipe => "Found lone |"@,
        LexErrorKind::UnterminatedChar => "unterminated character literal"@,
        LexErrorKind::UnsupportedEscape => "escape sequences are not supported"@,
        LexErrorKind::UnterminatedComment => "unterminated block comment"@,
        LexErrorKind::UnrecognizedChar => "unrecognized character"@,
        LexErrorKind::IntTooLarge => "integer literal too large"@,
        LexErrorKind::TooManyNames => "too many identifiers"@,
        LexErrorKind::PositionOverflow => "source position out of range"@,
    }
}

/// The message of a kind of lexical error.
pub fn lex_kind_to_str(kind: LexErrorKind) -> (s: &'static str)
    ensures
        s@ == lex_message(kind),
{
    match kind {
        LexErrorKind::LoneAmpersand => "Found lone &",
        LexErrorKind::LonePipe => "Found lone |",
        LexErrorKind::UnterminatedChar => "unterminated character literal",
        LexErrorKind::UnsupportedEscape => "escape sequences are not supported",
        LexErrorKind::UnterminatedComment => "unterminated block comment",
        LexErrorKind::UnrecognizedChar => "unrecognized character",
        LexErrorKind::IntTooLarge => "integer literal too large",
        LexErrorKind::TooManyNames => "too many identifiers",
        LexErrorKind::PositionOverflow => "source position out of range",
    }
}

impl LexError {
    /// The message that describes the error.
    pub fn message(&self) -> (s: &'static str)
        ensures
            s@ == lex_message(self.kind),
    {
        lex_kind_to_str(self.kind)
    }
}

// ---------------------------------------------------------------------------
// Character classes
// ---------------------------------------------------------------------------

/// Characters that may begin an identifier or keyword.
pub open spec fn is_letter(c: char) -> bool {
    ('a' <= c && c <= 'z') || ('A' <= c && c <= 'Z') || c == '_'
}

/// Decimal digits.
pub open spec fn is_digit(c: char) -> bool {
    '0' <= c && c <= '9'
}

/// Characters that may continue an identifier or keyword.
pub open spec fn is_ident_char(c: char) -> bool {
    is_letter(c) || is_digit(c)
}

/// Blank characters, the line terminator among them.
pub open spec fn is_space(c: char) -> bool {
    c == ' ' || c == '\t' || c == '\n' || c == '\r'
}

/// The value of a decimal digit.
pub open spec fn digit_value(c: char) -> nat {
    (c as u32 - '0' as u32) as nat
}

fn letter(c: char) -> (b: bool)
    ensures
        b == is_letter(c),
{
    (c >= 'a' && c <= 'z') || (c >= 'A' && c <= 'Z') || c == '_'
}

fn digit(c: char) -> (b: bool)
    ensures
        b == is_digit(c),
{
    c >= '0' && c <= '9'
}

fn ident_char(c: char) -> (b: bool)
    ensures
        b == is_ident_char(c),
{
    letter(c) || digit(c)
}

fn space(c: char) -> (b: bool)
    ensures
        b == is_space(c),
{
    c == ' ' || c == '\t' || c == '\n' || c == '\r'
}

// ---------------------------------------------------------------------------
// Lines and columns
// ---------------------------------------------------------------------------

/// The character at index `i`, if there is one.
pub open spec fn char_at(src: Seq<char>, i: int) -> Option<char> {
    if 0 <= i < src.len() {
        Some(src[i])
    } else {
        None
    }
}

/// The number of line terminators before index `pos`: the line of `pos`, counted from zero.
pub open spec fn line_of(src: Seq<char>, pos: int) -> nat
    decreases pos,
{
    if pos <= 0 {
        0
    } else if src[pos - 1] == '\n' {
        line_of(src, pos - 1) + 1
    } else {
        line_of(src, pos - 1)
    }
}

/// The index at which the line of `pos` begins.
pub open spec fn line_start(src: Seq<char>, pos: int) -> int
    decreases pos,
{
    if pos <= 0 {
        0
    } else if src[pos - 1] == '\n' {
        pos
    } else {
        line_start(src, pos - 1)
    }
}

/// The column of `pos`, counted from zero.
pub open spec fn col_of(src: Seq<char>, pos: int) -> int {
    pos - line_start(src, pos)
}

/// The location of the `len` characters from index `start`, where a location can hold it.
pub open spec fn loc_at(src: Seq<char>, start: int, len: int) -> Option<Loc> {
    let line = line_of(src, start);
    let col = col_of(src, start);
    if line <= u32::MAX && col + len <= u16::MAX {
        Some(Loc { line: line as u32, col: col as u16, len: len as u16 })
    } else {
        None
    }
}

/// The nearest location to index `start` that can be held: line and column
/// are each cut off at their largest value, and the width is zero.
pub open spec fn nearest_loc(src: Seq<char>, start: int) -> Loc {
    let line = line_of(src, start);
    let col = col_of(src, start);
    Loc {
        line: if line <= u32::MAX { line as u32 } else { u32::MAX },
        col: if col <= u16::MAX { col as u16 } else { u16::MAX },
        len: 0,
    }
}

/// The lexical error of kind `kind` for the `len` characters from `start`. Where
/// their location cannot be held, the error is a position overflow instead, at
/// the nearest location.
pub open spec fn error_at(src: Seq<char>, start: int, len: int, kind: LexErrorKind) -> LexError {
    match loc_at(src, start, len) {
        Some(loc) => LexError { kind, loc },
        None => LexError { kind: LexErrorKind::PositionOverflow, loc: nearest_loc(src, start) },
    }
}

/// No index is on a line beyond its own number, and every line begins at or
/// before the indices on it.
pub proof fn lemma_line_bounds(src: Seq<char>, pos: int)
    requires
        0 <= pos,
    ensures
        line_of(src, pos) <= pos,
        0 <= line_start(src, pos) <= pos,
    decreases pos,
{
    if pos > 0 {
        lemma_line_bounds(src, pos - 1);
    }
}

// ---------------------------------------------------------------------------
// Blank space and comments
// ---------------------------------------------------------------------------

/// The index of the first line terminator at or after `pos`, or the length of
/// the text if there is none.
pub open spec fn line_end(src: Seq<char>, pos: int) -> int
    decreases src.len() - pos,
{
    if pos >= src.len() {
        src.len() as int
    } else if src[pos] == '\n' {
        pos
    } else {
        line_end(src, pos + 1)
    }
}

/// The index just past the first `*/` that begins at or after `pos`, if there is one.
pub open spec fn comment_close(src: Seq<char>, pos: int) -> Option<int>
    decreases src.len() - pos,
{
    if pos + 1 >= src.len() {
        None
    } else if src[pos] == '*' && src[pos + 1] == '/' {
        Some(pos + 2)
    } else {
        comment_close(src, pos + 1)
    }
}

/// A line comment begins at `pos`.
pub open spec fn line_comment_at(src: Seq<char>, pos: int) -> bool {
    char_at(src, pos) == Some('/') && char_at(src, pos + 1) == Some('/')
}

/// A block comment begins at `pos`.
pub open spec fn block_comment_at(src: Seq<char>, pos: int) -> bool {
    char_at(src, pos) == Some('/') && char_at(src, pos + 1) == Some('*')
}

/// Where blank space and comments end.
pub enum Trivia {
    /// The index of the next character that belongs to a token, or the length of the text.
    Clear(int),
    /// The index at which a block comment begins that is never closed.
    Open(int),
}

/// Skips blank space, line comments and block comments from `pos` on.
pub open spec fn skip_trivia(src: Seq<char>, pos: int) -> Trivia
    decreases src.len() - pos,
{
    if pos < 0 || pos >= src.len() {
        Trivia::Clear(pos)
    } else if is_space(src[pos]) {
        skip_trivia(src, pos + 1)
    } else if line_comment_at(src, pos) {
        proof {
            lemma_line_end_bounds(src, pos + 2);
        }
        skip_trivia(src, line_end(src, pos + 2))
    } else if block_comment_at(src, pos) {
        proof {
            lemma_comment_close_bounds(src, pos + 2);
        }
        match comment_close(src, pos + 2) {
            Some(e) => skip_trivia(src, e),
            None => Trivia::Open(pos),
        }
    } else {
        Trivia::Clear(pos)
    }
}

/// A line ends at or after every index on it, and inside the text.
pub proof fn lemma_line_end_bounds(src: Seq<char>, pos: int)
    requires
        0 <= pos <= src.len(),
    ensures
        pos <= line_end(src, pos) <= src.len(),
    decreases src.len() - pos,
{
    if pos < src.len() && src[pos] != '\n' {
        lemma_line_end_bounds(src, pos + 1);
    }
}

/// A block comment closes after the two characters that close it, and inside the text.
pub proof fn lemma_comment_close_bounds(src: Seq<char>, pos: int)
    requires
        0 <= pos,
    ensures
        comment_close(src, pos) matches Some(e) ==> pos + 2 <= e <= src.len(),
    decreases src.len() - pos,
{
    if pos + 1 < src.len() && !(src[pos] == '*' && src[pos + 1] == '/') {
        lemma_comment_close_bounds(src, pos + 1);
    }
}

/// Skipping ends inside the text, at a character that starts neither blank
/// space nor a comment, or at the end of the text.
pub proof fn lemma_skip_trivia_bounds(src: Seq<char>, pos: int)
    requires
        0 <= pos <= src.len(),
    ensures
        match skip_trivia(src, pos) {
            Trivia::Clear(p) => pos <= p <= src.len() && (p < src.len() ==> !is_space(src[p])
                && !line_comment_at(src, p) && !block_comment_at(src, p)),
            Trivia::Open(at) => pos <= at < src.len() && block_comment_at(src, at),
        },
    decreases src.len() - pos,
{
    if pos >= src.len() {
    } else if is_space(src[pos]) {
        lemma_skip_trivia_bounds(src, pos + 1);
    } else if line_comment_at(src, pos) {
        lemma_line_end_bounds(src, pos + 2);
        lemma_skip_trivia_bounds(src, line_end(src, pos + 2));
    } else if block_comment_at(src, pos) {
        lemma_comment_close_bounds(src, pos + 2);
        match comment_close(src, pos + 2) {
            Some(e) => {
                lemma_skip_trivia_bounds(src, e);
            },
            None => {},
        }
    }
}

// ---------------------------------------------------------------------------
// Lexemes
// ---------------------------------------------------------------------------

/// The index at which the run of identifier characters from `pos` ends.
pub open spec fn ident_end(src: Seq<char>, pos: int) -> int
    decreases src.len() - pos,
{
    if 0 <= pos < src.len() && is_ident_char(src[pos]) {
        ident_end(src, pos + 1)
    } else {
        pos
    }
}

/// The index at which the run of digits from `pos` ends.
pub open spec fn digits_end(src: Seq<char>, pos: int) -> int
    decreases src.len() - pos,
{
    if 0 <= pos < src.len() && is_digit(src[pos]) {
        digits_end(src, pos + 1)
    } else {
        pos
    }
}

/// The number that the digits from index `start` up to `end` denote in base ten.
pub open spec fn number_value(src: Seq<char>, start: int, end: int) -> nat
    decreases end - start,
{
    if end <= start {
        0
    } else {
        10 * number_value(src, start, end - 1) + digit_value(src[end - 1])
    }
}

/// The shape of the lexeme that begins at an index.
pub enum Scan {
    /// A token that its characters determine, and how many characters it has.
    Plain(Token, int),
    /// A run of identifier characters of the given length.
    Word(int),
    /// A run of digits of the given length.
    Number(int),
    /// No token: the kind of error, and how many characters were read to find it.
    Bad(LexErrorKind, int),
}

/// One of the two-character tokens that begin with `src[pos]`, where the
/// second character is `second`, or else the one-character meaning.
pub open spec fn one_or_two(src: Seq<char>, pos: int, second: char, two: Token, one: Token) -> Scan {
    if char_at(src, pos + 1) == Some(second) {
        Scan::Plain(two, 2)
    } else {
        Scan::Plain(one, 1)
    }
}

/// A doubled operator character, which has no meaning alone.
pub open spec fn doubled(src: Seq<char>, pos: int, c: char, two: Token, alone: LexErrorKind) -> Scan {
    if char_at(src, pos + 1) == Some(c) {
        Scan::Plain(two, 2)
    } else {
        Scan::Bad(alone, 1)
    }
}

/// A character literal whose opening quote is at `pos`: the next character is
/// its value, and the one after that must be the closing quote.
pub open spec fn char_literal(src: Seq<char>, pos: int) -> Scan {
    match char_at(src, pos + 1) {
        None => Scan::Bad(LexErrorKind::UnterminatedChar, 1),
        Some(c) => if c == '\n' {
            Scan::Bad(LexErrorKind::UnterminatedChar, 1)
        } else if c == '\\' {
            Scan::Bad(LexErrorKind::UnsupportedEscape, 2)
        } else if char_at(src, pos + 2) == Some('\'') {
            Scan::Plain(Token::Lit(LitVal::Char(c)), 3)
        } else {
            Scan::Bad(LexErrorKind::UnterminatedChar, 2)
        },
    }
}

/// The lexeme that begins at `pos`, an index inside the text at which neither
/// blank space nor a comment begins.
pub open spec fn scan(src: Seq<char>, pos: int) -> Scan {
    let c = src[pos];
    if c == '+' {
        Scan::Plain(Token::Op(BareOp::Plus), 1)
    } else if c == '-' {
        one_or_two(src, pos, '>', Token::Marker(Misc::Arrow), Token::Op(BareOp::Minus))
    } else if c == '*' {
        Scan::Plain(Token::Op(BareOp::Mul), 1)
    } else if c == '%' {
        Scan::Plain(Token::Op(BareOp::Div), 1)
    } else if c == ';' {
        Scan::Plain(Token::Marker(Misc::Semicolon), 1)
    } else if c == '(' {
        Scan::Plain(Token::Marker(Misc::ParenOpen), 1)
    } else if c == ')' {
        Scan::Plain(Token::Marker(Misc::ParenClose), 1)
    } else if c == '{' {
        Scan::Plain(Token::Marker(Misc::BraceOpen), 1)
    } else if c == '}' {
        Scan::Plain(Token::Marker(Misc::BraceClose), 1)
    } else if c == ']' {
        Scan::Plain(Token::Marker(Misc::BrackClose), 1)
    } else if c == ',' {
        Scan::Plain(Token::Marker(Misc::Comma), 1)
    } else if c == '.' {
        Scan::Plain(Token::Marker(Misc::Dot), 1)
    } else if c == '[' {
        one_or_two(src, pos, ']', Token::Lit(LitVal::Nil), Token::Marker(Misc::BrackOpen))
    } else if c == '<' {
        one_or_two(src, pos, '=', Token::Op(BareOp::Leq), Token::Op(BareOp::Lt))
    } else if c == '>' {
        one_or_two(src, pos, '=', Token::Op(BareOp::Geq), Token::Op(BareOp::Gt))
    } else if c == '!' {
        one_or_two(src, pos, '=', Token::Op(BareOp::Neq), Token::Op(BareOp::Not))
    } else if c == '=' {
        one_or_two(src, pos, '=', Token::Op(BareOp::Eq), Token::Marker(Misc::Assign))
    } else if c == '&' {
        doubled(src, pos, '&', Token::Op(BareOp::And), LexErrorKind::LoneAmpersand)
    } else if c == '|' {
        doubled(src, pos, '|', Token::Op(BareOp::Or), LexErrorKind::LonePipe)
    } else if c == '\'' {
        char_literal(src, pos)
    } else if is_letter(c) {
        Scan::Word(ident_end(src, pos) - pos)
    } else if is_digit(c) {
        Scan::Number(digits_end(src, pos) - pos)
    } else {
        Scan::Bad(LexErrorKind::UnrecognizedChar, 1)
    }
}

/// The token of a keyword or of the name of a primitive type.
pub open spec fn keyword(word: Seq<char>) -> Option<Token> {
    if word == "var"@ {
        Some(Token::Marker(Misc::Var))
    } else if word == "if"@ {
        Some(Token::Marker(Misc::If))
    } else if word == "else"@ {
        Some(Token::Marker(Misc::Else))
    } else if word == "while"@ {
        Some(Token::Marker(Misc::While))
    } else if word == "return"@ {
        Some(Token::Marker(Misc::Return))
    } else if word == "Int"@ {
        Some(Token::TypeTok(BType::IntT))
    } else if word == "Bool"@ {
        Some(Token::TypeTok(BType::BoolT))
    } else if word == "Char"@ {
        Some(Token::TypeTok(BType::CharT))
    } else if word == "Void"@ {
        Some(Token::TypeTok(BType::UnitT))
    } else {
        None
    }
}

// ---------------------------------------------------------------------------
// The name table
// ---------------------------------------------------------------------------

/// The least index at which `name` stands in `names`, or the length of `names`
/// if it stands nowhere.
pub open spec fn find_name(names: Seq<Seq<char>>, name: Seq<char>) -> int
    decreases names.len(),
{
    if names.len() == 0 {
        0
    } else {
        let before = find_name(names.drop_last(), name);
        if before < names.len() - 1 {
            before
        } else if names.last() == name {
            names.len() - 1
        } else {
            names.len() as int
        }
    }
}

/// The table after `name` has been looked up in it: unchanged if the name is
/// known, and with the name at the end if it is new.
pub open spec fn interned(names: Seq<Seq<char>>, name: Seq<char>) -> Seq<Seq<char>> {
    if find_name(names, name) < names.len() {
        names
    } else {
        names.push(name)
    }
}

/// No spelling stands in the table twice.
pub open spec fn distinct(names: Seq<Seq<char>>) -> bool {
    forall|i: int, j: int| 0 <= i < j < names.len() ==> names[i] != names[j]
}

/// `find_name` gives an index of the name if there is one, and the length otherwise.
pub proof fn lemma_find_name(names: Seq<Seq<char>>, name: Seq<char>)
    ensures
        0 <= find_name(names, name) <= names.len(),
        find_name(names, name) < names.len() ==> names[find_name(names, name)] == name,
        forall|i: int| 0 <= i < find_name(names, name) ==> names[i] != name,
    decreases names.len(),
{
    if names.len() > 0 {
        lemma_find_name(names.drop_last(), name);
        assert(forall|i: int| 0 <= i < names.len() - 1 ==> names.drop_last()[i] == names[i]);
    }
}

// ---------------------------------------------------------------------------
// One step of the lexer, and all of them
// ---------------------------------------------------------------------------

/// What one step of the lexer yields.
pub enum Step {
    /// Nothing but blank space and comments is left.
    End,
    /// A token, the index just past it, and the name table after it.
    Tok { tok: LocTok, next: int, names: Seq<Seq<char>> },
    /// An error, which ends the sequence.
    Fail(LexError),
}

/// A token of `len` characters at `start`, or a position overflow where its
/// location cannot be held.
pub open spec fn token_at(
    src: Seq<char>,
    start: int,
    len: int,
    tok: Token,
    names: Seq<Seq<char>>,
) -> Step {
    match loc_at(src, start, len) {
        Some(loc) => Step::Tok { tok: (tok, loc), next: start + len, names },
        None => Step::Fail(error_at(src, start, len, LexErrorKind::PositionOverflow)),
    }
}

/// The token of a run of identifier characters: a keyword, the name of a
/// primitive type, or an identifier with its index in the name table.
pub open spec fn word_token(src: Seq<char>, start: int, len: int, names: Seq<Seq<char>>) -> Step {
    let word = src.subrange(start, start + len);
    match keyword(word) {
        Some(tok) => token_at(src, start, len, tok, names),
        None => {
            let idx = find_name(names, word);
            if idx <= u32::MAX {
                token_at(src, start, len, Token::IdTok(idx as u32), interned(names, word))
            } else {
                Step::Fail(error_at(src, start, len, LexErrorKind::TooManyNames))
            }
        },
    }
}

/// The token of a run of digits.
pub open spec fn number_token(src: Seq<char>, start: int, len: int, names: Seq<Seq<char>>) -> Step {
    let value = number_value(src, start, start + len);
    if value <= u64::MAX {
        token_at(src, start, len, Token::Lit(LitVal::Int(value as u64)), names)
    } else {
        Step::Fail(error_at(src, start, len, LexErrorKind::IntTooLarge))
    }
}

/// One step of the lexer from index `pos` with the name table `names`: skips
/// blank space and comments, then reads one token.
pub open spec fn lex_step(src: Seq<char>, pos: int, names: Seq<Seq<char>>) -> Step {
    match skip_trivia(src, pos) {
        Trivia::Open(at) => Step::Fail(error_at(src, at, 2, LexErrorKind::UnterminatedComment)),
        Trivia::Clear(start) => if start >= src.len() {
            Step::End
        } else {
            match scan(src, start) {
                Scan::Plain(tok, len) => token_at(src, start, len, tok, names),
                Scan::Word(len) => word_token(src, start, len, names),
                Scan::Number(len) => number_token(src, start, len, names),
                Scan::Bad(kind, len) => Step::Fail(error_at(src, start, len, kind)),
            }
        },
    }
}

/// A sequence of tokens and how it ends: with an error, or with the end of the input.
pub struct TokStream {
    pub toks: Seq<LocTok>,
    pub end: Option<LexError>,
}

impl TokStream {
    /// The stream that holds nothing.
    pub open spec fn empty() -> TokStream {
        TokStream { toks: Seq::empty(), end: None }
    }

    /// The next item: the first token, or the error once the tokens are used up.
    pub open spec fn head(self) -> Option<LexItem> {
        if self.toks.len() > 0 {
            Some(Ok(self.toks[0]))
        } else {
            match self.end {
                Some(e) => Some(Err(e)),
                None => None,
            }
        }
    }

    /// The stream after its next item has been taken. An error is handed out
    /// once; after it the stream holds nothing.
    pub open spec fn tail(self) -> TokStream {
        if self.toks.len() > 0 {
            TokStream { toks: self.toks.drop_first(), end: self.end }
        } else {
            TokStream::empty()
        }
    }

    /// The stream with `tok` put in front.
    pub open spec fn cons(self, tok: LocTok) -> TokStream {
        TokStream { toks: seq![tok] + self.toks, end: self.end }
    }

    /// Every token ends within the range of columns.
    pub open spec fn fits(self) -> bool {
        forall|i: int| 0 <= i < self.toks.len() ==> (#[trigger] self.toks[i]).1.fits()
    }
}

/// All the tokens from index `pos` on, with the name table `names` to begin with.
pub open spec fn lex_all(src: Seq<char>, pos: int, names: Seq<Seq<char>>) -> TokStream
    decreases src.len() - pos,
{
    if pos < 0 || pos > src.len() {
        TokStream::empty()
    } else {
        match lex_step(src, pos, names) {
            Step::End => TokStream::empty(),
            Step::Fail(e) => TokStream { toks: Seq::empty(), end: Some(e) },
            Step::Tok { tok, next, names: names2 } => {
                proof {
                    lemma_lex_step_advances(src, pos, names);
                }
                lex_all(src, next, names2).cons(tok)
            },
        }
    }
}

/// A run of identifier characters ends inside the text, and holds nothing else.
pub proof fn lemma_ident_end_bounds(src: Seq<char>, pos: int)
    requires
        0 <= pos <= src.len(),
    ensures
        pos <= ident_end(src, pos) <= src.len(),
        forall|i: int| pos <= i < ident_end(src, pos) ==> is_ident_char(src[i]),
    decreases src.len() - pos,
{
    if pos < src.len() && is_ident_char(src[pos]) {
        lemma_ident_end_bounds(src, pos + 1);
    }
}

/// A run of digits ends inside the text, and holds nothing else.
pub proof fn lemma_digits_end_bounds(src: Seq<char>, pos: int)
    requires
        0 <= pos <= src.len(),
    ensures
        pos <= digits_end(src, pos) <= src.len(),
        forall|i: int| pos <= i < digits_end(src, pos) ==> is_digit(src[i]),
    decreases src.len() - pos,
{
    if pos < src.len() && is_digit(src[pos]) {
        lemma_digits_end_bounds(src, pos + 1);
    }
}

/// A lexeme has at least one character and lies inside the text, but for an
/// error, which may be found on reading the end of the text.
pub proof fn lemma_scan_bounds(src: Seq<char>, pos: int)
    requires
        0 <= pos < src.len(),
    ensures
        match scan(src, pos) {
            Scan::Plain(_, len) => 1 <= len && pos + len <= src.len(),
            Scan::Word(len) => 1 <= len && pos + len <= src.len(),
            Scan::Number(len) => 1 <= len && pos + len <= src.len(),
            Scan::Bad(_, len) => 1 <= len && pos + len <= src.len(),
        },
{
    lemma_ident_end_bounds(src, pos + 1);
    lemma_digits_end_bounds(src, pos + 1);
}

/// A step that yields a token moves forward, and stays inside the text.
pub proof fn lemma_lex_step_advances(src: Seq<char>, pos: int, names: Seq<Seq<char>>)
    requires
        0 <= pos <= src.len(),
    ensures
        lex_step(src, pos, names) matches Step::Tok { tok, next, names: names2 } ==> pos < next
            <= src.len() && tok.1.fits(),
{
    lemma_skip_trivia_bounds(src, pos);
    match skip_trivia(src, pos) {
        Trivia::Clear(start) => {
            if start < src.len() {
                lemma_scan_bounds(src, start);
                lemma_line_bounds(src, start);
            }
        },
        Trivia::Open(_) => {},
    }
}

// ---------------------------------------------------------------------------
// Reading characters
// ---------------------------------------------------------------------------

/// A place in the text: an index with the line it is on and the index at
/// which that line begins.
#[derive(Clone, Copy)]
struct Cursor {
    pos: usize,
    line: usize,
    bol: usize,
}

impl Cursor {
    /// The line and line start are those of `pos` in `src`.
    spec fn ok(self, src: Seq<char>) -> bool {
        &&& self.pos <= src.len()
        &&& self.line == line_of(src, self.pos as int)
        &&& self.bol == line_start(src, self.pos as int)
    }

    fn start() -> (c: Cursor)
        ensures
            c.pos == 0,
            forall|src: Seq<char>| c.ok(src),
    {
        Cursor { pos: 0, line: 0, bol: 0 }
    }

    /// Moves over one character.
    fn bump(self, src: &Vec<char>) -> (c: Cursor)
        requires
            self.ok(src@),
            self.pos < src.len(),
        ensures
            c.ok(src@),
            c.pos == self.pos + 1,
    {
        proof {
            lemma_line_bounds(src@, self.pos as int);
        }
        if src[self.pos] == '\n' {
            Cursor { pos: self.pos + 1, line: self.line + 1, bol: self.pos + 1 }
        } else {
            Cursor { pos: self.pos + 1, line: self.line, bol: self.bol }
        }
    }

    /// Moves over `n` characters.
    fn skip(self, src: &Vec<char>, n: usize) -> (c: Cursor)
        requires
            self.ok(src@),
            self.pos + n <= src.len(),
        ensures
            c.ok(src@),
            c.pos == self.pos + n,
    {
        let mut c = self;
        let mut i: usize = 0;
        while i < n
            invariant
                c.ok(src@),
                i <= n,
                c.pos == self.pos + i,
                self.pos + n <= src.len(),
            decreases n - i,
        {
            c = c.bump(src);
            i += 1;
        }
        c
    }

    /// The location of the `len` characters from here on.
    fn loc(self, src: &Vec<char>, len: usize) -> (l: Option<Loc>)
        requires
            self.ok(src@),
        ensures
            l == loc_at(src@, self.pos as int, len as int),
    {
        proof {
            lemma_line_bounds(src@, self.pos as int);
        }
        let col = self.pos - self.bol;
        if self.line <= u32::MAX as usize && col <= u16::MAX as usize && len <= u16::MAX as usize
            - col {
            Some(Loc { line: self.line as u32, col: col as u16, len: len as u16 })
        } else {
            None
        }
    }

    /// The error of kind `kind` for the `len` characters from here on.
    fn error(self, src: &Vec<char>, len: usize, kind: LexErrorKind) -> (e: LexError)
        requires
            self.ok(src@),
        ensures
            e == error_at(src@, self.pos as int, len as int, kind),
    {
        proof {
            lemma_line_bounds(src@, self.pos as int);
        }
        match self.loc(src, len) {
            Some(loc) => LexError { kind, loc },
            None => {
                let col = self.pos - self.bol;
                LexError {
                    kind: LexErrorKind::PositionOverflow,
                    loc: Loc {
                        line: if self.line <= u32::MAX as usize {
                            self.line as u32
                        } else {
                            u32::MAX
                        },
                        col: if col <= u16::MAX as usize {
                            col as u16
                        } else {
                            u16::MAX
                        },
                        len: 0,
                    },
                }
            },
        }
    }
}

/// Reads past blank space and comments.
fn skip_blank(src: &Vec<char>, at: Cursor) -> (r: Result<Cursor, LexError>)
    requires
        at.ok(src@),
    ensures
        match skip_trivia(src@, at.pos as int) {
            Trivia::Clear(p) => r matches Ok(c) && c.ok(src@) && c.pos == p,
            Trivia::Open(o) => r == Err::<Cursor, LexError>(
                error_at(src@, o, 2, LexErrorKind::UnterminatedComment),
            ),
        },
{
    let mut cur = at;
    loop
        invariant
            cur.ok(src@),
            skip_trivia(src@, cur.pos as int) == skip_trivia(src@, at.pos as int),
        decreases src.len() - cur.pos,
    {
        if cur.pos >= src.len() {
            return Ok(cur);
        }
        let c = src[cur.pos];
        let second = cur.pos + 1 < src.len();
        if space(c) {
            cur = cur.bump(src);
        } else if c == '/' && second && src[cur.pos + 1] == '/' {
            let ghost from = cur.pos as int;
            cur = cur.bump(src);
            cur = cur.bump(src);
            while cur.pos < src.len() && src[cur.pos] != '\n'
                invariant
                    cur.ok(src@),
                    from + 2 <= cur.pos,
                    line_end(src@, cur.pos as int) == line_end(src@, from + 2),
                decreases src.len() - cur.pos,
            {
                cur = cur.bump(src);
            }
        } else if c == '/' && second && src[cur.pos + 1] == '*' {
            let open = cur;
            cur = cur.bump(src);
            cur = cur.bump(src);
            loop
                invariant_except_break
                    cur.ok(src@),
                    open.pos + 2 <= cur.pos,
                    comment_close(src@, cur.pos as int) == comment_close(src@, open.pos + 2),
                invariant
                    open.ok(src@),
                    block_comment_at(src@, open.pos as int),
                    skip_trivia(src@, open.pos as int) == skip_trivia(src@, at.pos as int),
                ensures
                    cur.ok(src@),
                    skip_trivia(src@, cur.pos as int) == skip_trivia(src@, at.pos as int),
                    open.pos < cur.pos,
                decreases src.len() - cur.pos,
            {
                if src.len() - cur.pos <= 1 {
                    return Err(open.error(src, 2, LexErrorKind::UnterminatedComment));
                }
                if src[cur.pos] == '*' && src[cur.pos + 1] == '/' {
                    cur = cur.bump(src);
                    cur = cur.bump(src);
                    break ;
                }
                cur = cur.bump(src);
            }
        } else {
            return Ok(cur);
        }
    }
}

/// The shape of a lexeme, with lengths as the lexer counts them.
enum Lexeme {
    Plain(Token, usize),
    Word(usize),
    Number(usize),
    Bad(LexErrorKind, usize),
}

impl Lexeme {
    spec fn view(self) -> Scan {
        match self {
            Lexeme::Plain(t, n) => Scan::Plain(t, n as int),
            Lexeme::Word(n) => Scan::Word(n as int),
            Lexeme::Number(n) => Scan::Number(n as int),
            Lexeme::Bad(k, n) => Scan::Bad(k, n as int),
        }
    }
}

/// Tells whether the character after index `pos` is `c`.
fn followed_by(src: &Vec<char>, pos: usize, c: char) -> (b: bool)
    requires
        pos < src.len(),
    ensures
        b == (char_at(src@, pos + 1) == Some(c)),
{
    pos + 1 < src.len() && src[pos + 1] == c
}

/// Finds where the run of identifier characters from `pos` ends.
fn word_end(src: &Vec<char>, pos: usize) -> (end: usize)
    requires
        pos <= src.len(),
    ensures
        end == ident_end(src@, pos as int),
        pos <= end <= src.len(),
{
    let mut end = pos;
    while end < src.len() && ident_char(src[end])
        invariant
            pos <= end <= src.len(),
            ident_end(src@, end as int) == ident_end(src@, pos as int),
        decreases src.len() - end,
    {
        end += 1;
    }
    end
}

/// Finds where the run of digits from `pos` ends.
fn number_end(src: &Vec<char>, pos: usize) -> (end: usize)
    requires
        pos <= src.len(),
    ensures
        end == digits_end(src@, pos as int),
        pos <= end <= src.len(),
{
    let mut end = pos;
    while end < src.len() && digit(src[end])
        invariant
            pos <= end <= src.len(),
            digits_end(src@, end as int) == digits_end(src@, pos as int),
        decreases src.len() - end,
    {
        end += 1;
    }
    end
}

/// Reads the shape of the lexeme at `pos`.
fn scan_at(src: &Vec<char>, pos: usize) -> (x: Lexeme)
    requires
        pos < src.len(),
    ensures
        x@ == scan(src@, pos as int),
{
    let c = src[pos];
    if c == '+' {
        Lexeme::Plain(Token::Op(BareOp::Plus), 1)
    } else if c == '-' {
        if followed_by(src, pos, '>') {
            Lexeme::Plain(Token::Marker(Misc::Arrow), 2)
        } else {
            Lexeme::Plain(Token::Op(BareOp::Minus), 1)
        }
    } else if c == '*' {
        Lexeme::Plain(Token::Op(BareOp::Mul), 1)
    } else if c == '%' {
        Lexeme::Plain(Token::Op(BareOp::Div), 1)
    } else if c == ';' {
        Lexeme::Plain(Token::Marker(Misc::Semicolon), 1)
    } else if c == '(' {
        Lexeme::Plain(Token::Marker(Misc::ParenOpen), 1)
    } else if c == ')' {
        Lexeme::Plain(Token::Marker(Misc::ParenClose), 1)
    } else if c == '{' {
        Lexeme::Plain(Token::Marker(Misc::BraceOpen), 1)
    } else if c == '}' {
        Lexeme::Plain(Token::Marker(Misc::BraceClose), 1)
    } else if c == ']' {
        Lexeme::Plain(Token::Marker(Misc::BrackClose), 1)
    } else if c == ',' {
        Lexeme::Plain(Token::Marker(Misc::Comma), 1)
    } else if c == '.' {
        Lexeme::Plain(Token::Marker(Misc::Dot), 1)
    } else if c == '[' {
        if followed_by(src, pos, ']') {
            Lexeme::Plain(Token::Lit(LitVal::Nil), 2)
        } else {
            Lexeme::Plain(Token::Marker(Misc::BrackOpen), 1)
        }
    } else if c == '<' {
        if followed_by(src, pos, '=') {
            Lexeme::Plain(Token::Op(BareOp::Leq), 2)
        } else {
            Lexeme::Plain(Token::Op(BareOp::Lt), 1)
        }
    } else if c == '>' {
        if followed_by(src, pos, '=') {
            Lexeme::Plain(Token::Op(BareOp::Geq), 2)
        } else {
            Lexeme::Plain(Token::Op(BareOp::Gt), 1)
        }
    } else if c == '!' {
        if followed_by(src, pos, '=') {
            Lexeme::Plain(Token::Op(BareOp::Neq), 2)
        } else {
            Lexeme::Plain(Token::Op(BareOp::Not), 1)
        }
    } else if c == '=' {
        if followed_by(src, pos, '=') {
            Lexeme::Plain(Token::Op(BareOp::Eq), 2)
        } else {
            Lexeme::Plain(Token::Marker(Misc::Assign), 1)
        }
    } else if c == '&' {
        if followed_by(src, pos, '&') {
            Lexeme::Plain(Token::Op(BareOp::And), 2)
        } else {
            Lexeme::Bad(LexErrorKind::LoneAmpersand, 1)
        }
    } else if c == '|' {
        if followed_by(src, pos, '|') {
            Lexeme::Plain(Token::Op(BareOp::Or), 2)
        } else {
            Lexeme::Bad(LexErrorKind::LonePipe, 1)
        }
    } else if c == '\'' {
        if pos + 1 >= src.len() {
            Lexeme::Bad(LexErrorKind::UnterminatedChar, 1)
        } else {
            let value = src[pos + 1];
            if value == '\n' {
                Lexeme::Bad(LexErrorKind::UnterminatedChar, 1)
            } else if value == '\\' {
                Lexeme::Bad(LexErrorKind::UnsupportedEscape, 2)
            } else if followed_by(src, pos + 1, '\'') {
                Lexeme::Plain(Token::Lit(LitVal::Char(value)), 3)
            } else {
                Lexeme::Bad(LexErrorKind::UnterminatedChar, 2)
            }
        }
    } else if letter(c) {
        let end = word_end(src, pos);
        Lexeme::Word(end - pos)
    } else if digit(c) {
        let end = number_end(src, pos);
        Lexeme::Number(end - pos)
    } else {
        Lexeme::Bad(LexErrorKind::UnrecognizedChar, 1)
    }
}

/// Tells whether the `len` characters from `start` spell `word`.
fn spells(src: &Vec<char>, start: usize, len: usize, word: &str) -> (b: bool)
    requires
        start + len <= src.len(),
    ensures
        b == (src@.subrange(start as int, start + len) == word@),
{
    if word.unicode_len() != len {
        return false;
    }
    let mut i: usize = 0;
    while i < len
        invariant
            i <= len,
            start + len <= src.len(),
            word@.len() == len,
            forall|k: int| 0 <= k < i ==> src@[start + k] == word@[k],
        decreases len - i,
    {
        if src[start + i] != word.get_char(i) {
            return false;
        }
        i += 1;
    }
    assert(src@.subrange(start as int, start + len) =~= word@);
    true
}

/// The keyword that the `len` characters from `start` spell, if they spell one.
fn keyword_of(src: &Vec<char>, start: usize, len: usize) -> (t: Option<Token>)
    requires
        start + len <= src.len(),
    ensures
        t == keyword(src@.subrange(start as int, start + len)),
{
    if spells(src, start, len, "var") {
        Some(Token::Marker(Misc::Var))
    } else if spells(src, start, len, "if") {
        Some(Token::Marker(Misc::If))
    } else if spells(src, start, len, "else") {
        Some(Token::Marker(Misc::Else))
    } else if spells(src, start, len, "while") {
        Some(Token::Marker(Misc::While))
    } else if spells(src, start, len, "return") {
        Some(Token::Marker(Misc::Return))
    } else if spells(src, start, len, "Int") {
        Some(Token::TypeTok(BType::IntT))
    } else if spells(src, start, len, "Bool") {
        Some(Token::TypeTok(BType::BoolT))
    } else if spells(src, start, len, "Char") {
        Some(Token::TypeTok(BType::CharT))
    } else if spells(src, start, len, "Void") {
        Some(Token::TypeTok(BType::UnitT))
    } else {
        None
    }
}

/// The value of a number grows with its digits.
proof fn lemma_number_value_grows(src: Seq<char>, start: int, mid: int, end: int)
    requires
        start <= mid <= end,
    ensures
        number_value(src, start, mid) <= number_value(src, start, end),
    decreases end - mid,
{
    if mid < end {
        lemma_number_value_grows(src, start, mid, end - 1);
    }
}

/// The value of the `len` digits from `start`, if a literal can hold it.
fn number(src: &Vec<char>, start: usize, len: usize) -> (v: Option<u64>)
    requires
        start + len <= src.len(),
        forall|i: int| start <= i < start + len ==> is_digit(src@[i]),
    ensures
        match v {
            Some(n) => n == number_value(src@, start as int, start + len),
            None => number_value(src@, start as int, start + len) > u64::MAX,
        },
{
    let mut value: u64 = 0;
    let mut i: usize = 0;
    while i < len
        invariant
            i <= len,
            start + len <= src.len(),
            forall|k: int| start <= k < start + len ==> is_digit(src@[k]),
            value == number_value(src@, start as int, start + i),
        decreases len - i,
    {
        let d: u64 = (src[start + i] as u32 - '0' as u32) as u64;
        proof {
            lemma_number_value_grows(src@, start as int, start + i + 1, start + len);
        }
        match value.checked_mul(10) {
            None => {
                return None;
            },
            Some(tens) => match tens.checked_add(d) {
                None => {
                    return None;
                },
                Some(next) => {
                    value = next;
                },
            },
        }
        i += 1;
    }
    Some(value)
}

/// The spellings that a name table holds.
pub open spec fn names_view(names: Seq<Vec<char>>) -> Seq<Seq<char>> {
    Seq::new(names.len(), |i: int| names[i]@)
}

/// Tells whether `name` is spelled by the `len` characters from `start`.
fn same_spelling(name: &Vec<char>, src: &Vec<char>, start: usize, len: usize) -> (b: bool)
    requires
        start + len <= src.len(),
    ensures
        b == (name@ == src@.subrange(start as int, start + len)),
{
    if name.len() != len {
        return false;
    }
    let mut i: usize = 0;
    while i < len
        invariant
            i <= len,
            start + len <= src.len(),
            name.len() == len,
            forall|k: int| 0 <= k < i ==> name@[k] == src@[start + k],
        decreases len - i,
    {
        if name[i] != src[start + i] {
            return false;
        }
        i += 1;
    }
    assert(name@ =~= src@.subrange(start as int, start + len));
    true
}

/// Finds the index of the spelling of the `len` characters from `start` in the name table.
fn find(names: &Vec<Vec<char>>, src: &Vec<char>, start: usize, len: usize) -> (idx: usize)
    requires
        start + len <= src.len(),
    ensures
        idx == find_name(names_view(names@), src@.subrange(start as int, start + len)),
        idx <= names.len(),
{
    let ghost table = names_view(names@);
    let ghost word = src@.subrange(start as int, start + len);
    let mut i: usize = 0;
    while i < names.len()
        invariant
            i <= names.len(),
            start + len <= src.len(),
            table == names_view(names@),
            word == src@.subrange(start as int, start + len),
            forall|k: int| 0 <= k < i ==> table[k] != word,
        decreases names.len() - i,
    {
        if same_spelling(&names[i], src, start, len) {
            proof {
                assert(table[i as int] == word);
                lemma_find_name(table, word);
            }
            return i;
        }
        i += 1;
    }
    proof {
        lemma_find_name(table, word);
    }
    i
}

/// Copies the `len` characters from `start`.
fn copy_range(src: &Vec<char>, start: usize, len: usize) -> (v: Vec<char>)
    requires
        start + len <= src.len(),
    ensures
        v@ == src@.subrange(start as int, start + len),
{
    let mut v: Vec<char> = Vec::new();
    let mut i: usize = 0;
    while i < len
        invariant
            i <= len,
            start + len <= src.len(),
            v@ == src@.subrange(start as int, start + i),
        decreases len - i,
    {
        v.push(src[start + i]);
        i += 1;
    }
    v
}

/// The table with a new name at its end still holds no spelling twice.
proof fn lemma_interned_distinct(names: Seq<Seq<char>>, name: Seq<char>)
    requires
        distinct(names),
    ensures
        distinct(interned(names, name)),
{
    lemma_find_name(names, name);
}

/// Reads one item from the text at `at`.
fn lex_one(src: &Vec<char>, at: Cursor, names: &mut Vec<Vec<char>>) -> (r: (
    Option<LexItem>,
    Cursor,
))
    requires
        at.ok(src@),
        distinct(names_view(old(names)@)),
    ensures
        distinct(names_view(final(names)@)),
        match lex_step(src@, at.pos as int, names_view(old(names)@)) {
            Step::End => r.0 is None && final(names)@ == old(names)@,
            Step::Fail(e) => r.0 == Some(Err::<LocTok, LexError>(e)) && final(names)@ == old(
                names,
            )@,
            Step::Tok { tok, next, names: table } => {
                &&& r.0 == Some(Ok::<LocTok, LexError>(tok))
                &&& r.1.ok(src@)
                &&& r.1.pos == next
                &&& names_view(final(names)@) == table
            },
        },
{
    let start = match skip_blank(src, at) {
        Err(e) => {
            return (Some(Err(e)), at);
        },
        Ok(c) => c,
    };
    if start.pos >= src.len() {
        return (None, at);
    }
    proof {
        lemma_scan_bounds(src@, start.pos as int);
        lemma_digits_end_bounds(src@, start.pos as int);
    }
    match scan_at(src, start.pos) {
        Lexeme::Bad(kind, len) => (Some(Err(start.error(src, len, kind))), at),
        Lexeme::Plain(tok, len) => match start.loc(src, len) {
            None => (Some(Err(start.error(src, len, LexErrorKind::PositionOverflow))), at),
            Some(loc) => (Some(Ok((tok, loc))), start.skip(src, len)),
        },
        Lexeme::Number(len) => match number(src, start.pos, len) {
            None => (Some(Err(start.error(src, len, LexErrorKind::IntTooLarge))), at),
            Some(value) => match start.loc(src, len) {
                None => (Some(Err(start.error(src, len, LexErrorKind::PositionOverflow))), at),
                Some(loc) => (Some(Ok((Token::Lit(LitVal::Int(value)), loc))), start.skip(src, len)),
            },
        },
        Lexeme::Word(len) => match keyword_of(src, start.pos, len) {
            Some(tok) => match start.loc(src, len) {
                None => (Some(Err(start.error(src, len, LexErrorKind::PositionOverflow))), at),
                Some(loc) => (Some(Ok((tok, loc))), start.skip(src, len)),
            },
            None => {
                let idx = find(names, src, start.pos, len);
                if idx > u32::MAX as usize {
                    (Some(Err(start.error(src, len, LexErrorKind::TooManyNames))), at)
                } else {
                    match start.loc(src, len) {
                        None => (
                            Some(Err(start.error(src, len, LexErrorKind::PositionOverflow))),
                            at,
                        ),
                        Some(loc) => {
                            let ghost table = names_view(names@);
                            let ghost word = src@.subrange(
                                start.pos as int,
                                start.pos + len,
                            );
                            if idx == names.len() {
                                names.push(copy_range(src, start.pos, len));
                                assert(names_view(names@) =~= table.push(word));
                            }
                            proof {
                                lemma_interned_distinct(table, word);
                            }
                            (Some(Ok((Token::IdTok(idx as u32), loc))), start.skip(src, len))
                        },
                    }
                }
            },
        },
    }
}

// ---------------------------------------------------------------------------
// The lexer and its one-slot buffer
// ---------------------------------------------------------------------------

/// The state of a lexer as a mathematical value.
pub struct LexState {
    /// The whole text.
    pub src: Seq<char>,
    /// The index of the first character that has not been read.
    pub pos: int,
    /// The spellings of the identifiers read so far, each at its index.
    pub names: Seq<Seq<char>>,
    /// The item that is held back, if one is: the outcome of a lookahead, or
    /// a token that was pushed back.
    pub slot: Option<Option<LexItem>>,
    /// The text has come to its end, or an error has ended the sequence.
    pub done: bool,
}

impl LexState {
    /// The state before anything of `src` has been read.
    pub open spec fn initial(src: Seq<char>) -> LexState {
        LexState { src, pos: 0, names: Seq::empty(), slot: None, done: false }
    }

    /// The token `t` may stand in this state's stream: it ends within the
    /// range of columns, and if it is an identifier, the name table holds it.
    pub open spec fn knows(self, t: LocTok) -> bool {
        &&& t.1.fits()
        &&& t.0 matches Token::IdTok(i) ==> i < self.names.len()
    }

    /// What holds of every state that a lexer reaches.
    pub open spec fn inv(self) -> bool {
        &&& 0 <= self.pos <= self.src.len()
        &&& distinct(self.names)
        &&& self.names.len() <= u32::MAX + 1
        &&& match self.slot {
            None => true,
            Some(None) => self.done,
            Some(Some(Ok(t))) => self.knows(t),
            Some(Some(Err(_))) => self.done,
        }
    }

    /// This state comes after `before` in the same text: nothing is read
    /// twice, and the name table has kept every name at its index.
    pub open spec fn follows(self, before: LexState) -> bool {
        &&& self.src == before.src
        &&& before.pos <= self.pos
        &&& before.names.len() <= self.names.len()
        &&& self.names.subrange(0, before.names.len() as int) == before.names
    }

    /// An item is held back.
    pub open spec fn pending(self) -> bool {
        self.slot is Some
    }

    /// The items that are still to be read from the text.
    pub open spec fn unread(self) -> TokStream {
        if self.done {
            TokStream::empty()
        } else {
            lex_all(self.src, self.pos, self.names)
        }
    }

    /// The items that are still to come: the one held back, then those of the text.
    pub open spec fn stream(self) -> TokStream {
        match self.slot {
            Some(Some(Ok(t))) => self.unread().cons(t),
            Some(Some(Err(e))) => TokStream { toks: Seq::empty(), end: Some(e) },
            _ => self.unread(),
        }
    }

    /// Reads one item from the text.
    pub open spec fn read(self) -> (Option<LexItem>, LexState) {
        if self.done {
            (None, self)
        } else {
            match lex_step(self.src, self.pos, self.names) {
                Step::End => (None, LexState { done: true, ..self }),
                Step::Fail(e) => (Some(Err(e)), LexState { done: true, ..self }),
                Step::Tok { tok, next, names } => (
                    Some(Ok(tok)),
                    LexState { pos: next, names, ..self },
                ),
            }
        }
    }

    /// Takes the next item: the one held back, or else one read from the text.
    pub open spec fn next(self) -> (Option<LexItem>, LexState) {
        match self.slot {
            Some(item) => (item, LexState { slot: None, ..self }),
            None => self.read(),
        }
    }

    /// Looks at the next item and holds it back.
    pub open spec fn peek(self) -> (Option<LexItem>, LexState) {
        match self.slot {
            Some(item) => (item, self),
            None => {
                let (item, st) = self.read();
                (item, LexState { slot: Some(item), ..st })
            },
        }
    }

    /// Holds `tok` back as the next item.
    pub open spec fn unpeek(self, tok: LocTok) -> LexState {
        LexState { slot: Some(Some(Ok(tok))), ..self }
    }
}

/// Every token of a text ends within the range of columns.
pub proof fn lemma_lex_all_fits(src: Seq<char>, pos: int, names: Seq<Seq<char>>)
    ensures
        lex_all(src, pos, names).fits(),
    decreases src.len() - pos,
{
    if 0 <= pos <= src.len() {
        lemma_lex_step_advances(src, pos, names);
        match lex_step(src, pos, names) {
            Step::Tok { tok, next, names: names2 } => {
                lemma_lex_all_fits(src, next, names2);
            },
            _ => {},
        }
    }
}

/// Looking at the next item twice gives what looking once gives.
pub proof fn lemma_peek_idempotent(st: LexState)
    ensures
        st.peek().1.peek() == st.peek(),
{
}

/// Taking the next item after looking at it is taking it.
pub proof fn lemma_peek_next(st: LexState)
    ensures
        st.peek().1.next() == st.next(),
{
}

/// A token that was put back is the next item, and taking it leaves the
/// state as it was before.
pub proof fn lemma_unpeek_next(st: LexState, tok: LocTok)
    requires
        !st.pending(),
    ensures
        st.unpeek(tok).peek().0 == Some(Ok::<LocTok, LexError>(tok)),
        st.unpeek(tok).next() == (Some(Ok::<LocTok, LexError>(tok)), st),
{
}

/// What comes after a later state comes after an earlier one too.
pub proof fn lemma_follows_transitive(a: LexState, b: LexState, c: LexState)
    requires
        b.follows(a),
        c.follows(b),
    ensures
        c.follows(a),
{
    assert(c.names.subrange(0, a.names.len() as int) =~= b.names.subrange(
        0,
        a.names.len() as int,
    ));
}

/// Every state comes after itself.
pub proof fn lemma_follows_reflexive(a: LexState)
    ensures
        a.follows(a),
{
    assert(a.names.subrange(0, a.names.len() as int) =~= a.names);
}

/// Every token that is still to come ends within the range of columns.
pub proof fn lemma_stream_fits(st: LexState)
    requires
        st.inv(),
    ensures
        st.stream().fits(),
{
    lemma_lex_all_fits(st.src, st.pos, st.names);
}

/// Reading keeps what holds of every state, and hands out the head of the
/// stream and leaves its tail.
pub proof fn lemma_read(st: LexState)
    requires
        st.inv(),
        st.slot is None,
    ensures
        st.read().1.inv(),
        st.read().0 == st.stream().head(),
        st.read().1.stream() == st.stream().tail(),
        st.read().1.follows(st),
        st.read().0 is None ==> st.read().1.done,
        st.read().0 matches Some(Err(_)) ==> st.read().1.done,
        st.read().0 matches Some(Ok(t)) ==> st.read().1.knows(t),
{
    lemma_follows_reflexive(st);
    if !st.done {
        lemma_lex_step_advances(st.src, st.pos, st.names);
        match lex_step(st.src, st.pos, st.names) {
            Step::Tok { tok, next, names } => {
                lemma_names_grow(st.src, st.pos, st.names);
                let rest = lex_all(st.src, next, names);
                assert(rest.cons(tok).toks.drop_first() =~= rest.toks);
            },
            _ => {},
        }
    }
}

/// A step of the lexer leaves the names it found in place, adds at most one
/// at the end, and never adds a spelling twice.
pub proof fn lemma_names_grow(src: Seq<char>, pos: int, names: Seq<Seq<char>>)
    requires
        distinct(names),
        names.len() <= u32::MAX + 1,
    ensures
        lex_step(src, pos, names) matches Step::Tok { tok, next, names: table } ==> {
            &&& distinct(table)
            &&& names.len() <= table.len() <= names.len() + 1
            &&& table.len() <= u32::MAX + 1
            &&& table.subrange(0, names.len() as int) == names
            &&& tok.0 matches Token::IdTok(i) ==> i < table.len()
        },
{
    match lex_step(src, pos, names) {
        Step::Tok { tok, next, names: table } => {
            let start = skip_trivia(src, pos)->Clear_0;
            match scan(src, start) {
                Scan::Word(len) => {
                    let word = src.subrange(start, start + len);
                    lemma_find_name(names, word);
                },
                _ => {},
            }
        },
        _ => {},
    }
}

/// The lexer: the text, how far it has been read, the name table, and one
/// slot in which an item can be held back.
pub struct Lex {
    src: Vec<char>,
    at: Cursor,
    names: Vec<Vec<char>>,
    slot: Option<Option<LexItem>>,
    done: bool,
}

/// The characters of a string slice.
pub fn chars_of(s: &str) -> (v: Vec<char>)
    ensures
        v@ == s@,
{
    let mut v: Vec<char> = Vec::new();
    for c in it: s.chars()
        invariant
            v@ == it.seq().take(it.index()),
    {
        v.push(c);
    }
    v
}

impl Lex {
    /// The state of the lexer.
    pub closed spec fn view(&self) -> LexState {
        LexState {
            src: self.src@,
            pos: self.at.pos as int,
            names: names_view(self.names@),
            slot: self.slot,
            done: self.done,
        }
    }

    /// The lexer is in a state that it can reach, and its own bookkeeping agrees with it.
    pub closed spec fn wf(&self) -> bool {
        self@.inv() && self.at.ok(self.src@)
    }

    /// A well-formed lexer is in a state of which `inv` holds.
    pub proof fn lemma_wf(&self)
        requires
            self.wf(),
        ensures
            self@.inv(),
    {
    }

    /// A lexer at the start of `source`.
    pub fn lex(source: &str) -> (l: Lex)
        ensures
            l.wf(),
            l@ == LexState::initial(source@),
            l@.stream() == lex_all(source@, 0, Seq::empty()),
    {
        let l = Lex {
            src: chars_of(source),
            at: Cursor::start(),
            names: Vec::new(),
            slot: None,
            done: false,
        };
        assert(names_view(l.names@) =~= Seq::empty());
        l
    }

    /// Reads one item from the text, past the slot.
    fn read(&mut self) -> (item: Option<LexItem>)
        requires
            old(self).wf(),
            old(self).slot is None,
        ensures
            final(self).wf(),
            final(self).slot is None,
            item == old(self)@.read().0,
            final(self)@ == old(self)@.read().1,
    {
        if self.done {
            return None;
        }
        let (item, at) = lex_one(&self.src, self.at, &mut self.names);
        match item {
            Some(Ok(_)) => {
                self.at = at;
            },
            _ => {
                self.done = true;
            },
        }
        item
    }

    /// Takes the next item: a located token, the error that ends the
    /// sequence, or nothing once the sequence has ended.
    pub fn next(&mut self) -> (item: Option<LexItem>)
        requires
            old(self).wf(),
        ensures
            final(self).wf(),
            item == old(self)@.next().0,
            final(self)@ == old(self)@.next().1,
            item == old(self)@.stream().head(),
            final(self)@.stream() == old(self)@.stream().tail(),
            final(self)@.follows(old(self)@),
            !final(self)@.pending(),
            item matches Some(Ok(t)) ==> final(self)@.knows(t),
    {
        proof {
            lemma_follows_reflexive(old(self)@);
        }
        match self.slot {
            Some(item) => {
                self.slot = None;
                proof {
                    let st = old(self)@;
                    match item {
                        Some(Ok(t)) => {
                            assert(st.unread().cons(t).toks.drop_first() =~= st.unread().toks);
                        },
                        _ => {},
                    }
                }
                item
            },
            None => {
                proof {
                    lemma_read(self@);
                }
                self.read()
            },
        }
    }

    /// Looks at the next item without taking it.
    pub fn peek(&mut self) -> (item: Option<LexItem>)
        requires
            old(self).wf(),
        ensures
            final(self).wf(),
            item == old(self)@.peek().0,
            final(self)@ == old(self)@.peek().1,
            item == old(self)@.stream().head(),
            final(self)@.stream() == old(self)@.stream(),
            final(self)@.follows(old(self)@),
            final(self)@.pending(),
            item matches Some(Ok(t)) ==> final(self)@.knows(t),
    {
        proof {
            lemma_follows_reflexive(old(self)@);
        }
        match self.slot {
            Some(item) => item,
            None => {
                proof {
                    lemma_read(self@);
                }
                let item = self.read();
                self.slot = Some(item);
                item
            },
        }
    }

    /// Tells whether an item is held back.
    pub fn has_pending(&self) -> (b: bool)
        ensures
            b == self@.pending(),
    {
        self.slot.is_some()
    }

    /// Puts `val` back in front of the sequence, if nothing is held back
    /// already; if something is, changes nothing and hands `val` back as an
    /// error. `val` is a token that this lexer may have handed out.
    pub fn unpeek(&mut self, val: LocTok) -> (r: Result<(), LocTok>)
        requires
            old(self).wf(),
            old(self)@.knows(val),
        ensures
            final(self).wf(),
            final(self)@.follows(old(self)@),
            final(self)@.pending(),
            if old(self)@.pending() {
                r == Err::<(), LocTok>(val) && final(self)@ == old(self)@
            } else {
                &&& r is Ok
                &&& final(self)@ == old(self)@.unpeek(val)
                &&& final(self)@.stream() == old(self)@.stream().cons(val)
            },
    {
        proof {
            lemma_follows_reflexive(old(self)@);
        }
        if self.slot.is_some() {
            Err(val)
        } else {
            self.slot = Some(Some(Ok(val)));
            Ok(())
        }
    }

    /// The index of the identifier spelled `name`, if it has been read.
    pub fn lookup(&self, name: &str) -> (r: Option<BareId>)
        requires
            self.wf(),
        ensures
            match r {
                Some(i) => i < self@.names.len() && self@.names[i as int] == name@,
                None => !self@.names.contains(name@),
            },
    {
        let word = chars_of(name);
        let idx = find(&self.names, &word, 0, word.len());
        proof {
            assert(word@.subrange(0, word.len() as int) =~= name@);
            lemma_find_name(self@.names, name@);
        }
        if idx < self.names.len() {
            Some(idx as u32)
        } else {
            None
        }
    }

    /// The spelling of the identifier with index `id`, if there is one.
    pub fn name(&self, id: BareId) -> (r: Option<Vec<char>>)
        requires
            self.wf(),
        ensures
            match r {
                Some(v) => id < self@.names.len() && v@ == self@.names[id as int],
                None => id >= self@.names.len(),
            },
    {
        let i = id as usize;
        if i < self.names.len() {
            let v = copy_range(&self.names[i], 0, self.names[i].len());
            Some(v)
        } else {
            None
        }
    }
}

// ---------------------------------------------------------------------------
// What the lexer promises
// ---------------------------------------------------------------------------

/// An `&` that stands where a token begins and is not doubled is an error at
/// that very character: on its line, at its column, one character wide.
pub proof fn lemma_lone_ampersand(src: Seq<char>, pos: int, names: Seq<Seq<char>>, at: int)
    requires
        skip_trivia(src, pos) == Trivia::Clear(at),
        0 <= at < src.len(),
        src[at] == '&',
        char_at(src, at + 1) != Some('&'),
    ensures
        lex_step(src, pos, names) == Step::Fail(
            error_at(src, at, 1, LexErrorKind::LoneAmpersand),
        ),
        loc_at(src, at, 1) is Some ==> error_at(src, at, 1, LexErrorKind::LoneAmpersand) == (
        LexError {
            kind: LexErrorKind::LoneAmpersand,
            loc: Loc { line: line_of(src, at) as u32, col: col_of(src, at) as u16, len: 1 },
        }),
{
}

/// A `|` that stands where a token begins and is not doubled is an error at
/// that very character: on its line, at its column, one character wide.
pub proof fn lemma_lone_pipe(src: Seq<char>, pos: int, names: Seq<Seq<char>>, at: int)
    requires
        skip_trivia(src, pos) == Trivia::Clear(at),
        0 <= at < src.len(),
        src[at] == '|',
        char_at(src, at + 1) != Some('|'),
    ensures
        lex_step(src, pos, names) == Step::Fail(error_at(src, at, 1, LexErrorKind::LonePipe)),
        loc_at(src, at, 1) is Some ==> error_at(src, at, 1, LexErrorKind::LonePipe) == (LexError {
            kind: LexErrorKind::LonePipe,
            loc: Loc { line: line_of(src, at) as u32, col: col_of(src, at) as u16, len: 1 },
        }),
{
}

/// A spelling keeps its index: once it has been looked up it is found at the
/// same index again, whatever other spellings are looked up in between.
pub proof fn lemma_intern_stable(names: Seq<Seq<char>>, first: Seq<char>, other: Seq<char>)
    requires
        distinct(names),
    ensures
        find_name(interned(names, first), first) == find_name(names, first),
        interned(interned(names, first), first) == interned(names, first),
        find_name(interned(interned(names, first), other), first) == find_name(names, first),
{
    let once = interned(names, first);
    let both = interned(once, other);
    lemma_find_name(names, first);
    lemma_find_name(once, first);
    lemma_find_name(both, first);
    let i = find_name(names, first);
    assert(both[i] == first);
}

/// Two different spellings never share an index.
pub proof fn lemma_intern_injective(names: Seq<Seq<char>>, a: Seq<char>, b: Seq<char>)
    requires
        a != b,
    ensures
        find_name(interned(interned(names, a), b), a) != find_name(
            interned(interned(names, a), b),
            b,
        ),
{
    let both = interned(interned(names, a), b);
    lemma_find_name(both, a);
    lemma_find_name(both, b);
}

} // verus!
