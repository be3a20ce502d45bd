//! The grammar of expressions as functions on token streams: what each rule
//! yields, and which tokens it leaves.

use super::lex::{lex_kind_to_str, lex_message, LexError, LexErrorKind, TokStream};
use super::tok::{
    token_name, token_to_str, tokpat_name, tokpat_to_str, Loc, LocTok, Misc, TokPat, Token,
};
use crate::ast::{opthull_spec, BareOp, BareTree, Id, Op, Selector, Span, Tree};
use vstd::prelude::*;
use vstd::string::StringExecFns;

verus! {

/// What would have been acceptable where a rule failed.
#[derive(Copy, Clone, Debug, PartialEq, Eq, Structural)]
pub enum Expected {
    /// An identifier, a literal or an opening parenthesis: the start of an atom.
    Atom,
    /// A comma or a closing parenthesis, after an element of a list.
    CommaOrClose,
    /// A token of the given shape.
    Shape(TokPat),
}

/// Why parsing failed.
#[derive(Copy, Clone, Debug, PartialEq, Eq, Structural)]
pub enum ParseErrorKind {
    /// The lexer failed.
    Lex(LexErrorKind),
    /// A token, or with `None` the end of the input, stood where something else was expected.
    Unexpected { found: Option<Token>, expected: Expected },
}

/// A parse error and where it was found. The location is absent only where
/// the input ended.
#[derive(Copy, Clone, Debug, PartialEq, Eq, Structural)]
pub struct ParseError {
    pub kind: ParseErrorKind,
    pub loc: Option<Loc>,
}

/// What a grammar rule returns: its value, or the error that stopped it.
pub type ParseResult<T> = Result<T, ParseError>;

/// A lexical error as a parse error, at the same location.
pub open spec fn lex_failure(e: LexError) -> ParseError {
    ParseError { kind: ParseErrorKind::Lex(e.kind), loc: Some(e.loc) }
}

/// The error for the end of the input where `expected` was expected.
pub open spec fn eof_error(expected: Expected) -> ParseError {
    ParseError { kind: ParseErrorKind::Unexpected { found: None, expected }, loc: None }
}

/// The error for the token `found` where `expected` was expected.
pub open spec fn unexpected_error(found: LocTok, expected: Expected) -> ParseError {
    ParseError {
        kind: ParseErrorKind::Unexpected { found: Some(found.0), expected },
        loc: Some(found.1),
    }
}

/// How what was expected is named in messages.
pub open spec fn expected_name(expected: Expected) -> Seq<char> {
    match expected {
        Expected::Atom => "identifier, literal, or '('"@,
        Expected::CommaOrClose => "',' or ')'"@,
        Expected::Shape(pat) => tokpat_name(pat),
    }
}

/// How what was found is named in messages.
pub open spec fn found_name(found: Option<Token>) -> Seq<char> {
    match found {
        Some(t) => token_name(t),
        None => "end of input"@,
    }
}

/// The message of a parse error: that of the lexer, or else what was found
/// and what would have been acceptable in its place.
pub open spec fn parse_message(kind: ParseErrorKind) -> Seq<char> {
    match kind {
        ParseErrorKind::Lex(k) => lex_message(k),
        ParseErrorKind::Unexpected { found, expected } => "unexpected "@ + found_name(found)
            + ", expected "@ + expected_name(expected),
    }
}

/// The name of what was expected.
pub fn expected_to_str(expected: Expected) -> (s: &'static str)
    ensures
        s@ == expected_name(expected),
{
    match expected {
        Expected::Atom => "identifier, literal, or '('",
        Expected::CommaOrClose => "',' or ')'",
        Expected::Shape(pat) => tokpat_to_str(pat),
    }
}

impl ParseError {
    /// The message that describes the error.
    pub fn message(&self) -> (s: String)
        ensures
            s@ == parse_message(self.kind),
    {
        match self.kind {
            ParseErrorKind::Lex(kind) => String::from_str(lex_kind_to_str(kind)),
            ParseErrorKind::Unexpected { found, expected } => {
                let mut s = String::from_str("unexpected ");
                match found {
                    Some(t) => s.append(token_to_str(t)),
                    None => s.append("end of input"),
                }
                s.append(", expected ");
                s.append(expected_to_str(expected));
                s
            },
        }
    }
}

impl core::convert::From<LexError> for ParseError {
    fn from(err: LexError) -> (e: ParseError) {
        ParseError { kind: ParseErrorKind::Lex(err.kind), loc: Some(err.loc) }
    }
}

impl vstd::std_specs::convert::FromSpecImpl<LexError> for ParseError {
    open spec fn obeys_from_spec() -> bool {
        true
    }

    open spec fn from_spec(err: LexError) -> ParseError {
        lex_failure(err)
    }
}

/// What a look at the next item of `s` gives: the token, nothing at the end of
/// the input, or the lexer's error as a parse error.
pub open spec fn peeked(s: TokStream) -> ParseResult<Option<LocTok>> {
    match s.head() {
        None => Ok(None),
        Some(Ok(t)) => Ok(Some(t)),
        Some(Err(e)) => Err(lex_failure(e)),
    }
}

/// The outcome of a rule: its result, and the stream that it leaves.
pub struct Parsed<T> {
    pub res: ParseResult<T>,
    pub rest: TokStream,
}

impl<T> Parsed<T> {
    /// The rule yields `value` and leaves `rest`.
    pub open spec fn ok(value: T, rest: TokStream) -> Parsed<T> {
        Parsed { res: Ok(value), rest }
    }

    /// The rule fails with `e` and leaves `rest`.
    pub open spec fn fail(e: ParseError, rest: TokStream) -> Parsed<T> {
        Parsed { res: Err(e), rest }
    }

    /// The outcome where a rule would go on without having taken a token.
    /// No rule ever does: see `lemma_progress`.
    pub open spec fn stuck(rest: TokStream) -> Parsed<T> {
        Parsed { res: Err(eof_error(Expected::Atom)), rest }
    }
}

/// How tightly a binary operator binds: a higher level binds tighter. The
/// prefix operator has no level.
pub open spec fn binary_level(op: BareOp) -> Option<nat> {
    match op {
        BareOp::Mul | BareOp::Div => Some(6),
        BareOp::Plus | BareOp::Minus => Some(5),
        BareOp::Lt | BareOp::Leq | BareOp::Gt | BareOp::Geq => Some(4),
        BareOp::Eq | BareOp::Neq => Some(3),
        BareOp::And => Some(2),
        BareOp::Or => Some(1),
        BareOp::Not => None,
    }
}

/// The range of a list of selectors so far, widened by one more selector.
pub open spec fn widen(span: Option<Span>, by: Span) -> Option<Span> {
    match span {
        None => Some(by),
        Some(sp) => Some(Span::hull_spec(sp, by)),
    }
}

/// selector*: takes selectors as long as the next token is one. Yields them
/// with the hull of their ranges, which is absent if there is none.
pub open spec fn field_from(s: TokStream, acc: Seq<Selector>, span: Option<Span>) -> Parsed<
    (Seq<Selector>, Option<Span>),
>
    decreases s.toks.len(),
{
    match s.head() {
        Some(Err(e)) => Parsed::fail(lex_failure(e), s),
        Some(Ok((Token::Selector(sel), loc))) => field_from(
            s.tail(),
            acc.push(Selector { sel, span: Some(Span::of_loc(loc)) }),
            widen(span, Span::of_loc(loc)),
        ),
        _ => Parsed::ok((acc, span), s),
    }
}

/// selector*: all the selectors at the front of the stream.
pub open spec fn field(s: TokStream) -> Parsed<(Seq<Selector>, Option<Span>)> {
    field_from(s, Seq::empty(), None)
}

/// The node of a variable with its selectors.
pub open spec fn var_node(id: Id, sels: Seq<Selector>, span: Option<Span>) -> Tree {
    Tree::node(
        BareTree::Var(id, sels),
        match span {
            None => id.span,
            Some(sp) => opthull_spec(id.span, Some(sp)),
        },
    )
}

/// The node of a binary operation: its range is the hull of its operands' ranges.
pub open spec fn binop_node(op: BareOp, loc: Loc, lhs: Tree, rhs: Tree) -> Tree {
    Tree::node(
        BareTree::BinOp(Op { op, span: Some(Span::of_loc(loc)) }, Box::new(lhs), Box::new(rhs)),
        opthull_spec(lhs.span, rhs.span),
    )
}

/// The node of a prefix operation: its range runs from the operator over the operand.
pub open spec fn unop_node(op: BareOp, loc: Loc, arg: Tree) -> Tree {
    Tree::node(
        BareTree::UnOp(Op { op, span: Some(Span::of_loc(loc)) }, Box::new(arg)),
        opthull_spec(Some(Span::of_loc(loc)), arg.span),
    )
}

/// What a parenthesized list stands for as an atom: its one element, with the
/// range of the parentheses, or a tuple of its elements.
pub open spec fn group_node(elems: Seq<Tree>, open: Loc, close: Loc) -> Tree {
    let span = Span::hull_spec(Span::of_loc(open), Span::of_loc(close));
    if elems.len() == 1 {
        Tree { span: Some(span), ..elems[0] }
    } else {
        Tree::node(BareTree::Tuple(elems), Some(span))
    }
}

/// expr: a full expression.
pub open spec fn exp(s: TokStream) -> Parsed<Tree>
    decreases s.toks.len(), 6int,
{
    binary(s, 1)
}

/// An operand followed by the binary operators of level `min` and above.
pub open spec fn binary(s: TokStream, min: nat) -> Parsed<Tree>
    decreases s.toks.len(), 5int,
{
    let u = unary(s);
    match u.res {
        Err(e) => Parsed::fail(e, u.rest),
        Ok(lhs) => if u.rest.toks.len() < s.toks.len() {
            climb(lhs, u.rest, min)
        } else {
            Parsed::stuck(u.rest)
        },
    }
}

/// The operators of level `min` and above that follow the operand `lhs`,
/// each with its right operand. An operator takes as its right operand what
/// binds tighter than itself, so operators of one level group to the left.
pub open spec fn climb(lhs: Tree, s: TokStream, min: nat) -> Parsed<Tree>
    decreases s.toks.len(), 0int,
{
    match s.head() {
        Some(Err(e)) => Parsed::fail(lex_failure(e), s),
        Some(Ok((Token::Op(op), loc))) => match binary_level(op) {
            Some(level) => if level >= min {
                let r = binary(s.tail(), level + 1);
                match r.res {
                    Err(e) => Parsed::fail(e, r.rest),
                    Ok(rhs) => if r.rest.toks.len() < s.toks.len() {
                        climb(binop_node(op, loc, lhs, rhs), r.rest, min)
                    } else {
                        Parsed::stuck(r.rest)
                    },
                }
            } else {
                Parsed::ok(lhs, s)
            },
            None => Parsed::ok(lhs, s),
        },
        _ => Parsed::ok(lhs, s),
    }
}

/// An atom under any number of prefix operators.
pub open spec fn unary(s: TokStream) -> Parsed<Tree>
    decreases s.toks.len(), 4int,
{
    match s.head() {
        Some(Ok((Token::Op(BareOp::Not), loc))) => {
            let p = unary(s.tail());
            match p.res {
                Err(e) => Parsed::fail(e, p.rest),
                Ok(arg) => Parsed::ok(unop_node(BareOp::Not, loc, arg), p.rest),
            }
        },
        _ => atom(s),
    }
}

/// atom: an identifier with what follows it, a literal, or a parenthesized list.
pub open spec fn atom(s: TokStream) -> Parsed<Tree>
    decreases s.toks.len(), 3int,
{
    match s.head() {
        None => Parsed::fail(eof_error(Expected::Atom), s.tail()),
        Some(Err(e)) => Parsed::fail(lex_failure(e), s.tail()),
        Some(Ok((tok, loc))) => match tok {
            Token::IdTok(name) => field_or_call(
                Id { name, span: Some(Span::of_loc(loc)) },
                s.tail(),
            ),
            Token::Lit(value) => Parsed::ok(
                Tree::node(BareTree::Lit(value), Some(Span::of_loc(loc))),
                s.tail(),
            ),
            Token::Marker(Misc::ParenOpen) => {
                let p = parens(s);
                match p.res {
                    Err(e) => Parsed::fail(e, p.rest),
                    Ok((elems, open, close)) => Parsed::ok(group_node(elems, open, close), p.rest),
                }
            },
            _ => Parsed::fail(unexpected_error((tok, loc), Expected::Atom), s.tail()),
        },
    }
}

/// What follows an identifier: an argument list, which makes a call, or
/// selectors, which make a variable; none at all makes a variable too.
pub open spec fn field_or_call(id: Id, s: TokStream) -> Parsed<Tree>
    decreases s.toks.len(), 2int,
{
    match s.head() {
        Some(Err(e)) => Parsed::fail(lex_failure(e), s),
        None => Parsed::ok(var_node(id, Seq::empty(), None), s),
        Some(Ok((tok, _))) => if tok == Token::Marker(Misc::ParenOpen) {
            let p = parens(s);
            match p.res {
                Err(e) => Parsed::fail(e, p.rest),
                Ok((args, open, close)) => Parsed::ok(
                    Tree::node(
                        BareTree::Call(id, args),
                        opthull_spec(id.span, Some(Span::of_loc(close))),
                    ),
                    p.rest,
                ),
            }
        } else {
            let f = field(s);
            match f.res {
                Err(e) => Parsed::fail(e, f.rest),
                Ok((sels, span)) => Parsed::ok(var_node(id, sels, span), f.rest),
            }
        },
    }
}

/// '(' ( expr (',' expr)* )? ')': the elements, and the locations of the two
/// parentheses. The stream begins with the opening parenthesis.
pub open spec fn parens(s: TokStream) -> Parsed<(Seq<Tree>, Loc, Loc)>
    decreases s.toks.len(), 1int,
{
    if s.toks.len() == 0 {
        Parsed::stuck(s)
    } else {
        let open = s.toks[0].1;
        let s1 = s.tail();
        match s1.head() {
            Some(Err(e)) => Parsed::fail(lex_failure(e), s1),
            Some(Ok((Token::Marker(Misc::ParenClose), close))) => Parsed::ok(
                (Seq::empty(), open, close),
                s1.tail(),
            ),
            _ => elements(s1, open, Seq::empty()),
        }
    }
}

/// expr (',' expr)* ')': one more element after `acc`, then a comma and the
/// rest, or the closing parenthesis.
pub open spec fn elements(s: TokStream, open: Loc, acc: Seq<Tree>) -> Parsed<(Seq<Tree>, Loc, Loc)>
    decreases s.toks.len(), 7int,
{
    let p = exp(s);
    match p.res {
        Err(e) => Parsed::fail(e, p.rest),
        Ok(elem) => match p.rest.head() {
            None => Parsed::fail(eof_error(Expected::CommaOrClose), p.rest.tail()),
            Some(Err(e)) => Parsed::fail(lex_failure(e), p.rest.tail()),
            Some(Ok((tok, loc))) => if tok == Token::Marker(Misc::ParenClose) {
                Parsed::ok((acc.push(elem), open, loc), p.rest.tail())
            } else if tok == Token::Marker(Misc::Comma) {
                if p.rest.tail().toks.len() < s.toks.len() {
                    elements(p.rest.tail(), open, acc.push(elem))
                } else {
                    Parsed::stuck(p.rest)
                }
            } else {
                Parsed::fail(unexpected_error((tok, loc), Expected::CommaOrClose), p.rest)
            },
        },
    }
}

/// '(' ( expr (',' expr)* )? ')': the elements, and the range from the
/// opening to the closing parenthesis.
pub open spec fn tuplish(s: TokStream) -> Parsed<(Seq<Tree>, Span)> {
    let p = parens(s);
    match p.res {
        Err(e) => Parsed::fail(e, p.rest),
        Ok((elems, open, close)) => Parsed::ok(
            (elems, Span::hull_spec(Span::of_loc(open), Span::of_loc(close))),
            p.rest,
        ),
    }
}

// ---------------------------------------------------------------------------
// Every rule that succeeds takes at least one token
// ---------------------------------------------------------------------------

/// Selectors leave no more tokens than they were given.
pub proof fn lemma_field_progress(s: TokStream, acc: Seq<Selector>, span: Option<Span>)
    ensures
        field_from(s, acc, span).rest.toks.len() <= s.toks.len(),
    decreases s.toks.len(),
{
    match s.head() {
        Some(Ok((Token::Selector(sel), loc))) => {
            lemma_field_progress(
                s.tail(),
                acc.push(Selector { sel, span: Some(Span::of_loc(loc)) }),
                widen(span, Span::of_loc(loc)),
            );
        },
        _ => {},
    }
}

/// A full expression leaves fewer tokens than it was given, and no rule ever
/// leaves more.
pub proof fn lemma_progress(s: TokStream)
    ensures
        exp(s).rest.toks.len() <= s.toks.len(),
        exp(s).res is Ok ==> exp(s).rest.toks.len() < s.toks.len(),
    decreases s.toks.len(), 6int,
{
    lemma_binary_progress(s, 1);
}

/// An operand with its operators leaves fewer tokens than it was given.
pub proof fn lemma_binary_progress(s: TokStream, min: nat)
    ensures
        binary(s, min).rest.toks.len() <= s.toks.len(),
        binary(s, min).res is Ok ==> binary(s, min).rest.toks.len() < s.toks.len(),
    decreases s.toks.len(), 5int,
{
    lemma_unary_progress(s);
    let u = unary(s);
    match u.res {
        Ok(lhs) => {
            lemma_climb_progress(lhs, u.rest, min);
        },
        Err(_) => {},
    }
}

/// The operators after an operand leave no more tokens than they were given.
pub proof fn lemma_climb_progress(lhs: Tree, s: TokStream, min: nat)
    ensures
        climb(lhs, s, min).rest.toks.len() <= s.toks.len(),
    decreases s.toks.len(), 0int,
{
    match s.head() {
        Some(Ok((Token::Op(op), loc))) => match binary_level(op) {
            Some(level) => if level >= min {
                lemma_binary_progress(s.tail(), level + 1);
                let r = binary(s.tail(), level + 1);
                match r.res {
                    Ok(rhs) => {
                        lemma_climb_progress(binop_node(op, loc, lhs, rhs), r.rest, min);
                    },
                    Err(_) => {},
                }
            },
            None => {},
        },
        _ => {},
    }
}

/// An atom under its prefix operators leaves fewer tokens than it was given.
pub proof fn lemma_unary_progress(s: TokStream)
    ensures
        unary(s).rest.toks.len() <= s.toks.len(),
        unary(s).res is Ok ==> unary(s).rest.toks.len() < s.toks.len(),
    decreases s.toks.len(), 4int,
{
    match s.head() {
        Some(Ok((Token::Op(BareOp::Not), loc))) => {
            lemma_unary_progress(s.tail());
        },
        _ => {
            lemma_atom_progress(s);
        },
    }
}

/// An atom leaves fewer tokens than it was given.
pub proof fn lemma_atom_progress(s: TokStream)
    ensures
        atom(s).rest.toks.len() <= s.toks.len(),
        atom(s).res is Ok ==> atom(s).rest.toks.len() < s.toks.len(),
    decreases s.toks.len(), 3int,
{
    match s.head() {
        Some(Ok((tok, loc))) => match tok {
            Token::IdTok(name) => {
                lemma_field_or_call_progress(Id { name, span: Some(Span::of_loc(loc)) }, s.tail());
            },
            Token::Marker(Misc::ParenOpen) => {
                lemma_parens_progress(s);
            },
            _ => {},
        },
        _ => {},
    }
}

/// What follows an identifier leaves no more tokens than it was given.
pub proof fn lemma_field_or_call_progress(id: Id, s: TokStream)
    ensures
        field_or_call(id, s).rest.toks.len() <= s.toks.len(),
    decreases s.toks.len(), 2int,
{
    match s.head() {
        Some(Ok((tok, _))) => if tok == Token::Marker(Misc::ParenOpen) {
            lemma_parens_progress(s);
        } else {
            lemma_field_progress(s, Seq::empty(), None);
        },
        _ => {},
    }
}

/// A parenthesized list leaves fewer tokens than it was given.
pub proof fn lemma_parens_progress(s: TokStream)
    ensures
        parens(s).rest.toks.len() <= s.toks.len(),
        parens(s).res is Ok ==> parens(s).rest.toks.len() < s.toks.len(),
    decreases s.toks.len(), 1int,
{
    if s.toks.len() > 0 {
        let s1 = s.tail();
        match s1.head() {
            Some(Err(e)) => {},
            Some(Ok((Token::Marker(Misc::ParenClose), close))) => {},
            _ => {
                lemma_elements_progress(s1, s.toks[0].1, Seq::empty());
            },
        }
    }
}

/// The elements of a list, up to its closing parenthesis, leave fewer tokens
/// than they were given.
pub proof fn lemma_elements_progress(s: TokStream, open: Loc, acc: Seq<Tree>)
    ensures
        elements(s, open, acc).rest.toks.len() <= s.toks.len(),
        elements(s, open, acc).res is Ok ==> elements(s, open, acc).rest.toks.len()
            < s.toks.len(),
    decreases s.toks.len(), 7int,
{
    lemma_progress(s);
    let p = exp(s);
    match p.res {
        Ok(elem) => match p.rest.head() {
            Some(Ok((tok, loc))) => if tok == Token::Marker(Misc::Comma) {
                lemma_elements_progress(p.rest.tail(), open, acc.push(elem));
            },
            _ => {},
        },
        Err(_) => {},
    }
}

} // verus!
