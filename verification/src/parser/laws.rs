//! What holds of the grammar whatever the tokens are.

use super::grammar::{
    atom, binary, binary_level, binop_node, climb, elements, exp, field, field_from,
    field_or_call, lemma_binary_progress, lemma_progress, lemma_unary_progress,
    parens, unary, widen, ParseError, ParseErrorKind, Parsed,
};
use super::lex::{
    col_of, lemma_line_bounds, lemma_lex_step_advances, lemma_scan_bounds,
    lemma_skip_trivia_bounds, lex_all, lex_step, line_of, loc_at, skip_trivia, LexError, Step,
    TokStream, Trivia,
};
use super::tok::{Loc, LocTok, Misc, Token};
use crate::ast::{
    lemma_call_shape, lemma_tuple_shape, lemma_var_shape, same_selectors, same_shapes, BareOp,
    Id, Pos, Selector, Span, Tree,
};
use vstd::prelude::*;

verus! {

// ---------------------------------------------------------------------------
// Tokens after an expression
// ---------------------------------------------------------------------------

/// A token at which every rule stops as it does at the end of the input: no
/// operator, no selector and no opening parenthesis.
pub open spec fn stops(t: Token) -> bool {
    !(t is Op) && !(t is Selector) && t != Token::Marker(Misc::ParenOpen)
}

/// The stream `s` with the stream `more` after it.
pub open spec fn extended(s: TokStream, more: TokStream) -> TokStream {
    TokStream { toks: s.toks + more.toks, end: more.end }
}

proof fn lemma_extended(s: TokStream, more: TokStream)
    requires
        s.end is None,
        more.toks.len() > 0,
    ensures
        s.tail().end is None,
        s.toks.len() > 0 ==> extended(s, more).head() == s.head() && extended(s, more).tail()
            == extended(s.tail(), more),
        s.toks.len() == 0 ==> s.head() is None && extended(s, more) == more && more.head()
            == Some(Ok::<LocTok, LexError>(more.toks[0])),
{
    if s.toks.len() > 0 {
        assert(extended(s, more).tail().toks =~= extended(s.tail(), more).toks);
    }
}

proof fn lemma_field_extended(
    s: TokStream,
    acc: Seq<Selector>,
    span: Option<Span>,
    more: TokStream,
)
    requires
        s.end is None,
        more.toks.len() > 0,
        stops(more.toks[0].0),
        field_from(s, acc, span).res is Ok,
    ensures
        field_from(s, acc, span).rest.end is None,
        field_from(extended(s, more), acc, span) == (Parsed {
            res: field_from(s, acc, span).res,
            rest: extended(field_from(s, acc, span).rest, more),
        }),
    decreases s.toks.len(),
{
    lemma_extended(s, more);
    match s.head() {
        Some(Ok((Token::Selector(sel), loc))) => {
            lemma_field_extended(
                s.tail(),
                acc.push(Selector { sel, span: Some(Span::of_loc(loc)) }),
                widen(span, Span::of_loc(loc)),
                more,
            );
        },
        _ => {},
    }
}

/// A full expression is parsed alike whether the input ends after it or a
/// token follows at which every rule stops.
pub proof fn lemma_exp_extended(s: TokStream, more: TokStream)
    requires
        s.end is None,
        more.toks.len() > 0,
        stops(more.toks[0].0),
        exp(s).res is Ok,
    ensures
        exp(s).rest.end is None,
        exp(extended(s, more)) == (Parsed { res: exp(s).res, rest: extended(exp(s).rest, more) }),
    decreases s.toks.len(), 6int,
{
    lemma_binary_extended(s, 1, more);
}

proof fn lemma_binary_extended(s: TokStream, min: nat, more: TokStream)
    requires
        s.end is None,
        more.toks.len() > 0,
        stops(more.toks[0].0),
        binary(s, min).res is Ok,
    ensures
        binary(s, min).rest.end is None,
        binary(extended(s, more), min) == (Parsed {
            res: binary(s, min).res,
            rest: extended(binary(s, min).rest, more),
        }),
    decreases s.toks.len(), 5int,
{
    let u = unary(s);
    lemma_unary_extended(s, more);
    lemma_climb_extended(u.res->Ok_0, u.rest, min, more);
}

proof fn lemma_climb_extended(lhs: Tree, s: TokStream, min: nat, more: TokStream)
    requires
        s.end is None,
        more.toks.len() > 0,
        stops(more.toks[0].0),
        climb(lhs, s, min).res is Ok,
    ensures
        climb(lhs, s, min).rest.end is None,
        climb(lhs, extended(s, more), min) == (Parsed {
            res: climb(lhs, s, min).res,
            rest: extended(climb(lhs, s, min).rest, more),
        }),
    decreases s.toks.len(), 0int,
{
    lemma_extended(s, more);
    match s.head() {
        Some(Ok((Token::Op(op), loc))) => match binary_level(op) {
            Some(level) => if level >= min {
                let r = binary(s.tail(), level + 1);
                lemma_binary_extended(s.tail(), level + 1, more);
                lemma_climb_extended(binop_node(op, loc, lhs, r.res->Ok_0), r.rest, min, more);
            },
            None => {},
        },
        _ => {},
    }
}

proof fn lemma_unary_extended(s: TokStream, more: TokStream)
    requires
        s.end is None,
        more.toks.len() > 0,
        stops(more.toks[0].0),
        unary(s).res is Ok,
    ensures
        unary(s).rest.end is None,
        unary(extended(s, more)) == (Parsed {
            res: unary(s).res,
            rest: extended(unary(s).rest, more),
        }),
    decreases s.toks.len(), 4int,
{
    lemma_extended(s, more);
    match s.head() {
        Some(Ok((Token::Op(BareOp::Not), loc))) => {
            lemma_unary_extended(s.tail(), more);
        },
        _ => {
            lemma_atom_extended(s, more);
        },
    }
}

proof fn lemma_atom_extended(s: TokStream, more: TokStream)
    requires
        s.end is None,
        more.toks.len() > 0,
        stops(more.toks[0].0),
        atom(s).res is Ok,
    ensures
        atom(s).rest.end is None,
        atom(extended(s, more)) == (Parsed { res: atom(s).res, rest: extended(atom(s).rest, more) }),
    decreases s.toks.len(), 3int,
{
    lemma_extended(s, more);
    match s.head() {
        Some(Ok((tok, loc))) => match tok {
            Token::IdTok(name) => {
                lemma_field_or_call_extended(
                    Id { name, span: Some(Span::of_loc(loc)) },
                    s.tail(),
                    more,
                );
            },
            Token::Marker(Misc::ParenOpen) => {
                lemma_parens_extended(s, more);
            },
            _ => {},
        },
        _ => {},
    }
}

proof fn lemma_field_or_call_extended(id: Id, s: TokStream, more: TokStream)
    requires
        s.end is None,
        more.toks.len() > 0,
        stops(more.toks[0].0),
        field_or_call(id, s).res is Ok,
    ensures
        field_or_call(id, s).rest.end is None,
        field_or_call(id, extended(s, more)) == (Parsed {
            res: field_or_call(id, s).res,
            rest: extended(field_or_call(id, s).rest, more),
        }),
    decreases s.toks.len(), 2int,
{
    match s.head() {
        Some(Ok((tok, _))) => if tok == Token::Marker(Misc::ParenOpen) {
            lemma_parens_extended(s, more);
        } else {
            lemma_field_extended(s, Seq::empty(), None, more);
        },
        _ => {},
    }
}

proof fn lemma_parens_extended(s: TokStream, more: TokStream)
    requires
        s.end is None,
        more.toks.len() > 0,
        stops(more.toks[0].0),
        parens(s).res is Ok,
    ensures
        parens(s).rest.end is None,
        parens(extended(s, more)) == (Parsed {
            res: parens(s).res,
            rest: extended(parens(s).rest, more),
        }),
    decreases s.toks.len(), 1int,
{
    lemma_extended(s, more);
    if s.toks.len() > 0 {
        let s1 = s.tail();
        lemma_extended(s1, more);
        match s1.head() {
            Some(Err(e)) => {},
            Some(Ok((Token::Marker(Misc::ParenClose), close))) => {},
            _ => {
                lemma_elements_extended(s1, s.toks[0].1, Seq::empty(), more);
            },
        }
    }
}

proof fn lemma_elements_extended(s: TokStream, open: Loc, acc: Seq<Tree>, more: TokStream)
    requires
        s.end is None,
        more.toks.len() > 0,
        stops(more.toks[0].0),
        elements(s, open, acc).res is Ok,
    ensures
        elements(s, open, acc).rest.end is None,
        elements(extended(s, more), open, acc) == (Parsed {
            res: elements(s, open, acc).res,
            rest: extended(elements(s, open, acc).rest, more),
        }),
    decreases s.toks.len(), 7int,
{
    let p = exp(s);
    lemma_exp_extended(s, more);
    lemma_extended(p.rest, more);
    match p.rest.head() {
        Some(Ok((tok, loc))) => if tok == Token::Marker(Misc::Comma) {
            lemma_elements_extended(p.rest.tail(), open, acc.push(p.res->Ok_0), more);
        },
        _ => {},
    }
}

/// Parentheses around an expression that stands alone change its range and
/// nothing else: the tree of the parenthesized tokens is the tree of the
/// tokens themselves, with the range from the opening to the closing
/// parenthesis.
pub proof fn lemma_parenthesized(inner: Seq<LocTok>, open: Loc, close: Loc)
    requires
        exp(TokStream { toks: inner, end: None }).res is Ok,
        exp(TokStream { toks: inner, end: None }).rest.toks.len() == 0,
    ensures
        exp(
            TokStream {
                toks: seq![(Token::Marker(Misc::ParenOpen), open)] + inner + seq![
                    (Token::Marker(Misc::ParenClose), close),
                ],
                end: None,
            },
        ) == Parsed::ok(
            Tree {
                span: Some(Span::hull_spec(Span::of_loc(open), Span::of_loc(close))),
                ..exp(TokStream { toks: inner, end: None }).res->Ok_0
            },
            TokStream::empty(),
        ),
{
    let bare = TokStream { toks: inner, end: None };
    let closing = TokStream { toks: seq![(Token::Marker(Misc::ParenClose), close)], end: None };
    let whole = TokStream {
        toks: seq![(Token::Marker(Misc::ParenOpen), open)] + inner + seq![
            (Token::Marker(Misc::ParenClose), close),
        ],
        end: None,
    };
    let inside = extended(bare, closing);
    lemma_exp_extended(bare, closing);
    assert(whole.tail().toks =~= inside.toks);
    let after = exp(inside).rest;
    assert(after.tail().toks =~= Seq::<LocTok>::empty());
}

/// An expression begins with a prefix operator, an identifier, a literal or
/// an opening parenthesis.
pub proof fn lemma_first_token(s: TokStream)
    requires
        exp(s).res is Ok,
    ensures
        s.toks.len() > 0,
        s.toks[0].0 == Token::Op(BareOp::Not) || s.toks[0].0 is IdTok || s.toks[0].0 is Lit
            || s.toks[0].0 == Token::Marker(Misc::ParenOpen),
{
}

// ---------------------------------------------------------------------------
// The range of an expression
// ---------------------------------------------------------------------------

/// Where the token at `loc` begins.
pub open spec fn start_of(loc: Loc) -> Pos {
    Pos { line: loc.line as int, col: loc.col as int }
}

/// One past where the token at `loc` ends.
pub open spec fn end_of(loc: Loc) -> Pos {
    Pos { line: loc.line as int, col: loc.col + loc.len }
}

/// The tokens stand in reading order: each ends within the range of
/// columns, and none begins before the one ahead of it has ended.
pub open spec fn ordered(toks: Seq<LocTok>) -> bool {
    &&& forall|i: int| 0 <= i < toks.len() ==> (#[trigger] toks[i]).1.fits()
    &&& forall|i: int, j: int|
        0 <= i < j < toks.len() ==> end_of((#[trigger] toks[i]).1).le(
            start_of((#[trigger] toks[j]).1),
        )
}

/// The range from the first character of token `i` to one past the last
/// character of token `j - 1`.
pub open spec fn extent(toks: Seq<LocTok>, i: int, j: int) -> Span {
    Span {
        startline: toks[i].1.line,
        startcol: toks[i].1.col,
        endline: toks[j - 1].1.line,
        endcol: (toks[j - 1].1.col + toks[j - 1].1.len) as u16,
    }
}

/// The tokens of `all` from index `i` on, as a stream that ends as `end` says.
pub open spec fn from_index(all: Seq<LocTok>, i: int, end: Option<LexError>) -> TokStream {
    TokStream { toks: all.subrange(i, all.len() as int), end }
}

proof fn lemma_from_index(all: Seq<LocTok>, i: int, end: Option<LexError>)
    requires
        0 <= i <= all.len(),
    ensures
        from_index(all, i, end).toks.len() == all.len() - i,
        i < all.len() ==> from_index(all, i, end).head() == Some(
            Ok::<LocTok, LexError>(all[i]),
        ) && from_index(all, i, end).tail() == from_index(all, i + 1, end),
        i == all.len() ==> from_index(all, i, end).head() == (match end {
            Some(e) => Some(Err::<LocTok, LexError>(e)),
            None => None,
        }),
{
    if i < all.len() {
        assert(from_index(all, i, end).tail().toks =~= from_index(all, i + 1, end).toks);
    }
}

proof fn lemma_field_extent(
    all: Seq<LocTok>,
    end: Option<LexError>,
    i: int,
    k: int,
    acc: Seq<Selector>,
    span: Option<Span>,
)
    requires
        ordered(all),
        0 <= i <= k <= all.len(),
        span == (if k == i {
            None
        } else {
            Some(extent(all, i, k))
        }),
        field_from(from_index(all, k, end), acc, span).res is Ok,
    ensures
        ({
            let p = field_from(from_index(all, k, end), acc, span);
            let j = all.len() - p.rest.toks.len();
            &&& k <= j <= all.len()
            &&& p.rest == from_index(all, j, end)
            &&& p.res->Ok_0.1 == (if j == i {
                None
            } else {
                Some(extent(all, i, j))
            })
        }),
    decreases all.len() - k,
{
    let s = from_index(all, k, end);
    lemma_from_index(all, k, end);
    match s.head() {
        Some(Ok((Token::Selector(sel), loc))) => {
            lemma_field_extent(
                all,
                end,
                i,
                k + 1,
                acc.push(Selector { sel, span: Some(Span::of_loc(loc)) }),
                widen(span, Span::of_loc(loc)),
            );
        },
        _ => {},
    }
}

/// The range of an expression runs from the first character of its first
/// token to one past the last character of its last token, and the tokens
/// after its last one are left: for tokens `all` in reading order, where the
/// expression begins at index `i`.
pub proof fn lemma_exp_extent(all: Seq<LocTok>, end: Option<LexError>, i: int)
    requires
        ordered(all),
        0 <= i <= all.len(),
        exp(from_index(all, i, end)).res is Ok,
    ensures
        ({
            let p = exp(from_index(all, i, end));
            let j = all.len() - p.rest.toks.len();
            &&& i < j <= all.len()
            &&& p.rest == from_index(all, j, end)
            &&& p.res->Ok_0.span == Some(extent(all, i, j))
        }),
    decreases all.len() - i, 6int,
{
    lemma_binary_extent(all, end, i, 1);
}

proof fn lemma_binary_extent(all: Seq<LocTok>, end: Option<LexError>, i: int, min: nat)
    requires
        ordered(all),
        0 <= i <= all.len(),
        binary(from_index(all, i, end), min).res is Ok,
    ensures
        ({
            let p = binary(from_index(all, i, end), min);
            let j = all.len() - p.rest.toks.len();
            &&& i < j <= all.len()
            &&& p.rest == from_index(all, j, end)
            &&& p.res->Ok_0.span == Some(extent(all, i, j))
        }),
    decreases all.len() - i, 5int,
{
    let s = from_index(all, i, end);
    let u = unary(s);
    lemma_unary_extent(all, end, i);
    let k = all.len() - u.rest.toks.len();
    lemma_climb_extent(all, end, i, k, u.res->Ok_0, min);
}

proof fn lemma_climb_extent(
    all: Seq<LocTok>,
    end: Option<LexError>,
    i0: int,
    i: int,
    lhs: Tree,
    min: nat,
)
    requires
        ordered(all),
        0 <= i0 < i <= all.len(),
        lhs.span == Some(extent(all, i0, i)),
        climb(lhs, from_index(all, i, end), min).res is Ok,
    ensures
        ({
            let p = climb(lhs, from_index(all, i, end), min);
            let j = all.len() - p.rest.toks.len();
            &&& i <= j <= all.len()
            &&& p.rest == from_index(all, j, end)
            &&& p.res->Ok_0.span == Some(extent(all, i0, j))
        }),
    decreases all.len() - i, 0int,
{
    let s = from_index(all, i, end);
    lemma_from_index(all, i, end);
    match s.head() {
        Some(Ok((Token::Op(op), loc))) => match binary_level(op) {
            Some(level) => if level >= min {
                let r = binary(s.tail(), level + 1);
                lemma_binary_extent(all, end, i + 1, level + 1);
                let k = all.len() - r.rest.toks.len();
                lemma_climb_extent(
                    all,
                    end,
                    i0,
                    k,
                    binop_node(op, loc, lhs, r.res->Ok_0),
                    min,
                );
            },
            None => {},
        },
        _ => {},
    }
}

proof fn lemma_unary_extent(all: Seq<LocTok>, end: Option<LexError>, i: int)
    requires
        ordered(all),
        0 <= i <= all.len(),
        unary(from_index(all, i, end)).res is Ok,
    ensures
        ({
            let p = unary(from_index(all, i, end));
            let j = all.len() - p.rest.toks.len();
            &&& i < j <= all.len()
            &&& p.rest == from_index(all, j, end)
            &&& p.res->Ok_0.span == Some(extent(all, i, j))
        }),
    decreases all.len() - i, 4int,
{
    let s = from_index(all, i, end);
    lemma_from_index(all, i, end);
    match s.head() {
        Some(Ok((Token::Op(BareOp::Not), loc))) => {
            lemma_unary_extent(all, end, i + 1);
        },
        _ => {
            lemma_atom_extent(all, end, i);
        },
    }
}

proof fn lemma_atom_extent(all: Seq<LocTok>, end: Option<LexError>, i: int)
    requires
        ordered(all),
        0 <= i <= all.len(),
        atom(from_index(all, i, end)).res is Ok,
    ensures
        ({
            let p = atom(from_index(all, i, end));
            let j = all.len() - p.rest.toks.len();
            &&& i < j <= all.len()
            &&& p.rest == from_index(all, j, end)
            &&& p.res->Ok_0.span == Some(extent(all, i, j))
        }),
    decreases all.len() - i, 3int,
{
    let s = from_index(all, i, end);
    lemma_from_index(all, i, end);
    match s.head() {
        Some(Ok((tok, loc))) => {
            match tok {
                Token::IdTok(name) => {
                    lemma_field_or_call_extent(
                        all,
                        end,
                        i + 1,
                        Id { name, span: Some(Span::of_loc(loc)) },
                    );
                },
                Token::Marker(Misc::ParenOpen) => {
                    lemma_parens_extent(all, end, i);
                },
                _ => {},
            }
        },
        _ => {},
    }
}

proof fn lemma_field_or_call_extent(
    all: Seq<LocTok>,
    end: Option<LexError>,
    i: int,
    id: Id,
)
    requires
        ordered(all),
        1 <= i <= all.len(),
        id.span == Some(extent(all, i - 1, i)),
        field_or_call(id, from_index(all, i, end)).res is Ok,
    ensures
        ({
            let p = field_or_call(id, from_index(all, i, end));
            let j = all.len() - p.rest.toks.len();
            &&& i <= j <= all.len()
            &&& p.rest == from_index(all, j, end)
            &&& p.res->Ok_0.span == Some(extent(all, i - 1, j))
        }),
    decreases all.len() - i, 2int,
{
    let s = from_index(all, i, end);
    match s.head() {
        Some(Ok((tok, _))) => if tok == Token::Marker(Misc::ParenOpen) {
            lemma_parens_extent(all, end, i);
        } else {
            lemma_field_extent(all, end, i, i, Seq::empty(), None);
        },
        _ => {},
    }
}

proof fn lemma_parens_extent(all: Seq<LocTok>, end: Option<LexError>, i: int)
    requires
        ordered(all),
        0 <= i < all.len(),
        parens(from_index(all, i, end)).res is Ok,
    ensures
        ({
            let p = parens(from_index(all, i, end));
            let j = all.len() - p.rest.toks.len();
            &&& i + 2 <= j <= all.len()
            &&& p.rest == from_index(all, j, end)
            &&& p.res->Ok_0.1 == all[i].1
            &&& p.res->Ok_0.2 == all[j - 1].1
        }),
    decreases all.len() - i, 1int,
{
    let s = from_index(all, i, end);
    lemma_from_index(all, i, end);
    let s1 = s.tail();
    lemma_from_index(all, i + 1, end);
    match s1.head() {
        Some(Err(e)) => {},
        Some(Ok((Token::Marker(Misc::ParenClose), close))) => {},
        _ => {
            lemma_elements_extent(all, end, i + 1, all[i].1, Seq::empty());
        },
    }
}

proof fn lemma_elements_extent(
    all: Seq<LocTok>,
    end: Option<LexError>,
    k: int,
    open: Loc,
    acc: Seq<Tree>,
)
    requires
        ordered(all),
        0 <= k <= all.len(),
        elements(from_index(all, k, end), open, acc).res is Ok,
    ensures
        ({
            let p = elements(from_index(all, k, end), open, acc);
            let j = all.len() - p.rest.toks.len();
            &&& k + 2 <= j <= all.len()
            &&& p.rest == from_index(all, j, end)
            &&& p.res->Ok_0.1 == open
            &&& p.res->Ok_0.2 == all[j - 1].1
        }),
    decreases all.len() - k, 7int,
{
    let s = from_index(all, k, end);
    let p = exp(s);
    lemma_exp_extent(all, end, k);
    let m = all.len() - p.rest.toks.len();
    lemma_from_index(all, m, end);
    match p.rest.head() {
        Some(Ok((tok, loc))) => {
            if tok == Token::Marker(Misc::Comma) {
                lemma_elements_extent(all, end, m + 1, open, acc.push(p.res->Ok_0));
            }
        },
        _ => {},
    }
}

// ---------------------------------------------------------------------------
// How operators group
// ---------------------------------------------------------------------------

/// The next token of `s` is no binary operator.
pub open spec fn no_operator_next(s: TokStream) -> bool {
    match s.head() {
        Some(Ok((Token::Op(op), _))) => binary_level(op) is None,
        Some(Err(_)) => false,
        _ => true,
    }
}

/// Three operands joined by two operators, where the second operator binds
/// no tighter than the first, group to the left: `a op1 b op2 c` is
/// `(a op1 b) op2 c`. Operators of one level are of this kind.
pub proof fn lemma_groups_left(
    s: TokStream,
    op1: BareOp,
    loc1: Loc,
    op2: BareOp,
    loc2: Loc,
)
    requires
        unary(s).res is Ok,
        unary(s).rest.head() == Some(Ok::<LocTok, LexError>((Token::Op(op1), loc1))),
        unary(unary(s).rest.tail()).res is Ok,
        unary(unary(s).rest.tail()).rest.head() == Some(
            Ok::<LocTok, LexError>((Token::Op(op2), loc2)),
        ),
        unary(unary(unary(s).rest.tail()).rest.tail()).res is Ok,
        no_operator_next(unary(unary(unary(s).rest.tail()).rest.tail()).rest),
        binary_level(op1) is Some,
        binary_level(op2) is Some,
        binary_level(op2)->Some_0 <= binary_level(op1)->Some_0,
    ensures
        ({
            let a = unary(s);
            let b = unary(a.rest.tail());
            let c = unary(b.rest.tail());
            exp(s) == Parsed::ok(
                binop_node(
                    op2,
                    loc2,
                    binop_node(op1, loc1, a.res->Ok_0, b.res->Ok_0),
                    c.res->Ok_0,
                ),
                c.rest,
            )
        }),
{
    let a = unary(s);
    let b = unary(a.rest.tail());
    lemma_unary_progress(s);
    lemma_unary_progress(a.rest.tail());
    lemma_unary_progress(b.rest.tail());
}

/// Three operands joined by two operators, where the second operator binds
/// tighter than the first, group to the right: `a op1 b op2 c` is
/// `a op1 (b op2 c)`.
pub proof fn lemma_binds_tighter(
    s: TokStream,
    op1: BareOp,
    loc1: Loc,
    op2: BareOp,
    loc2: Loc,
)
    requires
        unary(s).res is Ok,
        unary(s).rest.head() == Some(Ok::<LocTok, LexError>((Token::Op(op1), loc1))),
        unary(unary(s).rest.tail()).res is Ok,
        unary(unary(s).rest.tail()).rest.head() == Some(
            Ok::<LocTok, LexError>((Token::Op(op2), loc2)),
        ),
        unary(unary(unary(s).rest.tail()).rest.tail()).res is Ok,
        no_operator_next(unary(unary(unary(s).rest.tail()).rest.tail()).rest),
        binary_level(op1) is Some,
        binary_level(op2) is Some,
        binary_level(op2)->Some_0 > binary_level(op1)->Some_0,
    ensures
        ({
            let a = unary(s);
            let b = unary(a.rest.tail());
            let c = unary(b.rest.tail());
            exp(s) == Parsed::ok(
                binop_node(
                    op1,
                    loc1,
                    a.res->Ok_0,
                    binop_node(op2, loc2, b.res->Ok_0, c.res->Ok_0),
                ),
                c.rest,
            )
        }),
{
    let a = unary(s);
    let b = unary(a.rest.tail());
    let c = unary(b.rest.tail());
    let l2 = binary_level(op2)->Some_0;
    lemma_unary_progress(s);
    lemma_unary_progress(a.rest.tail());
    lemma_unary_progress(b.rest.tail());
    assert(climb(c.res->Ok_0, c.rest, l2 + 1) == Parsed::ok(c.res->Ok_0, c.rest));
}

// ---------------------------------------------------------------------------
// The location of an error
// ---------------------------------------------------------------------------

/// The error has no location if and only if it was met at the end of the input.
pub open spec fn located(e: ParseError) -> bool {
    e.loc is None <==> e.kind matches ParseErrorKind::Unexpected { found: None, .. }
}

proof fn lemma_field_located(s: TokStream, acc: Seq<Selector>, span: Option<Span>)
    ensures
        field_from(s, acc, span).res matches Err(e) ==> located(e),
    decreases s.toks.len(),
{
    match s.head() {
        Some(Ok((Token::Selector(sel), loc))) => {
            lemma_field_located(
                s.tail(),
                acc.push(Selector { sel, span: Some(Span::of_loc(loc)) }),
                widen(span, Span::of_loc(loc)),
            );
        },
        _ => {},
    }
}

/// An error of the expression parser has a location, but where the input
/// ended in place of a token: then, and only then, it has none.
pub proof fn lemma_exp_located(s: TokStream)
    ensures
        exp(s).res matches Err(e) ==> located(e),
    decreases s.toks.len(), 6int,
{
    lemma_binary_located(s, 1);
}

proof fn lemma_binary_located(s: TokStream, min: nat)
    ensures
        binary(s, min).res matches Err(e) ==> located(e),
    decreases s.toks.len(), 5int,
{
    lemma_unary_progress(s);
    lemma_unary_located(s);
    match unary(s).res {
        Ok(lhs) => {
            lemma_climb_located(lhs, unary(s).rest, min);
        },
        Err(_) => {},
    }
}

proof fn lemma_climb_located(lhs: Tree, s: TokStream, min: nat)
    ensures
        climb(lhs, s, min).res matches Err(e) ==> located(e),
    decreases s.toks.len(), 0int,
{
    match s.head() {
        Some(Ok((Token::Op(op), loc))) => match binary_level(op) {
            Some(level) => if level >= min {
                let r = binary(s.tail(), level + 1);
                lemma_binary_progress(s.tail(), level + 1);
                lemma_binary_located(s.tail(), level + 1);
                match r.res {
                    Ok(rhs) => {
                        lemma_climb_located(binop_node(op, loc, lhs, rhs), r.rest, min);
                    },
                    Err(_) => {},
                }
            },
            None => {},
        },
        _ => {},
    }
}

proof fn lemma_unary_located(s: TokStream)
    ensures
        unary(s).res matches Err(e) ==> located(e),
    decreases s.toks.len(), 4int,
{
    match s.head() {
        Some(Ok((Token::Op(BareOp::Not), loc))) => {
            lemma_unary_located(s.tail());
        },
        _ => {
            lemma_atom_located(s);
        },
    }
}

proof fn lemma_atom_located(s: TokStream)
    ensures
        atom(s).res matches Err(e) ==> located(e),
    decreases s.toks.len(), 3int,
{
    match s.head() {
        Some(Ok((tok, loc))) => match tok {
            Token::IdTok(name) => {
                lemma_field_or_call_located(
                    Id { name, span: Some(Span::of_loc(loc)) },
                    s.tail(),
                );
            },
            Token::Marker(Misc::ParenOpen) => {
                lemma_parens_located(s);
            },
            _ => {},
        },
        _ => {},
    }
}

proof fn lemma_field_or_call_located(id: Id, s: TokStream)
    ensures
        field_or_call(id, s).res matches Err(e) ==> located(e),
    decreases s.toks.len(), 2int,
{
    match s.head() {
        Some(Ok((tok, _))) => if tok == Token::Marker(Misc::ParenOpen) {
            lemma_parens_located(s);
        } else {
            lemma_field_located(s, Seq::empty(), None);
        },
        _ => {},
    }
}

proof fn lemma_parens_located(s: TokStream)
    requires
        s.toks.len() > 0,
    ensures
        parens(s).res matches Err(e) ==> located(e),
    decreases s.toks.len(), 1int,
{
    match s.tail().head() {
        Some(Err(e)) => {},
        Some(Ok((Token::Marker(Misc::ParenClose), close))) => {},
        _ => {
            lemma_elements_located(s.tail(), s.toks[0].1, Seq::empty());
        },
    }
}

proof fn lemma_elements_located(s: TokStream, open: Loc, acc: Seq<Tree>)
    ensures
        elements(s, open, acc).res matches Err(e) ==> located(e),
    decreases s.toks.len(), 7int,
{
    let p = exp(s);
    lemma_progress(s);
    lemma_exp_located(s);
    match p.res {
        Ok(elem) => match p.rest.head() {
            Some(Ok((tok, loc))) => if tok == Token::Marker(Misc::Comma) {
                lemma_elements_located(p.rest.tail(), open, acc.push(elem));
            },
            _ => {},
        },
        Err(_) => {},
    }
}

// ---------------------------------------------------------------------------
// Ranges and types in a parsed tree
// ---------------------------------------------------------------------------

/// Every tree of the sequence is as parsing leaves it.
pub open spec fn all_placed(trees: Seq<Tree>) -> bool {
    forall|i: int| 0 <= i < trees.len() ==> (#[trigger] trees[i]).placed()
}

proof fn lemma_field_placed(s: TokStream, acc: Seq<Selector>, span: Option<Span>)
    requires
        forall|i: int| 0 <= i < acc.len() ==> (#[trigger] acc[i]).span is Some,
        field_from(s, acc, span).res is Ok,
    ensures
        forall|i: int|
            0 <= i < field_from(s, acc, span).res->Ok_0.0.len() ==> (#[trigger] field_from(
                s,
                acc,
                span,
            ).res->Ok_0.0[i]).span is Some,
    decreases s.toks.len(),
{
    match s.head() {
        Some(Ok((Token::Selector(sel), loc))) => {
            lemma_field_placed(
                s.tail(),
                acc.push(Selector { sel, span: Some(Span::of_loc(loc)) }),
                widen(span, Span::of_loc(loc)),
            );
        },
        _ => {},
    }
}

/// Every node of a parsed expression has a range, and so has every
/// identifier, operator and selector in it; no node has a type.
pub proof fn lemma_exp_placed(s: TokStream)
    requires
        exp(s).res is Ok,
    ensures
        exp(s).res->Ok_0.placed(),
    decreases s.toks.len(), 6int,
{
    lemma_binary_placed(s, 1);
}

proof fn lemma_binary_placed(s: TokStream, min: nat)
    requires
        binary(s, min).res is Ok,
    ensures
        binary(s, min).res->Ok_0.placed(),
    decreases s.toks.len(), 5int,
{
    lemma_unary_placed(s);
    lemma_climb_placed(unary(s).res->Ok_0, unary(s).rest, min);
}

proof fn lemma_climb_placed(lhs: Tree, s: TokStream, min: nat)
    requires
        lhs.placed(),
        climb(lhs, s, min).res is Ok,
    ensures
        climb(lhs, s, min).res->Ok_0.placed(),
    decreases s.toks.len(), 0int,
{
    match s.head() {
        Some(Ok((Token::Op(op), loc))) => match binary_level(op) {
            Some(level) => if level >= min {
                let r = binary(s.tail(), level + 1);
                lemma_binary_placed(s.tail(), level + 1);
                lemma_climb_placed(binop_node(op, loc, lhs, r.res->Ok_0), r.rest, min);
            },
            None => {},
        },
        _ => {},
    }
}

proof fn lemma_unary_placed(s: TokStream)
    requires
        unary(s).res is Ok,
    ensures
        unary(s).res->Ok_0.placed(),
    decreases s.toks.len(), 4int,
{
    match s.head() {
        Some(Ok((Token::Op(BareOp::Not), loc))) => {
            lemma_unary_placed(s.tail());
        },
        _ => {
            lemma_atom_placed(s);
        },
    }
}

proof fn lemma_atom_placed(s: TokStream)
    requires
        atom(s).res is Ok,
    ensures
        atom(s).res->Ok_0.placed(),
    decreases s.toks.len(), 3int,
{
    match s.head() {
        Some(Ok((tok, loc))) => match tok {
            Token::IdTok(name) => {
                lemma_field_or_call_placed(Id { name, span: Some(Span::of_loc(loc)) }, s.tail());
            },
            Token::Marker(Misc::ParenOpen) => {
                lemma_parens_placed(s);
            },
            _ => {},
        },
        _ => {},
    }
}

proof fn lemma_field_or_call_placed(id: Id, s: TokStream)
    requires
        id.span is Some,
        field_or_call(id, s).res is Ok,
    ensures
        field_or_call(id, s).res->Ok_0.placed(),
    decreases s.toks.len(), 2int,
{
    match s.head() {
        Some(Ok((tok, _))) => if tok == Token::Marker(Misc::ParenOpen) {
            lemma_parens_placed(s);
        } else {
            lemma_field_placed(s, Seq::empty(), None);
        },
        _ => {},
    }
}

proof fn lemma_parens_placed(s: TokStream)
    requires
        parens(s).res is Ok,
    ensures
        all_placed(parens(s).res->Ok_0.0),
    decreases s.toks.len(), 1int,
{
    if s.toks.len() > 0 {
        match s.tail().head() {
            Some(Err(e)) => {},
            Some(Ok((Token::Marker(Misc::ParenClose), close))) => {},
            _ => {
                lemma_elements_placed(s.tail(), s.toks[0].1, Seq::empty());
            },
        }
    }
}

proof fn lemma_elements_placed(s: TokStream, open: Loc, acc: Seq<Tree>)
    requires
        all_placed(acc),
        elements(s, open, acc).res is Ok,
    ensures
        all_placed(elements(s, open, acc).res->Ok_0.0),
    decreases s.toks.len(), 7int,
{
    let p = exp(s);
    lemma_exp_placed(s);
    match p.rest.head() {
        Some(Ok((tok, loc))) => if tok == Token::Marker(Misc::Comma) {
            lemma_elements_placed(p.rest.tail(), open, acc.push(p.res->Ok_0));
        },
        _ => {},
    }
}

// ---------------------------------------------------------------------------
// The shape of an expression
// ---------------------------------------------------------------------------

/// Two sequences hold the same tokens, whatever their locations.
pub open spec fn same_kinds(a: Seq<LocTok>, b: Seq<LocTok>) -> bool {
    a.len() == b.len() && forall|i: int| 0 <= i < a.len() ==> (#[trigger] a[i]).0 == b[i].0
}

/// What two runs of one rule have in common when they go alike: both
/// succeed, and both leave the tokens from the same index on.
pub open spec fn alike<T>(
    pa: Parsed<T>,
    pb: Parsed<T>,
    a: Seq<LocTok>,
    b: Seq<LocTok>,
    ea: Option<LexError>,
    eb: Option<LexError>,
) -> bool {
    let j = a.len() - pa.rest.toks.len();
    &&& pb.res is Ok
    &&& 0 <= j <= a.len()
    &&& pa.rest == from_index(a, j, ea)
    &&& pb.rest == from_index(b, j, eb)
}

proof fn lemma_field_shape(
    a: Seq<LocTok>,
    b: Seq<LocTok>,
    ea: Option<LexError>,
    eb: Option<LexError>,
    k: int,
    acca: Seq<Selector>,
    accb: Seq<Selector>,
    spana: Option<Span>,
    spanb: Option<Span>,
)
    requires
        same_kinds(a, b),
        ea is None <==> eb is None,
        0 <= k <= a.len(),
        same_selectors(acca, accb),
        field_from(from_index(a, k, ea), acca, spana).res is Ok,
    ensures
        ({
            let pa = field_from(from_index(a, k, ea), acca, spana);
            let pb = field_from(from_index(b, k, eb), accb, spanb);
            &&& alike(pa, pb, a, b, ea, eb)
            &&& k <= a.len() - pa.rest.toks.len()
            &&& same_selectors(pa.res->Ok_0.0, pb.res->Ok_0.0)
        }),
    decreases a.len() - k,
{
    lemma_from_index(a, k, ea);
    lemma_from_index(b, k, eb);
    match from_index(a, k, ea).head() {
        Some(Ok((Token::Selector(sel), loca))) => {
            let locb = b[k].1;
            lemma_field_shape(
                a,
                b,
                ea,
                eb,
                k + 1,
                acca.push(Selector { sel, span: Some(Span::of_loc(loca)) }),
                accb.push(Selector { sel, span: Some(Span::of_loc(locb)) }),
                widen(spana, Span::of_loc(loca)),
                widen(spanb, Span::of_loc(locb)),
            );
        },
        _ => {},
    }
}

/// The shape of an expression depends on its tokens alone, not on where
/// they stand: two sequences of the same tokens are parsed to trees of the
/// same shape, and as many tokens of each are left.
pub proof fn lemma_exp_shape(
    a: Seq<LocTok>,
    b: Seq<LocTok>,
    ea: Option<LexError>,
    eb: Option<LexError>,
    i: int,
)
    requires
        same_kinds(a, b),
        ea is None <==> eb is None,
        0 <= i <= a.len(),
        exp(from_index(a, i, ea)).res is Ok,
    ensures
        ({
            let pa = exp(from_index(a, i, ea));
            let pb = exp(from_index(b, i, eb));
            &&& alike(pa, pb, a, b, ea, eb)
            &&& i < a.len() - pa.rest.toks.len()
            &&& pa.res->Ok_0.shape() == pb.res->Ok_0.shape()
        }),
    decreases a.len() - i, 6int,
{
    lemma_binary_shape(a, b, ea, eb, i, 1);
}

proof fn lemma_binary_shape(
    a: Seq<LocTok>,
    b: Seq<LocTok>,
    ea: Option<LexError>,
    eb: Option<LexError>,
    i: int,
    min: nat,
)
    requires
        same_kinds(a, b),
        ea is None <==> eb is None,
        0 <= i <= a.len(),
        binary(from_index(a, i, ea), min).res is Ok,
    ensures
        ({
            let pa = binary(from_index(a, i, ea), min);
            let pb = binary(from_index(b, i, eb), min);
            &&& alike(pa, pb, a, b, ea, eb)
            &&& i < a.len() - pa.rest.toks.len()
            &&& pa.res->Ok_0.shape() == pb.res->Ok_0.shape()
        }),
    decreases a.len() - i, 5int,
{
    let sa = from_index(a, i, ea);
    let sb = from_index(b, i, eb);
    lemma_unary_shape(a, b, ea, eb, i);
    let ua = unary(sa);
    let ub = unary(sb);
    let k = a.len() - ua.rest.toks.len();
    lemma_climb_shape(a, b, ea, eb, k, ua.res->Ok_0, ub.res->Ok_0, min);
}

proof fn lemma_climb_shape(
    a: Seq<LocTok>,
    b: Seq<LocTok>,
    ea: Option<LexError>,
    eb: Option<LexError>,
    i: int,
    lhsa: Tree,
    lhsb: Tree,
    min: nat,
)
    requires
        same_kinds(a, b),
        ea is None <==> eb is None,
        0 <= i <= a.len(),
        lhsa.shape() == lhsb.shape(),
        climb(lhsa, from_index(a, i, ea), min).res is Ok,
    ensures
        ({
            let pa = climb(lhsa, from_index(a, i, ea), min);
            let pb = climb(lhsb, from_index(b, i, eb), min);
            &&& alike(pa, pb, a, b, ea, eb)
            &&& i <= a.len() - pa.rest.toks.len()
            &&& pa.res->Ok_0.shape() == pb.res->Ok_0.shape()
        }),
    decreases a.len() - i, 0int,
{
    let sa = from_index(a, i, ea);
    let sb = from_index(b, i, eb);
    lemma_from_index(a, i, ea);
    lemma_from_index(b, i, eb);
    match sa.head() {
        Some(Ok((Token::Op(op), loca))) => match binary_level(op) {
            Some(level) => if level >= min {
                let locb = b[i].1;
                lemma_binary_shape(a, b, ea, eb, i + 1, level + 1);
                let ra = binary(sa.tail(), level + 1);
                let rb = binary(sb.tail(), level + 1);
                let k = a.len() - ra.rest.toks.len();
                lemma_climb_shape(
                    a,
                    b,
                    ea,
                    eb,
                    k,
                    binop_node(op, loca, lhsa, ra.res->Ok_0),
                    binop_node(op, locb, lhsb, rb.res->Ok_0),
                    min,
                );
            },
            None => {},
        },
        _ => {},
    }
}

proof fn lemma_unary_shape(
    a: Seq<LocTok>,
    b: Seq<LocTok>,
    ea: Option<LexError>,
    eb: Option<LexError>,
    i: int,
)
    requires
        same_kinds(a, b),
        ea is None <==> eb is None,
        0 <= i <= a.len(),
        unary(from_index(a, i, ea)).res is Ok,
    ensures
        ({
            let pa = unary(from_index(a, i, ea));
            let pb = unary(from_index(b, i, eb));
            &&& alike(pa, pb, a, b, ea, eb)
            &&& i < a.len() - pa.rest.toks.len()
            &&& pa.res->Ok_0.shape() == pb.res->Ok_0.shape()
        }),
    decreases a.len() - i, 4int,
{
    let sa = from_index(a, i, ea);
    lemma_from_index(a, i, ea);
    lemma_from_index(b, i, eb);
    match sa.head() {
        Some(Ok((Token::Op(BareOp::Not), loc))) => {
            lemma_unary_shape(a, b, ea, eb, i + 1);
        },
        _ => {
            lemma_atom_shape(a, b, ea, eb, i);
        },
    }
}

proof fn lemma_atom_shape(
    a: Seq<LocTok>,
    b: Seq<LocTok>,
    ea: Option<LexError>,
    eb: Option<LexError>,
    i: int,
)
    requires
        same_kinds(a, b),
        ea is None <==> eb is None,
        0 <= i <= a.len(),
        atom(from_index(a, i, ea)).res is Ok,
    ensures
        ({
            let pa = atom(from_index(a, i, ea));
            let pb = atom(from_index(b, i, eb));
            &&& alike(pa, pb, a, b, ea, eb)
            &&& i < a.len() - pa.rest.toks.len()
            &&& pa.res->Ok_0.shape() == pb.res->Ok_0.shape()
        }),
    decreases a.len() - i, 3int,
{
    let sa = from_index(a, i, ea);
    let sb = from_index(b, i, eb);
    lemma_from_index(a, i, ea);
    lemma_from_index(b, i, eb);
    match sa.head() {
        Some(Ok((tok, loca))) => {
            let locb = b[i].1;
            match tok {
                Token::IdTok(name) => {
                    lemma_field_or_call_shape(
                        a,
                        b,
                        ea,
                        eb,
                        i + 1,
                        Id { name, span: Some(Span::of_loc(loca)) },
                        Id { name, span: Some(Span::of_loc(locb)) },
                    );
                },
                Token::Marker(Misc::ParenOpen) => {
                    lemma_parens_shape(a, b, ea, eb, i);
                    let ga = parens(sa).res->Ok_0;
                    let gb = parens(sb).res->Ok_0;
                    if ga.0.len() != 1 {
                        lemma_tuple_shape(ga.0, gb.0);
                    }
                },
                _ => {},
            }
        },
        _ => {},
    }
}

proof fn lemma_field_or_call_shape(
    a: Seq<LocTok>,
    b: Seq<LocTok>,
    ea: Option<LexError>,
    eb: Option<LexError>,
    i: int,
    ida: Id,
    idb: Id,
)
    requires
        same_kinds(a, b),
        ea is None <==> eb is None,
        0 <= i <= a.len(),
        ida.name == idb.name,
        field_or_call(ida, from_index(a, i, ea)).res is Ok,
    ensures
        ({
            let pa = field_or_call(ida, from_index(a, i, ea));
            let pb = field_or_call(idb, from_index(b, i, eb));
            &&& alike(pa, pb, a, b, ea, eb)
            &&& i <= a.len() - pa.rest.toks.len()
            &&& pa.res->Ok_0.shape() == pb.res->Ok_0.shape()
        }),
    decreases a.len() - i, 2int,
{
    let sa = from_index(a, i, ea);
    let sb = from_index(b, i, eb);
    match sa.head() {
        Some(Ok((tok, _))) => if tok == Token::Marker(Misc::ParenOpen) {
            lemma_parens_shape(a, b, ea, eb, i);
            lemma_call_shape(ida, idb, parens(sa).res->Ok_0.0, parens(sb).res->Ok_0.0);
        } else {
            lemma_field_shape(a, b, ea, eb, i, Seq::empty(), Seq::empty(), None, None);
            lemma_var_shape(ida, idb, field(sa).res->Ok_0.0, field(sb).res->Ok_0.0);
        },
        None => {},
        _ => {},
    }
}

proof fn lemma_parens_shape(
    a: Seq<LocTok>,
    b: Seq<LocTok>,
    ea: Option<LexError>,
    eb: Option<LexError>,
    i: int,
)
    requires
        same_kinds(a, b),
        ea is None <==> eb is None,
        0 <= i < a.len(),
        parens(from_index(a, i, ea)).res is Ok,
    ensures
        ({
            let pa = parens(from_index(a, i, ea));
            let pb = parens(from_index(b, i, eb));
            &&& alike(pa, pb, a, b, ea, eb)
            &&& i < a.len() - pa.rest.toks.len()
            &&& same_shapes(pa.res->Ok_0.0, pb.res->Ok_0.0)
        }),
    decreases a.len() - i, 1int,
{
    let sa = from_index(a, i, ea);
    lemma_from_index(a, i, ea);
    lemma_from_index(b, i, eb);
    lemma_from_index(a, i + 1, ea);
    lemma_from_index(b, i + 1, eb);
    match sa.tail().head() {
        Some(Err(e)) => {},
        Some(Ok((Token::Marker(Misc::ParenClose), close))) => {},
        _ => {
            lemma_elements_shape(a, b, ea, eb, i + 1, a[i].1, b[i].1, Seq::empty(), Seq::empty());
        },
    }
}

proof fn lemma_elements_shape(
    a: Seq<LocTok>,
    b: Seq<LocTok>,
    ea: Option<LexError>,
    eb: Option<LexError>,
    k: int,
    opena: Loc,
    openb: Loc,
    acca: Seq<Tree>,
    accb: Seq<Tree>,
)
    requires
        same_kinds(a, b),
        ea is None <==> eb is None,
        0 <= k <= a.len(),
        same_shapes(acca, accb),
        elements(from_index(a, k, ea), opena, acca).res is Ok,
    ensures
        ({
            let pa = elements(from_index(a, k, ea), opena, acca);
            let pb = elements(from_index(b, k, eb), openb, accb);
            &&& alike(pa, pb, a, b, ea, eb)
            &&& k < a.len() - pa.rest.toks.len()
            &&& same_shapes(pa.res->Ok_0.0, pb.res->Ok_0.0)
        }),
    decreases a.len() - k, 7int,
{
    let sa = from_index(a, k, ea);
    let sb = from_index(b, k, eb);
    lemma_exp_shape(a, b, ea, eb, k);
    let pa = exp(sa);
    let pb = exp(sb);
    let m = a.len() - pa.rest.toks.len();
    lemma_from_index(a, m, ea);
    lemma_from_index(b, m, eb);
    let nexta = acca.push(pa.res->Ok_0);
    let nextb = accb.push(pb.res->Ok_0);
    match pa.rest.head() {
        Some(Ok((tok, loc))) => {
            if tok == Token::Marker(Misc::Comma) {
                lemma_elements_shape(a, b, ea, eb, m + 1, opena, openb, nexta, nextb);
            }
        },
        _ => {},
    }
}

/// Parentheses never change the shape of an expression that stands alone,
/// wherever the tokens stand: the tokens of the expression, moved to other
/// locations and put between parentheses, are parsed to a tree of the same
/// shape.
pub proof fn lemma_parenthesized_shape(
    inner: Seq<LocTok>,
    moved: Seq<LocTok>,
    open: Loc,
    close: Loc,
)
    requires
        same_kinds(inner, moved),
        exp(TokStream { toks: inner, end: None }).res is Ok,
        exp(TokStream { toks: inner, end: None }).rest.toks.len() == 0,
    ensures
        ({
            let plain = exp(TokStream { toks: inner, end: None });
            let wrapped = exp(
                TokStream {
                    toks: seq![(Token::Marker(Misc::ParenOpen), open)] + moved + seq![
                        (Token::Marker(Misc::ParenClose), close),
                    ],
                    end: None,
                },
            );
            &&& wrapped.res is Ok
            &&& wrapped.res->Ok_0.shape() == plain.res->Ok_0.shape()
            &&& wrapped.rest == TokStream::empty()
        }),
{
    assert(from_index(inner, 0, None).toks =~= inner);
    assert(from_index(moved, 0, None).toks =~= moved);
    lemma_exp_shape(inner, moved, None, None, 0);
    lemma_parenthesized(moved, open, close);
}

// ---------------------------------------------------------------------------
// The tokens of a text
// ---------------------------------------------------------------------------

/// The line and column of the character at index `p`.
pub open spec fn pos_of(src: Seq<char>, p: int) -> Pos {
    Pos { line: line_of(src, p) as int, col: col_of(src, p) }
}

/// In a text without a line terminator every index is on line zero, and its
/// column is the index itself.
pub proof fn lemma_single_line(src: Seq<char>, p: int)
    requires
        forall|i: int| 0 <= i < src.len() ==> src[i] != '\n',
        0 <= p <= src.len(),
    ensures
        line_of(src, p) == 0,
        col_of(src, p) == p,
    decreases p,
{
    if p > 0 {
        lemma_single_line(src, p - 1);
    }
}

/// A later index is on a later line, or on the same line as many columns
/// further as it is characters further.
pub proof fn lemma_pos_order(src: Seq<char>, p: int, q: int)
    requires
        0 <= p <= q,
    ensures
        line_of(src, p) <= line_of(src, q),
        line_of(src, p) == line_of(src, q) ==> col_of(src, q) == col_of(src, p) + (q - p),
        pos_of(src, p).le(pos_of(src, q)),
    decreases q - p,
{
    if p < q {
        lemma_pos_order(src, p, q - 1);
    }
}

/// The location of a token is the line and column of its first character,
/// and its width the number of its characters; the lexer goes on right after
/// it. Gives the index of the first character and the number of characters.
pub proof fn lemma_step_token(src: Seq<char>, pos: int, names: Seq<Seq<char>>) -> (r: (int, int))
    requires
        0 <= pos <= src.len(),
        lex_step(src, pos, names) is Tok,
    ensures
        skip_trivia(src, pos) == Trivia::Clear(r.0),
        pos <= r.0,
        1 <= r.1,
        r.0 + r.1 <= src.len(),
        loc_at(src, r.0, r.1) == Some(lex_step(src, pos, names)->tok.1),
        lex_step(src, pos, names)->next == r.0 + r.1,
{
    lemma_skip_trivia_bounds(src, pos);
    let start = skip_trivia(src, pos)->Clear_0;
    lemma_scan_bounds(src, start);
    let next = lex_step(src, pos, names)->next;
    (start, next - start)
}

/// The tokens of a text stand in reading order, and none begins before the
/// index from which they are read.
pub proof fn lemma_lexed_ordered(src: Seq<char>, pos: int, names: Seq<Seq<char>>)
    requires
        0 <= pos <= src.len(),
    ensures
        ordered(lex_all(src, pos, names).toks),
        forall|k: int|
            0 <= k < lex_all(src, pos, names).toks.len() ==> pos_of(src, pos).le(
                start_of((#[trigger] lex_all(src, pos, names).toks[k]).1),
            ),
    decreases src.len() - pos,
{
    match lex_step(src, pos, names) {
        Step::Tok { tok, next, names: names2 } => {
            let (start, len) = lemma_step_token(src, pos, names);
            lemma_line_bounds(src, start);
            lemma_pos_order(src, pos, start);
            lemma_pos_order(src, start, next);
            lemma_lexed_ordered(src, next, names2);
        },
        _ => {},
    }
}

/// For each token of the text from index `pos` on: the index of its first
/// character and the index one past its last character.
pub open spec fn lex_bounds(src: Seq<char>, pos: int, names: Seq<Seq<char>>) -> Seq<(int, int)>
    decreases src.len() - pos,
{
    if pos < 0 || pos > src.len() {
        Seq::empty()
    } else {
        match lex_step(src, pos, names) {
            Step::Tok { tok, next, names: names2 } => {
                proof {
                    lemma_lex_step_advances(src, pos, names);
                }
                seq![(skip_trivia(src, pos)->Clear_0, next)] + lex_bounds(src, next, names2)
            },
            _ => Seq::empty(),
        }
    }
}

/// Each token of a text is given the location of its characters: the line
/// and column of the first one, and their number as its width. The tokens
/// lie in the text one after the other.
pub proof fn lemma_lex_bounds(src: Seq<char>, pos: int, names: Seq<Seq<char>>)
    requires
        0 <= pos <= src.len(),
    ensures
        lex_bounds(src, pos, names).len() == lex_all(src, pos, names).toks.len(),
        forall|k: int|
            0 <= k < lex_bounds(src, pos, names).len() ==> {
                let (a, b) = #[trigger] lex_bounds(src, pos, names)[k];
                &&& pos <= a < b <= src.len()
                &&& loc_at(src, a, b - a) == Some(lex_all(src, pos, names).toks[k].1)
            },
        forall|k: int|
            0 <= k < lex_bounds(src, pos, names).len() - 1 ==> (#[trigger] lex_bounds(
                src,
                pos,
                names,
            )[k]).1 <= lex_bounds(src, pos, names)[k + 1].0,
    decreases src.len() - pos,
{
    match lex_step(src, pos, names) {
        Step::Tok { tok, next, names: names2 } => {
            let (start, len) = lemma_step_token(src, pos, names);
            lemma_lex_bounds(src, next, names2);
        },
        _ => {},
    }
}

/// Of an expression at the start of a text: its range runs from the first
/// character of its first token to one past the last character of its last
/// token, and the tokens after that one are left.
pub proof fn lemma_parsed_range(src: Seq<char>)
    requires
        exp(lex_all(src, 0, Seq::empty())).res is Ok,
    ensures
        ({
            let s = lex_all(src, 0, Seq::empty());
            let p = exp(s);
            let n = s.toks.len() - p.rest.toks.len();
            &&& 1 <= n <= s.toks.len()
            &&& p.rest.toks == s.toks.subrange(n, s.toks.len() as int)
            &&& p.res->Ok_0.span == Some(extent(s.toks, 0, n))
        }),
{
    let s = lex_all(src, 0, Seq::empty());
    lemma_lexed_ordered(src, 0, Seq::empty());
    assert(from_index(s.toks, 0, s.end).toks =~= s.toks);
    lemma_exp_extent(s.toks, s.end, 0);
}

/// Of an expression at the start of a text of one line: its range begins at
/// the index of the first character of its first token and ends at the
/// index one past the last character of its last token.
pub proof fn lemma_single_line_range(src: Seq<char>)
    requires
        forall|i: int| 0 <= i < src.len() ==> src[i] != '\n',
        exp(lex_all(src, 0, Seq::empty())).res is Ok,
    ensures
        ({
            let s = lex_all(src, 0, Seq::empty());
            let bounds = lex_bounds(src, 0, Seq::empty());
            let p = exp(s);
            let n = s.toks.len() - p.rest.toks.len();
            &&& 1 <= n <= bounds.len()
            &&& 0 <= bounds[0].0 < bounds[n - 1].1 <= u16::MAX
            &&& p.res->Ok_0.span == Some(
                Span {
                    startline: 0,
                    endline: 0,
                    startcol: bounds[0].0 as u16,
                    endcol: bounds[n - 1].1 as u16,
                },
            )
        }),
{
    let s = lex_all(src, 0, Seq::empty());
    let bounds = lex_bounds(src, 0, Seq::empty());
    let n = s.toks.len() - exp(s).rest.toks.len();
    lemma_parsed_range(src);
    lemma_lex_bounds(src, 0, Seq::empty());
    lemma_single_line(src, bounds[0].0);
    lemma_single_line(src, bounds[n - 1].0);
    assert(bounds[0].0 <= bounds[n - 1].0) by {
        lemma_bounds_increase(bounds, 0, n - 1);
    }
}

/// Bounds that lie one after the other begin in increasing order.
proof fn lemma_bounds_increase(bounds: Seq<(int, int)>, i: int, j: int)
    requires
        0 <= i <= j < bounds.len(),
        forall|k: int| 0 <= k < bounds.len() ==> (#[trigger] bounds[k]).0 < bounds[k].1,
        forall|k: int| 0 <= k < bounds.len() - 1 ==> (#[trigger] bounds[k]).1 <= bounds[k + 1].0,
    ensures
        bounds[i].0 <= bounds[j].0,
    decreases j - i,
{
    if i < j {
        lemma_bounds_increase(bounds, i, j - 1);
    }
}

/// Parentheses around a text that is one expression never change the shape
/// of its tree, provided the tokens of the parenthesized text are the
/// tokens of the text itself between the two parentheses. (They are not
/// where the text ends in a line comment, which takes in the closing
/// parenthesis.)
pub proof fn lemma_parenthesized_text(text: Seq<char>)
    requires
        exp(lex_all(text, 0, Seq::empty())).res is Ok,
        exp(lex_all(text, 0, Seq::empty())).rest == TokStream::empty(),
        ({
            let plain = lex_all(text, 0, Seq::empty());
            let wrapped = lex_all(seq!['('] + text + seq![')'], 0, Seq::empty());
            let n = plain.toks.len() as int;
            &&& plain.end is None
            &&& wrapped.end is None
            &&& wrapped.toks.len() == n + 2
            &&& wrapped.toks[0].0 == Token::Marker(Misc::ParenOpen)
            &&& wrapped.toks[n + 1].0 == Token::Marker(Misc::ParenClose)
            &&& same_kinds(plain.toks, wrapped.toks.subrange(1, n + 1))
        }),
    ensures
        ({
            let plain = exp(lex_all(text, 0, Seq::empty()));
            let wrapped = exp(lex_all(seq!['('] + text + seq![')'], 0, Seq::empty()));
            &&& wrapped.res is Ok
            &&& wrapped.res->Ok_0.shape() == plain.res->Ok_0.shape()
            &&& wrapped.rest == TokStream::empty()
        }),
{
    let plain = lex_all(text, 0, Seq::empty());
    let wrapped = lex_all(seq!['('] + text + seq![')'], 0, Seq::empty());
    let n = plain.toks.len() as int;
    let moved = wrapped.toks.subrange(1, n + 1);
    let open = wrapped.toks[0].1;
    let close = wrapped.toks[n + 1].1;
    assert(wrapped.toks =~= seq![(Token::Marker(Misc::ParenOpen), open)] + moved + seq![
        (Token::Marker(Misc::ParenClose), close),
    ]);
    lemma_parenthesized_shape(plain.toks, moved, open, close);
}

// ---------------------------------------------------------------------------
// The location that a reader keeps
// ---------------------------------------------------------------------------

/// `loc` is the location of a reader of `src` that finished its last lexeme
/// at index `from` and has read on to index `pos`, on the same line.
pub open spec fn tracks(loc: Loc, src: Seq<char>, from: int, pos: int) -> bool {
    &&& 0 <= from <= pos
    &&& loc.line == line_of(src, from)
    &&& loc.col == col_of(src, from)
    &&& loc.len == pos - from
    &&& line_of(src, pos) == line_of(src, from)
}

/// A step over a character that does not end the line keeps the location in place.
pub proof fn lemma_step_tracks(loc: Loc, src: Seq<char>, from: int, pos: int)
    requires
        tracks(loc, src, from, pos),
        src[pos] != '\n',
        loc.len < u16::MAX,
    ensures
        tracks(loc.stepped(), src, from, pos + 1),
{
}

/// Advancing makes the place that was read up to the start of the next lexeme.
pub proof fn lemma_advance_tracks(loc: Loc, src: Seq<char>, from: int, pos: int)
    requires
        tracks(loc, src, from, pos),
        loc.fits(),
    ensures
        tracks(loc.advanced(), src, pos, pos),
{
    lemma_pos_order(src, from, pos);
}

/// Going to the next line at a line terminator keeps the location in place.
pub proof fn lemma_next_line_tracks(loc: Loc, src: Seq<char>, from: int, pos: int)
    requires
        tracks(loc, src, from, pos),
        src[pos] == '\n',
        loc.line < u32::MAX,
    ensures
        tracks(loc.on_next_line(), src, pos + 1, pos + 1),
{
}

/// The location kept this way over the characters of a token is the
/// location that the lexer gives to the token.
pub proof fn lemma_tracks_token(loc: Loc, src: Seq<char>, from: int, pos: int)
    requires
        tracks(loc, src, from, pos),
        loc.fits(),
    ensures
        loc_at(src, from, pos - from) == Some(loc),
{
}

} // verus!
