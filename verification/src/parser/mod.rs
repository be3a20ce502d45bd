//! The token cursor and the grammar rules built on it.

pub mod grammar;
pub mod laws;
pub mod lex;
pub mod shunting_yard;
pub mod tok;

use crate::ast::{
    all_ids_below, lemma_all_ids_below_grows, lemma_call_view, lemma_tuple_view, opthull_spec,
    trees, BareExp, BareId, Exp, Id, Selector, Span, Tree,
};
use grammar::{
    eof_error, lex_failure, peeked, unexpected_error, Expected, ParseError, ParseErrorKind,
    ParseResult, Parsed,
};
use lex::{
    lemma_follows_reflexive, lemma_follows_transitive, lex_all, Lex, LexError, LexItem, LexState,
};
use tok::{Loc, LocTok, Misc, TokPat, Token};
use vstd::prelude::*;

verus! {

/// The hull of two optional ranges: present only when both are.
pub fn opthull(lhs: Option<Span>, rhs: Option<Span>) -> (h: Option<Span>)
    ensures
        h == opthull_spec(lhs, rhs),
{
    match (lhs, rhs) {
        (Some(a), Some(b)) => Some(Span::hull(a, b)),
        _ => None,
    }
}

/// The smallest range that holds both `lhs` and `rhs`.
pub fn hull(lhs: Span, rhs: Span) -> (h: Span)
    ensures
        h == Span::hull_spec(lhs, rhs),
{
    Span::hull(lhs, rhs)
}

/// Fails because the input ended where `expected` was expected.
pub fn eof<T>(expected: Expected) -> (r: ParseResult<T>)
    ensures
        r == Err::<T, ParseError>(eof_error(expected)),
{
    Err(ParseError { kind: ParseErrorKind::Unexpected { found: None, expected }, loc: None })
}

/// Fails because the token `found` stands where `expected` was expected.
pub fn unexpected<T>(found: LocTok, expected: Expected) -> (r: ParseResult<T>)
    ensures
        r == Err::<T, ParseError>(unexpected_error(found, expected)),
{
    Err(
        ParseError {
            kind: ParseErrorKind::Unexpected { found: Some(found.0), expected },
            loc: Some(found.1),
        },
    )
}

/// Fails with the lexer's error.
pub fn lexfail<T>(err: LexError) -> (r: ParseResult<T>)
    ensures
        r == Err::<T, ParseError>(lex_failure(err)),
{
    Err(ParseError { kind: ParseErrorKind::Lex(err.kind), loc: Some(err.loc) })
}

/// The outcome of a rule that yields an expression, as a mathematical value.
pub open spec fn tree_of(r: ParseResult<Exp>) -> ParseResult<Tree> {
    match r {
        Ok(e) => Ok(e@),
        Err(e) => Err(e),
    }
}

/// The outcome of a rule that yields selectors, as a mathematical value.
pub open spec fn field_of(r: ParseResult<(Vec<Selector>, Option<Span>)>) -> ParseResult<
    (Seq<Selector>, Option<Span>),
> {
    match r {
        Ok((sels, span)) => Ok((sels@, span)),
        Err(e) => Err(e),
    }
}

/// The outcome of a rule that yields a parenthesized list, as a mathematical value.
pub open spec fn list_of(r: ParseResult<(Vec<Exp>, Loc, Loc)>) -> ParseResult<
    (Seq<Tree>, Loc, Loc),
> {
    match r {
        Ok((elems, open, close)) => Ok((trees(elems@), open, close)),
        Err(e) => Err(e),
    }
}

/// The outcome of a rule that yields a list and its range, as a mathematical value.
pub open spec fn tuplish_of(r: ParseResult<(Vec<Exp>, Span)>) -> ParseResult<(Seq<Tree>, Span)> {
    match r {
        Ok((elems, span)) => Ok((trees(elems@), span)),
        Err(e) => Err(e),
    }
}

/// A cursor over the tokens of a text, with one slot that serves lookahead
/// and pushback alike, and the grammar rules that read from it.
pub struct Parser {
    ts: Lex,
}

impl Parser {
    /// The state of the lexer beneath the cursor.
    pub closed spec fn view(&self) -> LexState {
        self.ts@
    }

    /// The cursor is in a state that it can reach.
    pub closed spec fn wf(&self) -> bool {
        self.ts.wf()
    }

    /// A well-formed cursor is in a state of which `inv` holds, and every
    /// token that is still to come ends within the range of columns.
    pub proof fn lemma_wf(&self)
        requires
            self.wf(),
        ensures
            self@.inv(),
            self@.stream().fits(),
    {
        self.ts.lemma_wf();
        lex::lemma_stream_fits(self@);
    }

    /// A cursor at the start of `source`.
    pub fn new(source: &str) -> (p: Parser)
        ensures
            p.wf(),
            p@ == LexState::initial(source@),
            p@.stream() == lex_all(source@, 0, Seq::empty()),
    {
        Parser { ts: Lex::lex(source) }
    }

    /// Takes the next item as the lexer hands it out.
    pub fn nexttok(&mut self) -> (item: Option<LexItem>)
        requires
            old(self).wf(),
        ensures
            final(self).wf(),
            item == old(self)@.stream().head(),
            final(self)@ == old(self)@.next().1,
            final(self)@.stream() == old(self)@.stream().tail(),
            final(self)@.follows(old(self)@),
            !final(self)@.pending(),
            item matches Some(Ok(t)) ==> final(self)@.knows(t),
    {
        self.ts.next()
    }

    /// Looks at the next token without taking it. A lexical error comes back
    /// as a parse error, and stays in the stream.
    pub fn peektok(&mut self) -> (r: ParseResult<Option<LocTok>>)
        requires
            old(self).wf(),
        ensures
            final(self).wf(),
            r == peeked(old(self)@.stream()),
            final(self)@ == old(self)@.peek().1,
            final(self)@.stream() == old(self)@.stream(),
            final(self)@.follows(old(self)@),
            final(self)@.pending(),
            r matches Ok(Some(t)) ==> final(self)@.knows(t),
    {
        match self.ts.peek() {
            None => Ok(None),
            Some(Err(e)) => lexfail(e),
            Some(Ok(loctok)) => Ok(Some(loctok)),
        }
    }

    /// Takes the next token. A lexical error comes back as a parse error, and
    /// the stream ends with it.
    pub fn trytok(&mut self) -> (r: ParseResult<Option<LocTok>>)
        requires
            old(self).wf(),
        ensures
            final(self).wf(),
            r == peeked(old(self)@.stream()),
            final(self)@ == old(self)@.next().1,
            final(self)@.stream() == old(self)@.stream().tail(),
            final(self)@.follows(old(self)@),
            !final(self)@.pending(),
            r matches Ok(Some(t)) ==> final(self)@.knows(t),
    {
        match self.ts.next() {
            None => Ok(None),
            Some(Err(e)) => lexfail(e),
            Some(Ok(loctok)) => Ok(Some(loctok)),
        }
    }

    /// Tells whether a token is held back, by a lookahead or a pushback.
    pub fn has_pending(&self) -> (b: bool)
        ensures
            b == self@.pending(),
    {
        self.ts.has_pending()
    }

    /// Puts the token `val` back, so that it is the next one again. Nothing
    /// may be held back already, and `val` is a token that this cursor may
    /// have handed out.
    pub fn unpeektok(&mut self, val: LocTok)
        requires
            old(self).wf(),
            !old(self)@.pending(),
            old(self)@.knows(val),
        ensures
            final(self).wf(),
            final(self)@ == old(self)@.unpeek(val),
            final(self)@.stream() == old(self)@.stream().cons(val),
            final(self)@.follows(old(self)@),
            final(self)@.pending(),
    {
        let _ = self.ts.unpeek(val);
    }

    /// Puts the token `found` back and fails because it stands where
    /// `expected` was expected.
    pub fn backtrack<T>(&mut self, found: LocTok, expected: Expected) -> (r: ParseResult<T>)
        requires
            old(self).wf(),
            !old(self)@.pending(),
            old(self)@.knows(found),
        ensures
            final(self).wf(),
            r == Err::<T, ParseError>(unexpected_error(found, expected)),
            final(self)@ == old(self)@.unpeek(found),
            final(self)@.stream() == old(self)@.stream().cons(found),
            final(self)@.follows(old(self)@),
    {
        self.unpeektok(found);
        unexpected(found, expected)
    }

    /// Takes the next token if it has the shape `pat`, and fails without
    /// taking anything if it has not.
    pub fn expect(&mut self, pat: TokPat) -> (r: ParseResult<LocTok>)
        requires
            old(self).wf(),
        ensures
            final(self).wf(),
            final(self)@.follows(old(self)@),
            match peeked(old(self)@.stream()) {
                Err(e) => r == Err::<LocTok, ParseError>(e) && final(self)@ == old(self)@.peek().1,
                Ok(None) => r == Err::<LocTok, ParseError>(eof_error(Expected::Shape(pat)))
                    && final(self)@ == old(self)@.peek().1,
                Ok(Some(t)) => if pat.matches_spec(t.0) {
                    r == Ok::<LocTok, ParseError>(t) && final(self)@ == old(self)@.next().1
                } else {
                    r == Err::<LocTok, ParseError>(unexpected_error(t, Expected::Shape(pat)))
                        && final(self)@ == old(self)@.peek().1
                },
            },
            r is Ok ==> final(self)@.stream() == old(self)@.stream().tail(),
            r is Err ==> final(self)@.stream() == old(self)@.stream(),
            r matches Ok(t) ==> final(self)@.knows(t),
    {
        match self.peektok() {
            Err(e) => Err(e),
            Ok(None) => eof(Expected::Shape(pat)),
            Ok(Some((found, loc))) => {
                if pat.matches(found) {
                    self.nexttok();
                    Ok((found, loc))
                } else {
                    unexpected((found, loc), Expected::Shape(pat))
                }
            },
        }
    }

    /// Takes one selector.
    pub fn selector(&mut self) -> (r: ParseResult<Selector>)
        requires
            old(self).wf(),
        ensures
            final(self).wf(),
            final(self)@.follows(old(self)@),
            match peeked(old(self)@.stream()) {
                Err(e) => r == Err::<Selector, ParseError>(e) && final(self)@ == old(
                    self,
                )@.peek().1,
                Ok(None) => r == Err::<Selector, ParseError>(
                    eof_error(Expected::Shape(TokPat::AnySelector)),
                ) && final(self)@ == old(self)@.peek().1,
                Ok(Some(t)) => match t.0 {
                    Token::Selector(sel) => r == Ok::<Selector, ParseError>(
                        Selector { sel, span: Some(Span::of_loc(t.1)) },
                    ) && final(self)@ == old(self)@.next().1,
                    _ => r == Err::<Selector, ParseError>(
                        unexpected_error(t, Expected::Shape(TokPat::AnySelector)),
                    ) && final(self)@ == old(self)@.peek().1,
                },
            },
            r is Ok ==> final(self)@.stream() == old(self)@.stream().tail(),
            r is Err ==> final(self)@.stream() == old(self)@.stream(),
    {
        match self.expect(TokPat::AnySelector) {
            Err(e) => Err(e),
            Ok((tok, loc)) => match tok {
                Token::Selector(sel) => Ok(Selector { sel, span: Some(Span::from_loc(loc)) }),
                _ => vstd::pervasive::unreached(),
            },
        }
    }

    /// Takes selectors as long as the next token is one. Yields them with the
    /// hull of their ranges, which is absent if there is none.
    pub fn field(&mut self) -> (r: ParseResult<(Vec<Selector>, Option<Span>)>)
        requires
            old(self).wf(),
        ensures
            final(self).wf(),
            final(self)@.follows(old(self)@),
            grammar::field(old(self)@.stream()) == (Parsed {
                res: field_of(r),
                rest: final(self)@.stream(),
            }),
    {
        let mut sels: Vec<Selector> = Vec::new();
        let mut span: Option<Span> = None;
        proof {
            lemma_follows_reflexive(self@);
        }
        loop
            invariant
                self.wf(),
                self@.follows(old(self)@),
                grammar::field_from(self@.stream(), sels@, span) == grammar::field(
                    old(self)@.stream(),
                ),
            decreases self@.stream().toks.len(),
        {
            let ghost before = self@;
            match self.peektok() {
                Err(e) => {
                    return Err(e);
                },
                Ok(Some((Token::Selector(_), loc))) => {
                    match self.selector() {
                        Ok(sel) => {
                            sels.push(sel);
                            span = match span {
                                None => sel.span,
                                Some(sp) => Some(Span::hull(sp, Span::from_loc(loc))),
                            };
                        },
                        Err(e) => {
                            return Err(e);
                        },
                    }
                },
                Ok(_) => {
                    proof {
                        lemma_follows_transitive(old(self)@, before, self@);
                    }
                    return Ok((sels, span));
                },
            }
        }
    }

    /// What follows the identifier `id`: an argument list, which makes a call,
    /// or selectors, which make a variable; nothing of either makes a variable too.
    pub fn field_or_call(&mut self, id: Id) -> (r: ParseResult<Exp>)
        requires
            old(self).wf(),
            id.name < old(self)@.names.len(),
        ensures
            final(self).wf(),
            final(self)@.follows(old(self)@),
            grammar::field_or_call(id, old(self)@.stream()) == (Parsed {
                res: tree_of(r),
                rest: final(self)@.stream(),
            }),
            r matches Ok(e) ==> e@.ids_below(final(self)@.names.len()),
        decreases old(self)@.stream().toks.len(), 2int,
    {
        let ghost start = self@;
        match self.peektok() {
            Err(e) => Err(e),
            Ok(None) => {
                let sels: Vec<Selector> = Vec::new();
                Ok(Exp { bare: BareExp::Var(id, sels), typ: None, span: id.span })
            },
            Ok(Some((tok, _))) => {
                let ghost mid = self@;
                match tok {
                    Token::Marker(Misc::ParenOpen) => match self.parens() {
                        Err(e) => {
                            Err(e)
                        },
                        Ok((args, _, close)) => {
                            proof {
                                lemma_call_view(id, args);
                            }
                            Ok(
                                Exp {
                                    bare: BareExp::Call(id, args),
                                    typ: None,
                                    span: opthull(id.span, Some(Span::from_loc(close))),
                                },
                            )
                        },
                    },
                    _ => match self.field() {
                        Err(e) => {
                            Err(e)
                        },
                        Ok((sels, span)) => {
                            proof {
                                lemma_follows_transitive(start, mid, self@);
                            }
                            Ok(
                                Exp {
                                    bare: BareExp::Var(id, sels),
                                    typ: None,
                                    span: match span {
                                        None => id.span,
                                        Some(sp) => opthull(id.span, Some(sp)),
                                    },
                                },
                            )
                        },
                    },
                }
            },
        }
    }

    /// An atom: an identifier with what follows it, a literal, or a
    /// parenthesized list. A list of one element is that element, with the
    /// range of the parentheses; any other list is a tuple.
    pub fn atom(&mut self) -> (r: ParseResult<Exp>)
        requires
            old(self).wf(),
        ensures
            final(self).wf(),
            final(self)@.follows(old(self)@),
            grammar::atom(old(self)@.stream()) == (Parsed {
                res: tree_of(r),
                rest: final(self)@.stream(),
            }),
            r matches Ok(e) ==> e@.ids_below(final(self)@.names.len()),
        decreases old(self)@.stream().toks.len(), 3int,
    {
        let ghost start = self@;
        match self.trytok() {
            Err(e) => Err(e),
            Ok(None) => eof(Expected::Atom),
            Ok(Some((tok, loc))) => {
                let ghost mid = self@;
                match tok {
                    Token::IdTok(name) => {
                        let r = self.field_or_call(Id { name, span: Some(Span::from_loc(loc)) });
                        proof {
                            lemma_follows_transitive(start, mid, self@);
                        }
                        r
                    },
                    Token::Lit(value) => Ok(
                        Exp { bare: BareExp::Lit(value), typ: None, span: Some(Span::from_loc(loc)) },
                    ),
                    Token::Marker(Misc::ParenOpen) => {
                        self.unpeektok((tok, loc));
                        match self.tuplish() {
                            Err(e) => {
                                Err(e)
                            },
                            Ok((mut coords, span)) => {
                                proof {
                                    lemma_tuple_view(coords);
                                }
                                if coords.len() == 1 {
                                    match coords.pop() {
                                        Some(only) => Ok(
                                            Exp { bare: only.bare, typ: only.typ, span: Some(span) },
                                        ),
                                        None => vstd::pervasive::unreached(),
                                    }
                                } else {
                                    Ok(Exp { bare: BareExp::Tuple(coords), typ: None, span: Some(span) })
                                }
                            },
                        }
                    },
                    _ => unexpected((tok, loc), Expected::Atom),
                }
            },
        }
    }

    /// A parenthesized list of expressions, separated by commas: its
    /// elements and the locations of its two parentheses. The next token is
    /// the opening parenthesis.
    pub fn parens(&mut self) -> (r: ParseResult<(Vec<Exp>, Loc, Loc)>)
        requires
            old(self).wf(),
            old(self)@.stream().toks.len() > 0,
            old(self)@.stream().toks[0].0 == Token::Marker(Misc::ParenOpen),
        ensures
            final(self).wf(),
            final(self)@.follows(old(self)@),
            grammar::parens(old(self)@.stream()) == (Parsed {
                res: list_of(r),
                rest: final(self)@.stream(),
            }),
            r matches Ok((elems, open, close)) ==> open.fits() && close.fits() && all_ids_below(
                trees(elems@),
                final(self)@.names.len(),
            ),
        decreases old(self)@.stream().toks.len(), 1int,
    {
        let ghost start = self@;
        let open = match self.nexttok() {
            Some(Ok((_, loc))) => loc,
            _ => vstd::pervasive::unreached(),
        };
        let mut vec: Vec<Exp> = Vec::new();
        assert(trees(vec@) =~= Seq::empty());
        match self.peektok() {
            Err(e) => {
                return Err(e);
            },
            Ok(Some((Token::Marker(Misc::ParenClose), close))) => {
                self.nexttok();
                return Ok((vec, open, close));
            },
            Ok(_) => {},
        }
        loop
            invariant
                self.wf(),
                self@.follows(start),
                start == old(self)@,
                open.fits(),
                all_ids_below(trees(vec@), self@.names.len()),
                self@.stream().toks.len() < start.stream().toks.len(),
                grammar::elements(self@.stream(), open, trees(vec@)) == grammar::parens(
                    start.stream(),
                ),
            decreases self@.stream().toks.len(),
        {
            let ghost before = self@;
            let ghost acc = trees(vec@);
            proof {
                grammar::lemma_progress(before.stream());
            }
            match self.exp() {
                Err(e) => {
                    proof {
                        lemma_follows_transitive(start, before, self@);
                    }
                    return Err(e);
                },
                Ok(e) => {
                    proof {
                        lemma_all_ids_below_grows(acc, before.names.len(), self@.names.len());
                    }
                    vec.push(e);
                    assert(trees(vec@) =~= acc.push(e@));
                },
            }
            let ghost after = self@;
            match self.nexttok() {
                None => {
                    proof {
                        lemma_follows_transitive(start, before, self@);
                    }
                    return eof(Expected::CommaOrClose);
                },
                Some(Err(e)) => {
                    proof {
                        lemma_follows_transitive(start, before, self@);
                    }
                    return lexfail(e);
                },
                Some(Ok((Token::Marker(Misc::ParenClose), close))) => {
                    proof {
                        lemma_follows_transitive(start, before, self@);
                    }
                    return Ok((vec, open, close));
                },
                Some(Ok((Token::Marker(Misc::Comma), _))) => {
                    proof {
                        lemma_follows_transitive(start, before, self@);
                    }
                },
                Some(Ok(loctok)) => {
                    let r = self.backtrack(loctok, Expected::CommaOrClose);
                    proof {
                        lemma_follows_transitive(before, after, self@);
                        lemma_follows_transitive(start, before, self@);
                    }
                    return r;
                },
            }
        }
    }

    /// A parenthesized list of expressions, separated by commas: its
    /// elements and the range from the opening to the closing parenthesis.
    /// The next token is the opening parenthesis.
    pub fn tuplish(&mut self) -> (r: ParseResult<(Vec<Exp>, Span)>)
        requires
            old(self).wf(),
            old(self)@.stream().toks.len() > 0,
            old(self)@.stream().toks[0].0 == Token::Marker(Misc::ParenOpen),
        ensures
            final(self).wf(),
            final(self)@.follows(old(self)@),
            grammar::tuplish(old(self)@.stream()) == (Parsed {
                res: tuplish_of(r),
                rest: final(self)@.stream(),
            }),
            r matches Ok((elems, _)) ==> all_ids_below(trees(elems@), final(self)@.names.len()),
        decreases old(self)@.stream().toks.len(), 2int,
    {
        match self.parens() {
            Err(e) => Err(e),
            Ok((elems, open, close)) => {
                Ok((elems, hull(Span::from_loc(open), Span::from_loc(close))))
            },
        }
    }

    /// A full expression: operands joined by binary operators, each operand
    /// an atom under any number of prefix operators. Takes no token beyond
    /// the expression.
    pub fn exp(&mut self) -> (r: ParseResult<Exp>)
        requires
            old(self).wf(),
        ensures
            final(self).wf(),
            final(self)@.follows(old(self)@),
            grammar::exp(old(self)@.stream()) == (Parsed {
                res: tree_of(r),
                rest: final(self)@.stream(),
            }),
            r matches Ok(e) ==> e@.ids_below(final(self)@.names.len()),
        decreases old(self)@.stream().toks.len(), 6int,
    {
        shunting_yard::parse_exp(self)
    }

    /// The index of the identifier spelled `name`, if it has been read.
    pub fn lookup(&self, name: &str) -> (r: Option<BareId>)
        requires
            self.wf(),
        ensures
            match r {
                Some(i) => i < self@.names.len() && self@.names[i as int] == name@,
                None => !self@.names.contains(name@),
            },
    {
        self.ts.lookup(name)
    }

    /// The spelling of the identifier with index `id`, if there is one.
    pub fn name(&self, id: BareId) -> (r: Option<Vec<char>>)
        requires
            self.wf(),
        ensures
            match r {
                Some(v) => id < self@.names.len() && v@ == self@.names[id as int],
                None => id >= self@.names.len(),
            },
    {
        self.ts.name(id)
    }
}

} // verus!
