//! Binary and prefix operators, by precedence climbing.

use super::grammar::{self, ParseResult, Parsed};
use super::lex::lemma_follows_transitive;
use super::tok::Token;
use super::{opthull, tree_of, Parser};
use crate::ast::{lemma_ids_below_grows, BareExp, BareOp, Exp, Op, Span};
use vstd::prelude::*;

verus! {

/// How tightly a binary operator binds: a higher level binds tighter. The
/// prefix operator has no level.
pub fn binary_prec(op: BareOp) -> (level: Option<u8>)
    ensures
        match level {
            Some(l) => grammar::binary_level(op) == Some(l as nat) && 1 <= l <= 6,
            None => grammar::binary_level(op) is None,
        },
{
    match op {
        BareOp::Mul | BareOp::Div => Some(6),
        BareOp::Plus | BareOp::Minus => Some(5),
        BareOp::Lt | BareOp::Leq | BareOp::Gt | BareOp::Geq => Some(4),
        BareOp::Eq | BareOp::Neq => Some(3),
        BareOp::And => Some(2),
        BareOp::Or => Some(1),
        BareOp::Not => None,
    }
}

/// Parses a full expression.
pub fn parse_exp(p: &mut Parser) -> (r: ParseResult<Exp>)
    requires
        old(p).wf(),
    ensures
        final(p).wf(),
        final(p)@.follows(old(p)@),
        grammar::exp(old(p)@.stream()) == (Parsed { res: tree_of(r), rest: final(p)@.stream() }),
        r matches Ok(e) ==> e@.ids_below(final(p)@.names.len()),
    decreases old(p)@.stream().toks.len(), 5int, 1int,
{
    parse_binary(p, 1)
}

/// Parses an operand and the binary operators of level `min` and above that
/// follow it. Operators of one level group to the left.
pub fn parse_binary(p: &mut Parser, min: u8) -> (r: ParseResult<Exp>)
    requires
        old(p).wf(),
    ensures
        final(p).wf(),
        final(p)@.follows(old(p)@),
        grammar::binary(old(p)@.stream(), min as nat) == (Parsed {
            res: tree_of(r),
            rest: final(p)@.stream(),
        }),
        r matches Ok(e) ==> e@.ids_below(final(p)@.names.len()),
    decreases old(p)@.stream().toks.len(), 5int, 0int,
{
    let ghost start = p@;
    proof {
        grammar::lemma_unary_progress(start.stream());
    }
    let mut lhs = match parse_unary(p) {
        Err(e) => {
            return Err(e);
        },
        Ok(e) => e,
    };
    loop
        invariant
            p.wf(),
            p@.follows(start),
            start == old(p)@,
            lhs@.ids_below(p@.names.len()),
            p@.stream().toks.len() < start.stream().toks.len(),
            grammar::climb(lhs@, p@.stream(), min as nat) == grammar::binary(
                start.stream(),
                min as nat,
            ),
        decreases p@.stream().toks.len(),
    {
        let ghost before = p@;
        match p.peektok() {
            Err(e) => {
                return Err(e);
            },
            Ok(Some((Token::Op(op), loc))) => {
                let ghost mid = p@;
                match binary_prec(op) {
                    None => {
                        return Ok(lhs);
                    },
                    Some(level) => {
                        if level < min {
                            return Ok(lhs);
                        }
                        p.nexttok();
                        let ghost taken = p@;
                        proof {
                            grammar::lemma_binary_progress(taken.stream(), (level + 1) as nat);
                        }
                        let rhs = match parse_binary(p, level + 1) {
                            Err(e) => {
                                proof {
                                    lemma_follows_transitive(start, mid, p@);
                                }
                                return Err(e);
                            },
                            Ok(e) => e,
                        };
                        proof {
                            lemma_follows_transitive(start, mid, p@);
                            lemma_ids_below_grows(lhs@, mid.names.len(), p@.names.len());
                        }
                        let span = opthull(lhs.span, rhs.span);
                        lhs =
                        Exp {
                            bare: BareExp::BinOp(
                                Op { op, span: Some(Span::from_loc(loc)) },
                                Box::new(lhs),
                                Box::new(rhs),
                            ),
                            typ: None,
                            span,
                        };
                    },
                }
            },
            Ok(_) => {
                proof {
                    lemma_follows_transitive(start, before, p@);
                    lemma_ids_below_grows(lhs@, before.names.len(), p@.names.len());
                }
                return Ok(lhs);
            },
        }
    }
}

/// Parses an atom under any number of prefix operators.
pub fn parse_unary(p: &mut Parser) -> (r: ParseResult<Exp>)
    requires
        old(p).wf(),
    ensures
        final(p).wf(),
        final(p)@.follows(old(p)@),
        grammar::unary(old(p)@.stream()) == (Parsed { res: tree_of(r), rest: final(p)@.stream() }),
        r matches Ok(e) ==> e@.ids_below(final(p)@.names.len()),
    decreases old(p)@.stream().toks.len(), 4int, 0int,
{
    let ghost start = p@;
    match p.peektok() {
        Ok(Some((Token::Op(BareOp::Not), loc))) => {
            p.nexttok();
            let r = parse_unary(p);
            match r {
                Err(e) => Err(e),
                Ok(arg) => {
                    let span = opthull(Some(Span::from_loc(loc)), arg.span);
                    Ok(
                        Exp {
                            bare: BareExp::UnOp(
                                Op { op: BareOp::Not, span: Some(Span::from_loc(loc)) },
                                Box::new(arg),
                            ),
                            typ: None,
                            span,
                        },
                    )
                },
            }
        },
        _ => {
            let ghost mid = p@;
            let r = p.atom();
            proof {
                lemma_follows_transitive(start, mid, p@);
            }
            r
        },
    }
}

} // verus!
