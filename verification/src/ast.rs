//! Syntax-tree data: spans, identifiers, operators, literals and expression
//! nodes, together with the mathematical view of an expression tree.

use crate::parser::tok::Loc;
use vstd::prelude::*;

verus! {

/// Index of an identifier in the name table of one parse.
pub type BareId = u32;

/// A position in the source text: a line and a column, both counted from zero.
pub struct Pos {
    pub line: int,
    pub col: int,
}

impl Pos {
    /// `self` is at or before `other` in reading order.
    pub open spec fn le(self, other: Pos) -> bool {
        self.line < other.line || (self.line == other.line && self.col <= other.col)
    }

    /// The earlier of two positions.
    pub open spec fn min(self, other: Pos) -> Pos {
        if self.le(other) {
            self
        } else {
            other
        }
    }

    /// The later of two positions.
    pub open spec fn max(self, other: Pos) -> Pos {
        if self.le(other) {
            other
        } else {
            self
        }
    }
}

/// A source range: from the position (`startline`, `startcol`) up to, but not
/// including, the position (`endline`, `endcol`).
#[derive(Clone, Copy, Debug, PartialEq, Eq, Structural)]
pub struct Span {
    pub startline: u32,
    pub endline: u32,
    pub startcol: u16,
    pub endcol: u16,
}

impl Span {
    /// Where the range begins.
    pub open spec fn start(self) -> Pos {
        Pos { line: self.startline as int, col: self.startcol as int }
    }

    /// One past where the range ends.
    pub open spec fn end(self) -> Pos {
        Pos { line: self.endline as int, col: self.endcol as int }
    }

    /// The position `p` lies between the start and the end of `self`, both included.
    pub open spec fn contains(self, p: Pos) -> bool {
        self.start().le(p) && p.le(self.end())
    }

    /// Every position of `other` lies within `self`.
    pub open spec fn covers(self, other: Span) -> bool {
        self.start().le(other.start()) && other.end().le(self.end())
    }

    /// The range a token at `loc` occupies.
    pub open spec fn of_loc(loc: Loc) -> Span {
        Span {
            startline: loc.line,
            endline: loc.line,
            startcol: loc.col,
            endcol: (loc.col + loc.len) as u16,
        }
    }

    /// The smallest range that starts at the earlier start and ends at the later end.
    pub open spec fn hull_spec(a: Span, b: Span) -> Span {
        let s = a.start().min(b.start());
        let e = a.end().max(b.end());
        Span {
            startline: s.line as u32,
            endline: e.line as u32,
            startcol: s.col as u16,
            endcol: e.col as u16,
        }
    }

    /// The range from (`startline`, `startcol`) to (`endline`, `endcol`).
    pub fn new(startline: u32, endline: u32, startcol: u16, endcol: u16) -> (s: Span)
        ensures
            s == (Span { startline, endline, startcol, endcol }),
    {
        Span { startline, endline, startcol, endcol }
    }

    /// The range of the token at `loc`, which must end within the column range.
    pub fn from_loc(loc: Loc) -> (s: Span)
        requires
            loc.fits(),
        ensures
            s == Span::of_loc(loc),
            s.start() == (Pos { line: loc.line as int, col: loc.col as int }),
            s.end() == (Pos { line: loc.line as int, col: loc.col + loc.len }),
    {
        Span { startline: loc.line, endline: loc.line, startcol: loc.col, endcol: loc.col + loc.len }
    }

    /// Combines two ranges into the smallest one that holds both.
    pub fn hull(a: Span, b: Span) -> (h: Span)
        ensures
            h == Span::hull_spec(a, b),
            h.start() == a.start().min(b.start()),
            h.end() == a.end().max(b.end()),
            h.covers(a),
            h.covers(b),
    {
        let a_first = a.startline < b.startline || (a.startline == b.startline && a.startcol
            <= b.startcol);
        let a_last = a.endline < b.endline || (a.endline == b.endline && a.endcol <= b.endcol);
        Span {
            startline: if a_first { a.startline } else { b.startline },
            startcol: if a_first { a.startcol } else { b.startcol },
            endline: if a_last { b.endline } else { a.endline },
            endcol: if a_last { b.endcol } else { a.endcol },
        }
    }
}

/// A field accessor that may follow a variable.
#[derive(Clone, Copy, Debug, PartialEq, Eq, Structural)]
pub enum BareSelector {
    Hd,
    Tl,
    Fst,
    Snd,
}

/// The primitive types of the language.
#[derive(Clone, Copy, Debug, PartialEq, Eq, Structural)]
pub enum BType {
    IntT,
    BoolT,
    CharT,
    UnitT,
}

/// The value of a literal.
#[derive(Clone, Copy, Debug, PartialEq, Eq, Structural)]
pub enum LitVal {
    Int(u64),
    Char(char),
    Nil,
}

/// An operator symbol.
#[derive(Clone, Copy, Debug, PartialEq, Eq, Structural)]
pub enum BareOp {
    Plus,
    Minus,
    Mul,
    Div,
    Lt,
    Leq,
    Gt,
    Geq,
    Eq,
    Neq,
    And,
    Or,
    Not,
}

/// An identifier with the range it was written at, if it was written at all.
#[derive(Clone, Copy, Debug, PartialEq, Eq, Structural)]
pub struct Id {
    pub name: BareId,
    pub span: Option<Span>,
}

/// An operator with the range it was written at.
#[derive(Clone, Copy, Debug, PartialEq, Eq, Structural)]
pub struct Op {
    pub op: BareOp,
    pub span: Option<Span>,
}

/// A field accessor with the range it was written at.
#[derive(Clone, Copy, Debug, PartialEq, Eq, Structural)]
pub struct Selector {
    pub sel: BareSelector,
    pub span: Option<Span>,
}

/// A type of the language, as a later phase may attach it to an expression.
#[derive(Debug, PartialEq, Eq)]
pub enum Type {
    Base(BType),
    List(Box<Type>),
    Tuple(Vec<Type>),
}

/// The variants of an expression.
#[derive(Debug, PartialEq, Eq)]
pub enum BareExp {
    Lit(LitVal),
    Var(Id, Vec<Selector>),
    Call(Id, Vec<Exp>),
    Tuple(Vec<Exp>),
    BinOp(Op, Box<Exp>, Box<Exp>),
    UnOp(Op, Box<Exp>),
}

/// An expression node: its variant, a slot for its type, which parsing leaves
/// empty, and the source range it covers.
#[derive(Debug, PartialEq, Eq)]
pub struct Exp {
    pub bare: BareExp,
    pub typ: Option<Type>,
    pub span: Option<Span>,
}

/// An expression variant as a mathematical value.
pub enum BareTree {
    Lit(LitVal),
    Var(Id, Seq<Selector>),
    Call(Id, Seq<Tree>),
    Tuple(Seq<Tree>),
    BinOp(Op, Box<Tree>, Box<Tree>),
    UnOp(Op, Box<Tree>),
}

/// An expression node as a mathematical value. `typed` tells whether the
/// type slot is filled.
pub struct Tree {
    pub bare: BareTree,
    pub typed: bool,
    pub span: Option<Span>,
}

impl Tree {
    /// An untyped node.
    pub open spec fn node(bare: BareTree, span: Option<Span>) -> Tree {
        Tree { bare, typed: false, span }
    }
}

impl Id {
    /// The identifier without its range.
    pub open spec fn shape(self) -> Id {
        Id { name: self.name, span: None }
    }
}

impl Op {
    /// The operator without its range.
    pub open spec fn shape(self) -> Op {
        Op { op: self.op, span: None }
    }
}

impl Selector {
    /// The selector without its range.
    pub open spec fn shape(self) -> Selector {
        Selector { sel: self.sel, span: None }
    }
}

impl BareTree {
    /// The variant with every range in it taken out.
    pub open spec fn shape(self) -> BareTree
        decreases self,
    {
        match self {
            BareTree::Lit(v) => BareTree::Lit(v),
            BareTree::Var(id, sels) => BareTree::Var(
                id.shape(),
                Seq::new(sels.len(), |i: int| sels[i].shape()),
            ),
            BareTree::Call(id, args) => BareTree::Call(
                id.shape(),
                Seq::new(
                    args.len(),
                    |i: int|
                        if 0 <= i < args.len() {
                            args[i].shape()
                        } else {
                            arbitrary()
                        },
                ),
            ),
            BareTree::Tuple(elems) => BareTree::Tuple(
                Seq::new(
                    elems.len(),
                    |i: int|
                        if 0 <= i < elems.len() {
                            elems[i].shape()
                        } else {
                            arbitrary()
                        },
                ),
            ),
            BareTree::BinOp(op, lhs, rhs) => BareTree::BinOp(
                op.shape(),
                Box::new(lhs.shape()),
                Box::new(rhs.shape()),
            ),
            BareTree::UnOp(op, arg) => BareTree::UnOp(op.shape(), Box::new(arg.shape())),
        }
    }
}

impl Tree {
    /// The shape of the tree: the tree with every range in it taken out.
    pub open spec fn shape(self) -> Tree
        decreases self,
    {
        Tree { bare: self.bare.shape(), typed: self.typed, span: None }
    }
}

impl BareTree {
    /// Every identifier, operator, selector and node in the variant has a
    /// range, and no node has a type.
    pub open spec fn placed(self) -> bool
        decreases self,
    {
        match self {
            BareTree::Lit(_) => true,
            BareTree::Var(id, sels) => id.span is Some && forall|i: int|
                0 <= i < sels.len() ==> (#[trigger] sels[i]).span is Some,
            BareTree::Call(id, args) => id.span is Some && forall|i: int|
                0 <= i < args.len() ==> (#[trigger] args[i]).placed(),
            BareTree::Tuple(elems) => forall|i: int|
                0 <= i < elems.len() ==> (#[trigger] elems[i]).placed(),
            BareTree::BinOp(op, lhs, rhs) => op.span is Some && lhs.placed() && rhs.placed(),
            BareTree::UnOp(op, arg) => op.span is Some && arg.placed(),
        }
    }
}

impl Tree {
    /// The tree is as parsing leaves it: every node has a range and none has a type.
    pub open spec fn placed(self) -> bool
        decreases self,
    {
        self.span is Some && !self.typed && self.bare.placed()
    }
}

impl BareTree {
    /// Every identifier in the variant has an index below `n`.
    pub open spec fn ids_below(self, n: nat) -> bool
        decreases self,
    {
        match self {
            BareTree::Lit(_) => true,
            BareTree::Var(id, _) => id.name < n,
            BareTree::Call(id, args) => id.name < n && forall|i: int|
                0 <= i < args.len() ==> (#[trigger] args[i]).ids_below(n),
            BareTree::Tuple(elems) => forall|i: int|
                0 <= i < elems.len() ==> (#[trigger] elems[i]).ids_below(n),
            BareTree::BinOp(_, lhs, rhs) => lhs.ids_below(n) && rhs.ids_below(n),
            BareTree::UnOp(_, arg) => arg.ids_below(n),
        }
    }
}

impl Tree {
    /// Every identifier in the tree has an index below `n`: with `n` the
    /// length of a name table, every identifier of the tree is in the table.
    pub open spec fn ids_below(self, n: nat) -> bool
        decreases self,
    {
        self.bare.ids_below(n)
    }
}

/// Every identifier in every tree of the sequence has an index below `n`.
pub open spec fn all_ids_below(trees: Seq<Tree>, n: nat) -> bool {
    forall|i: int| 0 <= i < trees.len() ==> (#[trigger] trees[i]).ids_below(n)
}

/// Identifiers that are below a bound are below every larger bound.
pub proof fn lemma_ids_below_grows(t: Tree, n: nat, m: nat)
    requires
        t.ids_below(n),
        n <= m,
    ensures
        t.ids_below(m),
    decreases t,
{
    match t.bare {
        BareTree::Call(_, args) => {
            assert forall|i: int| 0 <= i < args.len() implies (#[trigger] args[i]).ids_below(
                m,
            ) by {
                lemma_ids_below_grows(args[i], n, m);
            }
        },
        BareTree::Tuple(elems) => {
            assert forall|i: int| 0 <= i < elems.len() implies (#[trigger] elems[i]).ids_below(
                m,
            ) by {
                lemma_ids_below_grows(elems[i], n, m);
            }
        },
        BareTree::BinOp(_, lhs, rhs) => {
            lemma_ids_below_grows(*lhs, n, m);
            lemma_ids_below_grows(*rhs, n, m);
        },
        BareTree::UnOp(_, arg) => {
            lemma_ids_below_grows(*arg, n, m);
        },
        _ => {},
    }
}

/// Identifiers that are all below a bound are all below every larger bound.
pub proof fn lemma_all_ids_below_grows(trees: Seq<Tree>, n: nat, m: nat)
    requires
        all_ids_below(trees, n),
        n <= m,
    ensures
        all_ids_below(trees, m),
{
    assert forall|i: int| 0 <= i < trees.len() implies (#[trigger] trees[i]).ids_below(m) by {
        lemma_ids_below_grows(trees[i], n, m);
    }
}

/// Two sequences of trees have the same shapes, one by one.
pub open spec fn same_shapes(a: Seq<Tree>, b: Seq<Tree>) -> bool {
    a.len() == b.len() && forall|i: int| 0 <= i < a.len() ==> a[i].shape() == b[i].shape()
}

/// Two sequences of selectors hold the same selectors, whatever their ranges.
pub open spec fn same_selectors(a: Seq<Selector>, b: Seq<Selector>) -> bool {
    a.len() == b.len() && forall|i: int| 0 <= i < a.len() ==> a[i].sel == b[i].sel
}

/// Tuples of trees with the same shapes have the same shape.
pub proof fn lemma_tuple_shape(a: Seq<Tree>, b: Seq<Tree>)
    requires
        same_shapes(a, b),
    ensures
        BareTree::Tuple(a).shape() == BareTree::Tuple(b).shape(),
{
    assert(BareTree::Tuple(a).shape()->Tuple_0 =~= BareTree::Tuple(b).shape()->Tuple_0);
}

/// Calls of one function on trees with the same shapes have the same shape.
pub proof fn lemma_call_shape(ida: Id, idb: Id, a: Seq<Tree>, b: Seq<Tree>)
    requires
        ida.name == idb.name,
        same_shapes(a, b),
    ensures
        BareTree::Call(ida, a).shape() == BareTree::Call(idb, b).shape(),
{
    assert(BareTree::Call(ida, a).shape()->Call_1 =~= BareTree::Call(idb, b).shape()->Call_1);
}

/// Variables of one name with the same selectors have the same shape.
pub proof fn lemma_var_shape(ida: Id, idb: Id, a: Seq<Selector>, b: Seq<Selector>)
    requires
        ida.name == idb.name,
        same_selectors(a, b),
    ensures
        BareTree::Var(ida, a).shape() == BareTree::Var(idb, b).shape(),
{
    assert(BareTree::Var(ida, a).shape()->Var_1 =~= BareTree::Var(idb, b).shape()->Var_1);
}

impl BareExp {
    /// The variant as a mathematical value.
    pub open spec fn view(&self) -> BareTree
        decreases self,
    {
        match self {
            BareExp::Lit(v) => BareTree::Lit(*v),
            BareExp::Var(id, sels) => BareTree::Var(*id, sels@),
            BareExp::Call(id, args) => BareTree::Call(
                *id,
                Seq::new(
                    args@.len(),
                    |i: int|
                        if 0 <= i < args@.len() {
                            args@[i].view()
                        } else {
                            arbitrary()
                        },
                ),
            ),
            BareExp::Tuple(elems) => BareTree::Tuple(
                Seq::new(
                    elems@.len(),
                    |i: int|
                        if 0 <= i < elems@.len() {
                            elems@[i].view()
                        } else {
                            arbitrary()
                        },
                ),
            ),
            BareExp::BinOp(op, lhs, rhs) => BareTree::BinOp(
                *op,
                Box::new(lhs.view()),
                Box::new(rhs.view()),
            ),
            BareExp::UnOp(op, arg) => BareTree::UnOp(*op, Box::new(arg.view())),
        }
    }
}

impl Exp {
    /// The node as a mathematical value.
    pub open spec fn view(&self) -> Tree
        decreases self,
    {
        Tree { bare: self.bare.view(), typed: self.typ is Some, span: self.span }
    }
}

/// The views of a sequence of expressions, in order.
pub open spec fn trees(exps: Seq<Exp>) -> Seq<Tree> {
    Seq::new(exps.len(), |i: int| exps[i].view())
}

/// The view of a tuple node holds the views of its elements.
pub proof fn lemma_tuple_view(elems: Vec<Exp>)
    ensures
        BareExp::Tuple(elems)@ == BareTree::Tuple(trees(elems@)),
{
    assert(BareExp::Tuple(elems)@->Tuple_0 =~= trees(elems@));
}

/// The view of a call node holds the views of its arguments.
pub proof fn lemma_call_view(id: Id, args: Vec<Exp>)
    ensures
        BareExp::Call(id, args)@ == BareTree::Call(id, trees(args@)),
{
    assert(BareExp::Call(id, args)@->Call_1 =~= trees(args@));
}

/// Hull of two optional ranges: present only when both are.
pub open spec fn opthull_spec(lhs: Option<Span>, rhs: Option<Span>) -> Option<Span> {
    match (lhs, rhs) {
        (Some(a), Some(b)) => Some(Span::hull_spec(a, b)),
        _ => None,
    }
}

/// Merging a range with itself changes nothing.
pub proof fn lemma_hull_idempotent(a: Span)
    ensures
        Span::hull_spec(a, a) == a,
{
}

/// The hull of two ranges contains every position of either.
pub proof fn lemma_hull_covers(a: Span, b: Span, p: Pos)
    requires
        a.contains(p) || b.contains(p),
    ensures
        Span::hull_spec(a, b).contains(p),
        Span::hull_spec(a, b).covers(a),
        Span::hull_spec(a, b).covers(b),
{
}

/// The hull is the least range that covers both operands.
pub proof fn lemma_hull_least(a: Span, b: Span, c: Span)
    requires
        c.covers(a),
        c.covers(b),
    ensures
        c.covers(Span::hull_spec(a, b)),
{
}

/// The order of the operands does not matter.
pub proof fn lemma_hull_commutative(a: Span, b: Span)
    ensures
        Span::hull_spec(a, b) == Span::hull_spec(b, a),
{
}

/// Sibling ranges may be merged in any grouping.
pub proof fn lemma_hull_associative(a: Span, b: Span, c: Span)
    ensures
        Span::hull_spec(Span::hull_spec(a, b), c) == Span::hull_spec(a, Span::hull_spec(b, c)),
{
}

} // verus!
