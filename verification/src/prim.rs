use vstd::prelude::*;
use crate::ops::{NumBinop, NumUnop, StrBinop, StrUnop};

verus! {

/// The integer type of identifiers and graph indices.
pub type NumTy = u32;

/// An identifier after lowering: a variable number and a subscript.
pub type Ident = (NumTy, NumTy);

/// The bit pattern (IEEE-754 binary64) of the numeric literal `1.0`.
pub const NUM_ONE: u64 = 0x3FF0_0000_0000_0000u64;

/// A primitive value: a variable or a literal.
///
/// A numeric literal is carried as the bit pattern of its binary64 value.
#[derive(Debug, Copy, Clone, PartialEq)]
pub enum PrimVal<'a> {
    Var(Ident),
    NumLit(u64),
    StrLit(&'a str),
}

/// A primitive expression: one operation on primitive values.
#[derive(Debug, Clone, PartialEq)]
pub enum PrimExpr<'a> {
    Val(PrimVal<'a>),
    Phi(Vec<PrimVal<'a>>),
    StrUnop(StrUnop, PrimVal<'a>),
    StrBinop(StrBinop, PrimVal<'a>, PrimVal<'a>),
    NumUnop(NumUnop, PrimVal<'a>),
    NumBinop(NumBinop, PrimVal<'a>, PrimVal<'a>),
    Index(PrimVal<'a>, PrimVal<'a>),
    /// Start iterating over the keys of a map.
    IterBegin(PrimVal<'a>),
    /// Whether an iterator has more keys.
    HasNext(PrimVal<'a>),
    /// The next key of an iterator.
    Next(PrimVal<'a>),
}

/// A primitive statement, the content of a basic block.
#[derive(Debug, PartialEq)]
pub enum PrimStmt<'a> {
    Print(Vec<PrimVal<'a>>, Option<PrimVal<'a>>),
    /// `map[index] = value`
    AsgnIndex(Ident, PrimVal<'a>, PrimExpr<'a>),
    AsgnVar(Ident, PrimExpr<'a>),
}

} // verus!

verus! {

/// The mathematical form of a `PrimExpr`: a `Phi`'s operands as a sequence.
pub enum PrimExprModel<'a> {
    Val(PrimVal<'a>),
    Phi(Seq<PrimVal<'a>>),
    StrUnop(StrUnop, PrimVal<'a>),
    StrBinop(StrBinop, PrimVal<'a>, PrimVal<'a>),
    NumUnop(NumUnop, PrimVal<'a>),
    NumBinop(NumBinop, PrimVal<'a>, PrimVal<'a>),
    Index(PrimVal<'a>, PrimVal<'a>),
    IterBegin(PrimVal<'a>),
    HasNext(PrimVal<'a>),
    Next(PrimVal<'a>),
}

/// The mathematical form of a `PrimStmt`: vectors as sequences.
pub enum PrimStmtModel<'a> {
    Print(Seq<PrimVal<'a>>, Option<PrimVal<'a>>),
    AsgnIndex(Ident, PrimVal<'a>, PrimExprModel<'a>),
    AsgnVar(Ident, PrimExprModel<'a>),
}

impl<'a> View for PrimExpr<'a> {
    type V = PrimExprModel<'a>;

    open spec fn view(&self) -> PrimExprModel<'a> {
        match *self {
            PrimExpr::Val(v) => PrimExprModel::Val(v),
            PrimExpr::Phi(vs) => PrimExprModel::Phi(vs@),
            PrimExpr::StrUnop(o, v) => PrimExprModel::StrUnop(o, v),
            PrimExpr::StrBinop(o, a, b) => PrimExprModel::StrBinop(o, a, b),
            PrimExpr::NumUnop(o, v) => PrimExprModel::NumUnop(o, v),
            PrimExpr::NumBinop(o, a, b) => PrimExprModel::NumBinop(o, a, b),
            PrimExpr::Index(a, b) => PrimExprModel::Index(a, b),
            PrimExpr::IterBegin(v) => PrimExprModel::IterBegin(v),
            PrimExpr::HasNext(v) => PrimExprModel::HasNext(v),
            PrimExpr::Next(v) => PrimExprModel::Next(v),
        }
    }
}

impl<'a> View for PrimStmt<'a> {
    type V = PrimStmtModel<'a>;

    open spec fn view(&self) -> PrimStmtModel<'a> {
        match *self {
            PrimStmt::Print(vs, out) => PrimStmtModel::Print(vs@, out),
            PrimStmt::AsgnIndex(m, i, e) => PrimStmtModel::AsgnIndex(m, i, e@),
            PrimStmt::AsgnVar(x, e) => PrimStmtModel::AsgnVar(x, e@),
        }
    }
}

} // verus!
