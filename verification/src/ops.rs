use vstd::prelude::*;

verus! {

/// Unary operators on numbers.
#[derive(Debug, Copy, Clone, PartialEq, Eq)]
pub enum NumUnop {
    /// `$`: read a column
    Column,
    /// `!`
    Not,
    /// `-`
    Neg,
    /// `+`
    Pos,
}

/// Unary operators on strings. None exist yet: the type has no public
/// constructor, so no value of it can be built outside this crate.
#[derive(Debug, Copy, Clone, PartialEq, Eq)]
pub struct StrUnop {
    none: (),
}

/// Binary operators on numbers.
#[derive(Debug, Copy, Clone, PartialEq, Eq)]
pub enum NumBinop {
    Plus,
    Minus,
    Mult,
    Div,
    Mod,
}

/// Binary operators on strings.
#[derive(Debug, Copy, Clone, PartialEq, Eq)]
pub enum StrBinop {
    Concat,
    Match,
}

} // verus!
