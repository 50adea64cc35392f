use vstd::prelude::*;

verus! {

/// The grammar symbols that the parser names when it reports what it expected.
#[derive(Debug, Clone, Copy, PartialEq, Eq, Structural)]
pub enum Terminal {
    Number,
    Identifier,
    Expression,
    BooleanExpression,
    Equal,
}

} // verus!
