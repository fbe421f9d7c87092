//! The ways in which the evaluation of a line can fail.
use vstd::prelude::*;

verus! {

/// Why a line has no result.
#[derive(Clone, Copy, PartialEq, Eq, Structural, Debug)]
pub enum FormulaError {
    /// The line holds a lexical error: a bracket literal that is not
    /// closed, a character or a run of operator characters that the
    /// language does not know, or a number of more than one digit.
    LexError,
    /// A parenthesis has no partner.
    StructuralError,
    /// The formula breaks the adjacency rules.
    SyntaxError,
    /// The formula names a variable that the binding does not bind.
    BindingError,
    /// The evaluation tree is malformed.
    EvaluationError,
    /// The command is known, and not available.
    UnsupportedCommand,
    /// The line starts with neither a formula nor a command.
    UnknownCommand,
    /// The line holds no token at all.
    EmptyLine,
    /// The token at `position` in the line is the last one, where a variable
    /// and its bit are expected.
    MissingBit { position: usize },
    /// The token at `position` in the line stands where a variable and its
    /// bit are expected, and is not the bit of a variable.
    UnexpectedToken { position: usize },
}

} // verus!
