use vstd::prelude::*;

use crate::lexer::Location;

verus! {

/// What went wrong while scanning or parsing a source.
#[derive(Debug, Clone, Copy, PartialEq, Eq, Structural)]
pub enum ErrorKind {
    /// A byte that starts no token.
    UnexpectedChar,
    /// A `$` followed by a byte that is no escape.
    BadEscape,
    /// The end of the text inside a value or a path.
    UnexpectedEof,
    /// A token other than the one the grammar requires here.
    UnexpectedToken,
    /// A `rule` block without a `command` binding.
    MissingCommand,
    /// A second rule with a name already taken.
    DuplicateRule,
    /// A `build` statement naming a rule that was never defined.
    UnknownRule,
    /// A second top-level variable of the same name.
    DuplicateVariable,
    /// A second `default` statement.
    DuplicateDefault,
    /// A loaded file holds a NUL byte.
    NulInSource,
    /// More sources, rules or edges than handles can count.
    TooManyItems,
}

/// An error of the text's form rather than of its meaning.
pub open spec fn is_syntax_error(k: ErrorKind) -> bool {
    k == ErrorKind::UnexpectedChar || k == ErrorKind::BadEscape || k == ErrorKind::UnexpectedEof
        || k == ErrorKind::UnexpectedToken
}

/// A fatal error, with the place in the source where it was found.
#[derive(Debug, Clone, Copy, PartialEq, Eq, Structural)]
pub struct ParseError {
    pub kind: ErrorKind,
    pub loc: Location,
}

} // verus!
