use vstd::prelude::*;

verus! {

/// A value that could not be read as a number after its unit was stripped.
#[derive(Debug, Clone, PartialEq, Eq)]
pub struct NumberFormatError {
    /// The offending text.
    pub token: String,
}

/// Why a report could not be converted. Every failure ends the whole parse.
#[derive(Debug, Clone, PartialEq, Eq)]
pub enum ParseError {
    /// The input holds no line to use as a header.
    EmptyInput,
    /// A data row (counted from 0 after the header) has no `:` after its label.
    MissingDelimiter { row: usize },
    /// The value `token` of the field `field` in data row `row` is no number.
    NumberFormat { field: String, row: usize, token: String },
}

/// What a `ParseError` says, over plain values.
pub ghost enum Failure {
    EmptyInput,
    MissingDelimiter(nat),
    NumberFormat(Seq<char>, nat, Seq<char>),
}

impl View for ParseError {
    type V = Failure;

    open spec fn view(&self) -> Failure {
        match self {
            ParseError::EmptyInput => Failure::EmptyInput,
            ParseError::MissingDelimiter { row } => Failure::MissingDelimiter(*row as nat),
            ParseError::NumberFormat { field, row, token } => Failure::NumberFormat(
                field@,
                *row as nat,
                token@,
            ),
        }
    }
}

} // verus!
