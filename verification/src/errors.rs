use vstd::prelude::*;

verus! {

/// The failures the codec reports.  Parsing raises the first two, the
/// reader raises the field-count mismatch, and the quoter raises the last.
#[derive(Debug, Clone, Copy, PartialEq, Eq, Structural)]
pub enum CsvError {
    /// Strict mode only: the line ended while still inside a quoted field.
    UnclosedQuote,
    /// An escape character stood last on the line inside a quoted field,
    /// with no character left for it to escape.
    DanglingEscape,
    /// A parsed data row's field count differs from the header length.
    FieldCountMismatch { expected: usize, got: usize },
    /// A value needs a quote character embedded, but neither doubling nor
    /// an escape character is enabled.
    UnescapableQuoteChar,
}

} // verus!
