//! A row-oriented delimited-text (CSV-style) codec.
//!
//! The crate converts between key-value records and a configurable line
//! format.  Its two engines are the line parser in [`reader`], a two-state
//! machine that splits one line of text into field values while honouring
//! quoting and escaping rules, and the field quoter in [`writer`], which
//! decides whether a value needs quoting and produces its textual form.
//! Around them stand a `DictReader`, which zips parsed lines against a
//! header, and a `DictWriter`, which resolves records against a header and
//! joins the quoted fields into lines.  The round-trip guarantees between
//! the two engines are stated and proved in [`laws`].

pub mod errors;
pub mod laws;
pub mod reader;
pub mod record;
pub mod text;
pub mod writer;
