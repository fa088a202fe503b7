use vstd::prelude::*;

use crate::errors::CsvError;
use crate::record::{spec_insert, Record};
use crate::text::{char_is_space, is_space};

verus! {

/// The policy deciding which fields get wrapped in quote characters on
/// write.
#[derive(Debug, Clone, Copy, PartialEq, Eq, Structural)]
pub enum QuoteStyle {
    /// Always quote every field.
    All,
    /// Quote only when the field holds the delimiter, the quote character
    /// or a line break.
    Minimal,
    /// Quote unless every character of the field is numeric.  An empty
    /// field counts as all-numeric and is left unquoted.
    NonNumeric,
    /// Never quote; every value is emitted verbatim, without inspection.
    Never,
}

impl Default for QuoteStyle {
    /// Minimal quoting is the conventional policy.
    fn default() -> (r: Self)
        ensures
            r == QuoteStyle::Minimal,
    {
        QuoteStyle::Minimal
    }
}

/// The configuration a reader parses under.  The delimiter, quote and
/// escape characters are single bytes, compared against the line's
/// characters by code point.
#[derive(Debug, Clone, Copy)]
pub struct ReaderOptions {
    /// The byte separating fields.
    pub delimiter: u8,
    /// When true, a doubled quote character inside a quoted field stands
    /// for one literal quote character.
    pub doublequote: bool,
    /// When set, this byte (inside a quoted field) escapes the following
    /// character verbatim.
    pub escapechar: Option<u8>,
    /// The byte that opens and closes a quoted field.
    pub quotechar: u8,
    /// The quoting policy; parsing does not consult it.
    pub quoting: QuoteStyle,
    /// When true, whitespace standing right after a delimiter (outside
    /// quotes) is discarded.
    pub skipinitialspace: bool,
    /// When true, a line that ends inside a quoted field is an error
    /// instead of being tolerated.
    pub strict: bool,
}

impl ReaderOptions {
    /// The conventional configuration: comma-delimited, double-quoted,
    /// tolerant.
    pub open spec fn spec_default() -> ReaderOptions {
        ReaderOptions {
            delimiter: ',' as u8,
            doublequote: true,
            escapechar: None,
            quotechar: '"' as u8,
            quoting: QuoteStyle::Minimal,
            skipinitialspace: false,
            strict: false,
        }
    }
}

impl Default for ReaderOptions {
    fn default() -> (r: Self)
        ensures
            r == ReaderOptions::spec_default(),
    {
        ReaderOptions {
            delimiter: ',' as u8,
            doublequote: true,
            escapechar: None,
            quotechar: '"' as u8,
            quoting: QuoteStyle::Minimal,
            skipinitialspace: false,
            strict: false,
        }
    }
}

/// Does the character stand for this configuration byte?
pub open spec fn is_byte_char(c: char, b: u8) -> bool {
    c as u32 == b as u32
}

/// Strip leading buffer entries that are unprotected whitespace: characters
/// that stood outside every quoted segment.
pub open spec fn trim_front(buf: Seq<(char, bool)>) -> Seq<(char, bool)>
    decreases buf.len(),
{
    if buf.len() > 0 && !buf[0].1 && is_space(buf[0].0) {
        trim_front(buf.drop_first())
    } else {
        buf
    }
}

/// Strip trailing buffer entries that are unprotected whitespace.
pub open spec fn trim_back(buf: Seq<(char, bool)>) -> Seq<(char, bool)>
    decreases buf.len(),
{
    if buf.len() > 0 && !buf.last().1 && is_space(buf.last().0) {
        trim_back(buf.drop_last())
    } else {
        buf
    }
}

/// The value of a closed field.  Whitespace that stood outside quotes is
/// stripped from both ends; characters captured inside quotes are kept,
/// so whitespace deliberately placed in a quoted segment survives.
pub open spec fn close_field(buf: Seq<(char, bool)>) -> Seq<char> {
    trim_back(trim_front(buf)).map_values(|p: (char, bool)| p.0)
}

/// One step of the line parser, written over the whole remaining input.
/// The state is the position `i`, whether the parser stands inside a
/// quoted segment, the buffer of the current field (each character marked
/// with whether it came from inside quotes), and the fields already
/// closed.
pub open spec fn parse_from(
    s: Seq<char>,
    i: int,
    in_quote: bool,
    buf: Seq<(char, bool)>,
    fields: Seq<Seq<char>>,
    o: ReaderOptions,
) -> Result<Seq<Seq<char>>, CsvError>
    decreases s.len() - i,
{
    if i < 0 || i >= s.len() {
        if o.strict && in_quote {
            Err(CsvError::UnclosedQuote)
        } else {
            Ok(fields.push(close_field(buf)))
        }
    } else {
        let c = s[i];
        if in_quote {
            if is_byte_char(c, o.quotechar) {
                if o.doublequote && i + 1 < s.len() && is_byte_char(s[i + 1], o.quotechar) {
                    parse_from(s, i + 2, true, buf.push((c, true)), fields, o)
                } else {
                    parse_from(s, i + 1, false, buf, fields, o)
                }
            } else if (match o.escapechar {
                Some(e) => is_byte_char(c, e),
                None => false,
            }) {
                if i + 1 < s.len() {
                    parse_from(s, i + 2, true, buf.push((s[i + 1], true)), fields, o)
                } else {
                    Err(CsvError::DanglingEscape)
                }
            } else {
                parse_from(s, i + 1, true, buf.push((c, true)), fields, o)
            }
        } else {
            if is_byte_char(c, o.delimiter) {
                parse_from(
                    s,
                    i + 1,
                    false,
                    Seq::empty(),
                    fields.push(close_field(buf)),
                    o,
                )
            } else if is_byte_char(c, o.quotechar) {
                parse_from(s, i + 1, true, buf, fields, o)
            } else if o.skipinitialspace && buf.len() == 0 && is_space(c) {
                parse_from(s, i + 1, false, buf, fields, o)
            } else {
                parse_from(s, i + 1, false, buf.push((c, false)), fields, o)
            }
        }
    }
}

/// What parsing one line (given without its trailing terminator) yields:
/// its ordered field values, or the first error the machine meets.
pub open spec fn spec_parse_line(s: Seq<char>, o: ReaderOptions) -> Result<
    Seq<Seq<char>>,
    CsvError,
> {
    parse_from(s, 0, false, Seq::empty(), Seq::empty(), o)
}

/// Close the buffered field: trim unprotected whitespace from both ends
/// and return the remaining characters.
fn field_string(buf: &Vec<(char, bool)>) -> (r: String)
    ensures
        r@ == close_field(buf@),
{
    let mut lo: usize = 0;
    let mut hi: usize = buf.len();
    proof {
        assert(buf@.skip(0) =~= buf@);
    }
    while lo < hi && !buf[lo].1 && char_is_space(buf[lo].0)
        invariant
            0 <= lo <= hi <= buf.len(),
            hi == buf.len(),
            trim_front(buf@) == trim_front(buf@.skip(lo as int)),
        decreases hi - lo,
    {
        proof {
            assert(buf@.skip(lo as int)[0] == buf@[lo as int]);
            assert(buf@.skip(lo as int).drop_first() =~= buf@.skip(lo as int + 1));
        }
        lo = lo + 1;
    }
    proof {
        assert(buf@.skip(lo as int) =~= buf@.subrange(lo as int, hi as int));
        if lo < hi {
            assert(trim_front(buf@.skip(lo as int)) == buf@.skip(lo as int));
        } else {
            assert(buf@.skip(lo as int) =~= Seq::<(char, bool)>::empty());
        }
        assert(trim_front(buf@) == buf@.subrange(lo as int, hi as int));
    }
    while lo < hi && !buf[hi - 1].1 && char_is_space(buf[hi - 1].0)
        invariant
            0 <= lo <= hi <= buf.len(),
            trim_back(trim_front(buf@)) == trim_back(buf@.subrange(lo as int, hi as int)),
        decreases hi - lo,
    {
        proof {
            assert(buf@.subrange(lo as int, hi as int).last() == buf@[hi - 1]);
            assert(buf@.subrange(lo as int, hi as int).drop_last() =~= buf@.subrange(
                lo as int,
                hi as int - 1,
            ));
        }
        hi = hi - 1;
    }
    proof {
        if lo < hi {
            assert(trim_back(buf@.subrange(lo as int, hi as int)) == buf@.subrange(
                lo as int,
                hi as int,
            ));
        } else {
            assert(buf@.subrange(lo as int, hi as int) =~= Seq::<(char, bool)>::empty());
        }
        assert(trim_back(trim_front(buf@)) == buf@.subrange(lo as int, hi as int));
    }
    let mut out = String::new();
    let mut k: usize = lo;
    while k < hi
        invariant
            lo <= k <= hi <= buf.len(),
            out@ == buf@.subrange(lo as int, k as int).map_values(|p: (char, bool)| p.0),
        decreases hi - k,
    {
        out.push(buf[k].0);
        proof {
            assert(buf@.subrange(lo as int, k as int + 1) =~= buf@.subrange(
                lo as int,
                k as int,
            ).push(buf@[k as int]));
            assert(buf@.subrange(lo as int, k as int + 1).map_values(|p: (char, bool)| p.0)
                =~= buf@.subrange(lo as int, k as int).map_values(|p: (char, bool)| p.0).push(
                buf@[k as int].0,
            ));
        }
        k = k + 1;
    }
    proof {
        assert(out@ == close_field(buf@));
    }
    out
}

/// Parse one line of text (given without its trailing terminator) into its
/// ordered field values, under the two-state machine of [`parse_from`].
pub fn parse_line(line: &str, o: &ReaderOptions) -> (r: Result<Vec<String>, CsvError>)
    ensures
        match r {
            Ok(fields) => spec_parse_line(line@, *o) == Ok::<Seq<Seq<char>>, CsvError>(
                fields.deep_view(),
            ),
            Err(e) => spec_parse_line(line@, *o) == Err::<Seq<Seq<char>>, CsvError>(e),
        },
{
    let n: usize = line.unicode_len();
    let mut i: usize = 0;
    let mut in_quote: bool = false;
    let mut buf: Vec<(char, bool)> = Vec::new();
    let mut fields: Vec<String> = Vec::new();
    proof {
        assert(buf@ =~= Seq::<(char, bool)>::empty());
        assert(fields.deep_view() =~= Seq::<Seq<char>>::empty());
    }
    while i < n
        invariant
            i <= n,
            n == line@.len(),
            spec_parse_line(line@, *o) == parse_from(
                line@,
                i as int,
                in_quote,
                buf@,
                fields.deep_view(),
                *o,
            ),
        decreases n - i,
    {
        let ghost pre_fields: Seq<Seq<char>> = fields.deep_view();
        let c = line.get_char(i);
        if in_quote {
            if c as u32 == o.quotechar as u32 {
                if o.doublequote && i + 1 < n && line.get_char(i + 1) as u32
                    == o.quotechar as u32 {
                    buf.push((c, true));
                    i = i + 2;
                } else {
                    in_quote = false;
                    i = i + 1;
                }
            } else {
                let mut is_escape = false;
                if let Some(e) = o.escapechar {
                    if c as u32 == e as u32 {
                        is_escape = true;
                    }
                }
                if is_escape {
                    if i + 1 < n {
                        let c2 = line.get_char(i + 1);
                        buf.push((c2, true));
                        i = i + 2;
                    } else {
                        return Err(CsvError::DanglingEscape);
                    }
                } else {
                    buf.push((c, true));
                    i = i + 1;
                }
            }
        } else {
            if c as u32 == o.delimiter as u32 {
                let ghost pre_buf: Seq<(char, bool)> = buf@;
                let fld = field_string(&buf);
                fields.push(fld);
                buf.clear();
                proof {
                    assert(fields.deep_view() =~= pre_fields.push(close_field(pre_buf)));
                    assert(buf@ =~= Seq::<(char, bool)>::empty());
                }
                i = i + 1;
            } else if c as u32 == o.quotechar as u32 {
                in_quote = true;
                i = i + 1;
            } else if o.skipinitialspace && buf.len() == 0 && char_is_space(c) {
                i = i + 1;
            } else {
                buf.push((c, false));
                i = i + 1;
            }
        }
    }
    if o.strict && in_quote {
        return Err(CsvError::UnclosedQuote);
    }
    let ghost pre_fields: Seq<Seq<char>> = fields.deep_view();
    let last = field_string(&buf);
    fields.push(last);
    proof {
        assert(fields.deep_view() =~= pre_fields.push(close_field(buf@)));
    }
    Ok(fields)
}

/// Reads a header once, then parses data lines into records keyed by the
/// header's names.  The caller hands it one line at a time, stripped of
/// its terminator; reaching the end of the input is the caller's signal
/// to stop, not an error.
pub struct DictReader {
    /// The ordered field names, parsed from the header line.
    pub header: Vec<String>,
    /// The configuration every line is parsed under.
    pub options: ReaderOptions,
}

/// The record a header and a line's values zip into: each name takes the
/// value at its position, a repeated name keeping the later value.
pub open spec fn record_from(
    acc: Seq<(Seq<char>, Seq<char>)>,
    names: Seq<Seq<char>>,
    vals: Seq<Seq<char>>,
    i: int,
) -> Seq<(Seq<char>, Seq<char>)>
    decreases names.len() - i,
{
    if i < 0 || i >= names.len() {
        acc
    } else {
        record_from(spec_insert(acc, names[i], vals[i]), names, vals, i + 1)
    }
}

/// What zipping a full line of values against the header yields.
pub open spec fn spec_zip_record(names: Seq<Seq<char>>, vals: Seq<Seq<char>>) -> Seq<
    (Seq<char>, Seq<char>),
> {
    record_from(Seq::empty(), names, vals, 0)
}

impl DictReader {
    /// Establish the header by parsing `header_line` with the same state
    /// machine that data lines use.
    pub fn new(header_line: &str, options: ReaderOptions) -> (r: Result<DictReader, CsvError>)
        ensures
            match r {
                Ok(rd) => spec_parse_line(header_line@, options) == Ok::<
                    Seq<Seq<char>>,
                    CsvError,
                >(rd.header.deep_view()) && rd.options == options,
                Err(e) => spec_parse_line(header_line@, options) == Err::<
                    Seq<Seq<char>>,
                    CsvError,
                >(e),
            },
    {
        let header = parse_line(header_line, &options)?;
        Ok(DictReader { header, options })
    }

    /// Parse one data line and zip it against the header.  A field count
    /// that differs from the header's length rejects the record; the
    /// reader itself is unharmed and the next line parses independently.
    pub fn read_record(&self, line: &str) -> (r: Result<Record, CsvError>)
        ensures
            match spec_parse_line(line@, self.options) {
                Ok(vals) => if vals.len() == self.header.deep_view().len() {
                    r matches Ok(rec) && rec@ == spec_zip_record(self.header.deep_view(), vals)
                } else {
                    r == Err::<Record, CsvError>(
                        CsvError::FieldCountMismatch {
                            expected: self.header.len() as usize,
                            got: vals.len() as usize,
                        },
                    )
                },
                Err(e) => r == Err::<Record, CsvError>(e),
            },
    {
        let values = parse_line(line, &self.options)?;
        if values.len() != self.header.len() {
            return Err(
                CsvError::FieldCountMismatch {
                    expected: self.header.len(),
                    got: values.len(),
                },
            );
        }
        let ghost names: Seq<Seq<char>> = self.header.deep_view();
        let ghost vals: Seq<Seq<char>> = values.deep_view();
        let mut rec = Record::new();
        let mut i: usize = 0;
        while i < self.header.len()
            invariant
                i <= self.header.len(),
                self.header.len() == values.len(),
                names == self.header.deep_view(),
                vals == values.deep_view(),
                spec_zip_record(names, vals) == record_from(rec@, names, vals, i as int),
            decreases self.header.len() - i,
        {
            let name = self.header[i].clone();
            let value = values[i].clone();
            rec.insert(name, value);
            i = i + 1;
        }
        Ok(rec)
    }

    /// The ordered field names established at construction.
    pub fn header(&self) -> (r: &Vec<String>)
        ensures
            r == &self.header,
    {
        &self.header
    }
}

} // verus!
