use vstd::prelude::*;

use crate::errors::CsvError;
use crate::reader::{is_byte_char, QuoteStyle};
use crate::record::{lookup_or_empty, Record};
use crate::text::{char_is_numeric, is_numeric_char};

verus! {

/// The configuration a writer emits under.  The first seven fields mirror
/// the reader's configuration; the line terminator is the writer's own.
#[derive(Debug, Clone)]
pub struct WriterOptions {
    /// The byte separating fields.
    pub delimiter: u8,
    /// When true, a quote character inside a quoted field is written
    /// doubled.
    pub doublequote: bool,
    /// When set and doubling is off, this byte is written before an
    /// otherwise unescapable quote character.
    pub escapechar: Option<u8>,
    /// The byte that wraps a quoted field.
    pub quotechar: u8,
    /// The policy deciding which fields get quoted.
    pub quoting: QuoteStyle,
    /// Kept alongside the reader's configuration; writing ignores it.
    pub skipinitialspace: bool,
    /// Kept alongside the reader's configuration; writing ignores it.
    pub strict: bool,
    /// The string appended after each emitted row.
    pub lineterminator: String,
}

impl Default for WriterOptions {
    /// The conventional configuration: comma-delimited, double-quoted,
    /// minimal quoting, CRLF line endings.
    fn default() -> (r: Self)
        ensures
            r.delimiter == ',' as u8,
            r.doublequote,
            r.escapechar is None,
            r.quotechar == '"' as u8,
            r.quoting == QuoteStyle::Minimal,
            !r.skipinitialspace,
            !r.strict,
            r.lineterminator@ == "\r\n"@,
    {
        WriterOptions {
            delimiter: ',' as u8,
            doublequote: true,
            escapechar: None,
            quotechar: '"' as u8,
            quoting: QuoteStyle::Minimal,
            skipinitialspace: false,
            strict: false,
            lineterminator: "\r\n".to_owned(),
        }
    }
}

/// The character a configuration byte stands for.
pub open spec fn byte_char(b: u8) -> char {
    b as char
}

/// Does the value hold a character standing for this configuration byte?
pub open spec fn contains_byte(v: Seq<char>, b: u8) -> bool {
    exists|i: int| 0 <= i < v.len() && is_byte_char(v[i], b)
}

/// Is every character of the value numeric?  Vacuously true of an empty
/// value, which the `NonNumeric` policy therefore leaves unquoted.
pub open spec fn all_numeric(v: Seq<char>) -> bool {
    forall|i: int| 0 <= i < v.len() ==> is_numeric_char(v[i])
}

/// Does the quoting policy require wrapping this value?
pub open spec fn spec_needs_quotes(v: Seq<char>, o: WriterOptions) -> bool {
    match o.quoting {
        QuoteStyle::All => true,
        QuoteStyle::Minimal => contains_byte(v, o.delimiter) || contains_byte(v, o.quotechar)
            || v.contains('\n') || v.contains('\r'),
        QuoteStyle::NonNumeric => !all_numeric(v),
        QuoteStyle::Never => false,
    }
}

/// Can every quote character embedded in the value be represented?
pub open spec fn spec_escapable(v: Seq<char>, o: WriterOptions) -> bool {
    o.doublequote || o.escapechar is Some || !contains_byte(v, o.quotechar)
}

/// Will quoting this value succeed?  It fails only when the value needs
/// quoting, holds a quote character, and neither doubling nor an escape
/// character is enabled.
pub open spec fn field_ok(v: Seq<char>, o: WriterOptions) -> bool {
    !spec_needs_quotes(v, o) || spec_escapable(v, o)
}

/// The written form of one character inside a quoted field: a quote
/// character is doubled or escape-prefixed, anything else passes through.
pub open spec fn esc_char(c: char, o: WriterOptions) -> Seq<char> {
    if is_byte_char(c, o.quotechar) {
        if o.doublequote {
            seq![c, c]
        } else {
            match o.escapechar {
                Some(e) => seq![byte_char(e), c],
                None => seq![c],
            }
        }
    } else {
        seq![c]
    }
}

/// The body of a quoted field: each character in written form.
pub open spec fn esc_seq(v: Seq<char>, o: WriterOptions) -> Seq<char>
    decreases v.len(),
{
    if v.len() == 0 {
        Seq::empty()
    } else {
        esc_seq(v.drop_last(), o) + esc_char(v.last(), o)
    }
}

/// The textual form a field takes when quoting succeeds: verbatim when the
/// policy does not require quoting, else wrapped in quote characters with
/// the body escaped.
pub open spec fn spec_quoted(v: Seq<char>, o: WriterOptions) -> Seq<char> {
    if !spec_needs_quotes(v, o) {
        v
    } else {
        seq![byte_char(o.quotechar)] + esc_seq(v, o) + seq![byte_char(o.quotechar)]
    }
}

/// What quoting one field value yields.
pub open spec fn spec_quote_value(v: Seq<char>, o: WriterOptions) -> Result<Seq<char>, CsvError> {
    if field_ok(v, o) {
        Ok(spec_quoted(v, o))
    } else {
        Err(CsvError::UnescapableQuoteChar)
    }
}

/// Does the value hold a character standing for byte `b`?
fn contains_byte_exec(v: &str, b: u8) -> (r: bool)
    ensures
        r == contains_byte(v@, b),
{
    let n: usize = v.unicode_len();
    let mut i: usize = 0;
    while i < n
        invariant
            i <= n,
            n == v@.len(),
            forall|j: int| 0 <= j < i ==> !is_byte_char(v@[j], b),
        decreases n - i,
    {
        let c = v.get_char(i);
        if c as u32 == b as u32 {
            proof {
                assert(is_byte_char(v@[i as int], b));
            }
            return true;
        }
        i = i + 1;
    }
    false
}

/// Does the value hold this exact character?
fn contains_char_exec(v: &str, c: char) -> (r: bool)
    ensures
        r == v@.contains(c),
{
    let n: usize = v.unicode_len();
    let mut i: usize = 0;
    while i < n
        invariant
            i <= n,
            n == v@.len(),
            forall|j: int| 0 <= j < i ==> v@[j] != c,
        decreases n - i,
    {
        if v.get_char(i) == c {
            proof {
                assert(v@[i as int] == c);
            }
            return true;
        }
        i = i + 1;
    }
    false
}

/// Is every character of the value numeric?
fn all_numeric_exec(v: &str) -> (r: bool)
    ensures
        r == all_numeric(v@),
{
    let n: usize = v.unicode_len();
    let mut i: usize = 0;
    while i < n
        invariant
            i <= n,
            n == v@.len(),
            forall|j: int| 0 <= j < i ==> is_numeric_char(v@[j]),
        decreases n - i,
    {
        if !char_is_numeric(v.get_char(i)) {
            return false;
        }
        i = i + 1;
    }
    true
}

/// Decide whether the policy requires quoting this value.
pub fn needs_quotes(value: &str, o: &WriterOptions) -> (r: bool)
    ensures
        r == spec_needs_quotes(value@, *o),
{
    match o.quoting {
        QuoteStyle::All => true,
        QuoteStyle::Minimal => contains_byte_exec(value, o.delimiter) || contains_byte_exec(
            value,
            o.quotechar,
        ) || contains_char_exec(value, '\n') || contains_char_exec(value, '\r'),
        QuoteStyle::NonNumeric => !all_numeric_exec(value),
        QuoteStyle::Never => false,
    }
}

/// Produce the textual form of one field value: verbatim when the policy
/// does not require quoting, else wrapped in quote characters with every
/// embedded quote character doubled or escape-prefixed.
pub fn quote_value(value: &str, o: &WriterOptions) -> (r: Result<String, CsvError>)
    ensures
        match r {
            Ok(s) => spec_quote_value(value@, *o) == Ok::<Seq<char>, CsvError>(s@),
            Err(e) => spec_quote_value(value@, *o) == Err::<Seq<char>, CsvError>(e),
        },
{
    if !needs_quotes(value, o) {
        return Ok(value.to_owned());
    }
    let n: usize = value.unicode_len();
    let qc: char = o.quotechar as char;
    let mut out = String::new();
    out.push(qc);
    proof {
        assert(esc_seq(value@.subrange(0, 0), *o) =~= Seq::<char>::empty());
        assert(out@ =~= seq![byte_char(o.quotechar)] + esc_seq(value@.subrange(0, 0), *o));
    }
    let mut i: usize = 0;
    while i < n
        invariant
            i <= n,
            n == value@.len(),
            qc == byte_char(o.quotechar),
            spec_needs_quotes(value@, *o),
            out@ == seq![byte_char(o.quotechar)] + esc_seq(value@.subrange(0, i as int), *o),
            (!o.doublequote && o.escapechar is None) ==> forall|j: int|
                0 <= j < i ==> !is_byte_char(value@[j], o.quotechar),
        decreases n - i,
    {
        let c = value.get_char(i);
        if c as u32 == o.quotechar as u32 {
            if o.doublequote {
                out.push(c);
                out.push(c);
            } else {
                match o.escapechar {
                    Some(e) => {
                        out.push(e as char);
                        out.push(c);
                    },
                    None => {
                        proof {
                            assert(is_byte_char(value@[i as int], o.quotechar));
                        }
                        return Err(CsvError::UnescapableQuoteChar);
                    },
                }
            }
        } else {
            out.push(c);
        }
        proof {
            assert(value@.subrange(0, i as int + 1).drop_last() =~= value@.subrange(0, i as int));
            assert(value@.subrange(0, i as int + 1).last() == value@[i as int]);
            assert(out@ =~= seq![byte_char(o.quotechar)] + esc_seq(
                value@.subrange(0, i as int + 1),
                *o,
            ));
        }
        i = i + 1;
    }
    out.push(qc);
    proof {
        assert(value@.subrange(0, n as int) =~= value@);
        assert(spec_escapable(value@, *o));
        assert(out@ =~= seq![byte_char(o.quotechar)] + esc_seq(value@, *o) + seq![
            byte_char(o.quotechar),
        ]);
    }
    Ok(out)
}

/// Will quoting succeed for every value of the row?
pub open spec fn row_ok(vals: Seq<Seq<char>>, o: WriterOptions) -> bool {
    forall|i: int| 0 <= i < vals.len() ==> field_ok(vals[i], o)
}

/// The quoted fields joined by the delimiter, without a terminator.
pub open spec fn spec_join_row(vals: Seq<Seq<char>>, o: WriterOptions) -> Seq<char>
    decreases vals.len(),
{
    if vals.len() == 0 {
        Seq::empty()
    } else if vals.len() == 1 {
        spec_quoted(vals[0], o)
    } else {
        spec_join_row(vals.drop_last(), o) + seq![byte_char(o.delimiter)] + spec_quoted(
            vals.last(),
            o,
        )
    }
}

/// The full line one row emits: the joined fields plus the terminator.
pub open spec fn spec_row_line(vals: Seq<Seq<char>>, o: WriterOptions) -> Seq<char> {
    spec_join_row(vals, o) + o.lineterminator@
}

/// Quote every value and join the results with the delimiter.
fn quote_join(vals: &Vec<String>, o: &WriterOptions) -> (r: Result<String, CsvError>)
    ensures
        match r {
            Ok(s) => row_ok(vals.deep_view(), *o) && s@ == spec_join_row(vals.deep_view(), *o),
            Err(e) => !row_ok(vals.deep_view(), *o) && e == CsvError::UnescapableQuoteChar,
        },
{
    let ghost dv: Seq<Seq<char>> = vals.deep_view();
    let mut line = String::new();
    let mut i: usize = 0;
    while i < vals.len()
        invariant
            i <= vals.len(),
            dv == vals.deep_view(),
            dv.len() == vals.len(),
            forall|j: int| 0 <= j < i ==> field_ok(dv[j], *o),
            i == 0 ==> line@ == Seq::<char>::empty(),
            i > 0 ==> line@ == spec_join_row(dv.subrange(0, i as int), *o) + (if i < vals.len() {
                seq![byte_char(o.delimiter)]
            } else {
                Seq::<char>::empty()
            }),
        decreases vals.len() - i,
    {
        match quote_value(vals[i].as_str(), o) {
            Ok(q) => {
                line.append(q.as_str());
            },
            Err(e) => {
                proof {
                    assert(!field_ok(dv[i as int], *o));
                }
                return Err(e);
            },
        }
        if i + 1 < vals.len() {
            let d: char = o.delimiter as char;
            line.push(d);
        }
        proof {
            if i == 0 {
                assert(spec_join_row(dv.subrange(0, 1), *o) == spec_quoted(dv[0], *o));
            } else {
                assert(dv.subrange(0, i as int + 1).drop_last() =~= dv.subrange(0, i as int));
                assert(dv.subrange(0, i as int + 1).last() == dv[i as int]);
            }
        }
        i = i + 1;
    }
    proof {
        if vals.len() > 0 {
            assert(dv.subrange(0, dv.len() as int) =~= dv);
        }
    }
    Ok(line)
}

/// The values the writer resolves for a record: each header name's stored
/// value, or the empty string where the record does not name the field.
pub open spec fn resolved_values(
    names: Seq<Seq<char>>,
    row: Seq<(Seq<char>, Seq<char>)>,
) -> Seq<Seq<char>> {
    Seq::new(names.len(), |i: int| lookup_or_empty(row, names[i]))
}

/// Resolve each header name against the record, defaulting to empty.
fn resolve_row(names: &Vec<String>, row: &Record) -> (r: Vec<String>)
    ensures
        r.deep_view() == resolved_values(names.deep_view(), row@),
{
    let mut vals: Vec<String> = Vec::new();
    let mut i: usize = 0;
    while i < names.len()
        invariant
            i <= names.len(),
            vals.len() == i,
            forall|j: int| 0 <= j < i ==> vals.deep_view()[j] == lookup_or_empty(
                row@,
                names.deep_view()[j],
            ),
        decreases names.len() - i,
    {
        let ghost pre_dv: Seq<Seq<char>> = vals.deep_view();
        let v: String = match row.get(names[i].as_str()) {
            Some(s) => s.clone(),
            None => String::new(),
        };
        let ghost vv: Seq<char> = v@;
        vals.push(v);
        proof {
            assert forall|j: int| 0 <= j < i + 1 implies vals.deep_view()[j] == lookup_or_empty(
                row@,
                names.deep_view()[j],
            ) by {
                if j < i {
                    assert(vals.deep_view()[j] == pre_dv[j]);
                } else {
                    assert(vals.deep_view()[j] == vv);
                }
            }
        }
        i = i + 1;
    }
    proof {
        assert(vals.deep_view() =~= resolved_values(names.deep_view(), row@));
    }
    vals
}

/// Holds an ordered header and emits header and data rows as text, which
/// accumulates in `out` until the caller takes it; stream handling stays
/// outside.
pub struct DictWriter {
    /// The ordered field names every row is resolved against.
    pub fieldnames: Vec<String>,
    /// The configuration rows are emitted under.
    pub options: WriterOptions,
    /// Whether a header row has already been emitted.
    pub wrote_header: bool,
    /// The accumulated output.
    pub out: String,
}

/// Everything the header-emit operation promises, as a relation between
/// the writer before the call, the writer after it, and the result.  A
/// second request after a successful one is a no-op.
pub open spec fn writeheader_post(
    pre: DictWriter,
    post: DictWriter,
    r: Result<usize, CsvError>,
) -> bool {
    let names = pre.fieldnames.deep_view();
    post.fieldnames == pre.fieldnames && post.options == pre.options && if pre.wrote_header {
        post.out@ == pre.out@ && post.wrote_header && r == Ok::<usize, CsvError>(0usize)
    } else {
        if row_ok(names, pre.options) {
            post.wrote_header && post.out@ == pre.out@ + spec_row_line(names, pre.options)
                && (r matches Ok(nn) && nn as nat == spec_row_line(names, pre.options).len())
        } else {
            !post.wrote_header && post.out@ == pre.out@ && r == Err::<usize, CsvError>(
                CsvError::UnescapableQuoteChar,
            )
        }
    }
}

/// The record views of a sequence of records.
pub open spec fn records_view(rows: Seq<Record>) -> Seq<Seq<(Seq<char>, Seq<char>)>> {
    rows.map_values(|rec: Record| rec@)
}

/// The output a sequence of rows emits, stopping at the first row whose
/// quoting fails.
pub open spec fn spec_rows_emit(
    names: Seq<Seq<char>>,
    rows: Seq<Seq<(Seq<char>, Seq<char>)>>,
    o: WriterOptions,
) -> Seq<char>
    decreases rows.len(),
{
    if rows.len() == 0 {
        Seq::empty()
    } else {
        let vals = resolved_values(names, rows[0]);
        if row_ok(vals, o) {
            spec_row_line(vals, o) + spec_rows_emit(names, rows.drop_first(), o)
        } else {
            Seq::empty()
        }
    }
}

/// Does every row of the sequence quote successfully?
pub open spec fn spec_rows_ok(
    names: Seq<Seq<char>>,
    rows: Seq<Seq<(Seq<char>, Seq<char>)>>,
    o: WriterOptions,
) -> bool
    decreases rows.len(),
{
    rows.len() == 0 || (row_ok(resolved_values(names, rows[0]), o) && spec_rows_ok(
        names,
        rows.drop_first(),
        o,
    ))
}

impl DictWriter {
    /// A writer over the given header, with nothing emitted yet.
    pub fn new(fieldnames: Vec<String>, options: WriterOptions) -> (r: DictWriter)
        ensures
            r.fieldnames == fieldnames,
            r.options == options,
            !r.wrote_header,
            r.out@ == Seq::<char>::empty(),
    {
        DictWriter { fieldnames, options, wrote_header: false, out: String::new() }
    }

    /// Emit the header row: the field names themselves, quoted like any
    /// row and joined by the delimiter.  Emission is idempotent: once a
    /// header has been written, further requests change nothing and
    /// report zero characters.
    pub fn writeheader(&mut self) -> (r: Result<usize, CsvError>)
        ensures
            writeheader_post(*old(self), *final(self), r),
    {
        if self.wrote_header {
            return Ok(0);
        }
        match quote_join(&self.fieldnames, &self.options) {
            Ok(line) => {
                let mut line = line;
                line.append(self.options.lineterminator.as_str());
                let count: usize = line.as_str().unicode_len();
                self.out.append(line.as_str());
                self.wrote_header = true;
                Ok(count)
            },
            Err(e) => Err(e),
        }
    }

    /// Emit one record as a row: every header name is resolved against the
    /// record (missing fields default to the empty string), the values are
    /// quoted and joined, and the terminator is appended.  On failure
    /// nothing is emitted.  The result counts the characters emitted.
    pub fn writerow(&mut self, row: &Record) -> (r: Result<usize, CsvError>)
        ensures
            ({
                let pre = *old(self);
                let post = *final(self);
                let vals = resolved_values(pre.fieldnames.deep_view(), row@);
                post.fieldnames == pre.fieldnames && post.options == pre.options
                    && post.wrote_header == pre.wrote_header && if row_ok(vals, pre.options) {
                    post.out@ == pre.out@ + spec_row_line(vals, pre.options) && (r matches Ok(nn)
                        && nn as nat == spec_row_line(vals, pre.options).len())
                } else {
                    post.out@ == pre.out@ && r == Err::<usize, CsvError>(
                        CsvError::UnescapableQuoteChar,
                    )
                }
            }),
    {
        let vals = resolve_row(&self.fieldnames, row);
        match quote_join(&vals, &self.options) {
            Ok(line) => {
                let mut line = line;
                line.append(self.options.lineterminator.as_str());
                let count: usize = line.as_str().unicode_len();
                self.out.append(line.as_str());
                Ok(count)
            },
            Err(e) => Err(e),
        }
    }

    /// Emit several records in order, stopping at the first failure; the
    /// rows already emitted stay in the output.  The result counts the
    /// characters emitted in all.
    pub fn writerows(&mut self, rows: &Vec<Record>) -> (r: Result<usize, CsvError>)
        ensures
            ({
                let pre = *old(self);
                let post = *final(self);
                let names = pre.fieldnames.deep_view();
                let rv = records_view(rows@);
                post.fieldnames == pre.fieldnames && post.options == pre.options
                    && post.wrote_header == pre.wrote_header && post.out@ == pre.out@
                    + spec_rows_emit(names, rv, pre.options) && if spec_rows_ok(
                    names,
                    rv,
                    pre.options,
                ) {
                    r matches Ok(nn) && nn as nat == spec_rows_emit(names, rv, pre.options).len()
                } else {
                    r == Err::<usize, CsvError>(CsvError::UnescapableQuoteChar)
                }
            }),
    {
        let ghost names: Seq<Seq<char>> = self.fieldnames.deep_view();
        let ghost rv: Seq<Seq<(Seq<char>, Seq<char>)>> = records_view(rows@);
        let ghost oldout: Seq<char> = self.out@;
        let before: usize = self.out.as_str().unicode_len();
        let mut i: usize = 0;
        proof {
            assert(rv.skip(0) =~= rv);
        }
        while i < rows.len()
            invariant
                i <= rows.len(),
                rv == records_view(rows@),
                rv.len() == rows.len(),
                names == self.fieldnames.deep_view(),
                self.fieldnames == old(self).fieldnames,
                self.options == old(self).options,
                self.wrote_header == old(self).wrote_header,
                oldout == old(self).out@,
                before as nat == oldout.len(),
                oldout.len() <= self.out@.len(),
                self.out@.subrange(0, oldout.len() as int) == oldout,
                spec_rows_emit(names, rv, self.options) == self.out@.skip(oldout.len() as int)
                    + spec_rows_emit(names, rv.skip(i as int), self.options),
                spec_rows_ok(names, rv, self.options) == spec_rows_ok(
                    names,
                    rv.skip(i as int),
                    self.options,
                ),
            decreases rows.len() - i,
        {
            let ghost prevout: Seq<char> = self.out@;
            let res = self.writerow(&rows[i]);
            proof {
                assert(rv.skip(i as int)[0] == rv[i as int]);
                assert(rv.skip(i as int).drop_first() =~= rv.skip(i as int + 1));
            }
            match res {
                Ok(_) => {},
                Err(e) => {
                    proof {
                        assert(self.out@.skip(oldout.len() as int) =~= prevout.skip(
                            oldout.len() as int,
                        ));
                    }
                    return Err(e);
                },
            }
            proof {
                assert(self.out@.subrange(0, oldout.len() as int) =~= oldout);
                assert(self.out@.skip(oldout.len() as int) =~= prevout.skip(oldout.len() as int)
                    + spec_row_line(resolved_values(names, rv[i as int]), self.options));
            }
            i = i + 1;
        }
        proof {
            assert(rv.skip(rows.len() as int) =~= Seq::<Seq<(Seq<char>, Seq<char>)>>::empty());
        }
        let after: usize = self.out.as_str().unicode_len();
        Ok(after - before)
    }

    /// Everything emitted so far and not yet taken.
    pub fn contents(&self) -> (r: &String)
        ensures
            r == &self.out,
    {
        &self.out
    }

    /// Hand the accumulated output over (for the caller to pass to its
    /// stream) and start collecting afresh.
    pub fn take_output(&mut self) -> (r: String)
        ensures
            r@ == old(self).out@,
            final(self).out@ == Seq::<char>::empty(),
            final(self).fieldnames == old(self).fieldnames,
            final(self).options == old(self).options,
            final(self).wrote_header == old(self).wrote_header,
    {
        let r = self.out.clone();
        self.out = String::new();
        r
    }
}

/// Round `n` up to the next multiple of `multiple`; output buffers are
/// sized up to whole blocks this way.
pub fn next_multiple_of(n: usize, multiple: usize) -> (r: usize)
    requires
        multiple > 0,
        n + multiple <= usize::MAX,
    ensures
        r as int % multiple as int == 0,
        n <= r < n + multiple,
{
    let rem: usize = n % multiple;
    if rem == 0 {
        n
    } else {
        proof {
            let ni = n as int;
            let mi = multiple as int;
            vstd::arithmetic::div_mod::lemma_fundamental_div_mod(ni, mi);
            assert(ni + (mi - rem as int) == mi * (ni / mi + 1)) by (nonlinear_arith)
                requires
                    ni == mi * (ni / mi) + rem as int,
            ;
            vstd::arithmetic::div_mod::lemma_mod_multiples_basic(ni / mi + 1, mi);
        }
        n + (multiple - rem)
    }
}

} // verus!
