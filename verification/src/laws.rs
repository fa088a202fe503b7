use vstd::prelude::*;

use crate::errors::CsvError;
use crate::reader::{
    close_field, is_byte_char, parse_from, record_from, spec_parse_line, spec_zip_record,
    trim_back, trim_front, QuoteStyle, ReaderOptions,
};
use crate::record::spec_lookup;
use crate::writer::{
    byte_char, contains_byte, esc_char, esc_seq, resolved_values, spec_join_row,
    spec_needs_quotes, spec_quote_value, spec_quoted, writeheader_post, DictWriter,
    WriterOptions,
};

verus! {

/// The configuration fields that parsing consults agree between a writer
/// and a reader.
pub open spec fn options_match(w: WriterOptions, r: ReaderOptions) -> bool {
    w.delimiter == r.delimiter && w.doublequote == r.doublequote && w.escapechar == r.escapechar
        && w.quotechar == r.quotechar
}

/// The quote-escaping modes under which a quoted field reads back exactly:
/// doubling with no escape character configured, or a dedicated escape
/// character distinct from the quote with doubling off.
pub open spec fn roundtrip_mode(w: WriterOptions) -> bool {
    (w.doublequote && w.escapechar is None) || (!w.doublequote && (w.escapechar matches Some(e)
        && e != w.quotechar))
}

/// The value holds no character the parser would take for an escape.
pub open spec fn value_clean(v: Seq<char>, w: WriterOptions) -> bool {
    match w.escapechar {
        Some(e) => !contains_byte(v, e),
        None => true,
    }
}

/// A buffer whose every character is marked as captured inside quotes.
pub open spec fn protect(v: Seq<char>) -> Seq<(char, bool)> {
    v.map_values(|c: char| (c, true))
}

/// Emitting the header twice produces the same output as emitting it
/// once: the second request changes nothing, whether the first succeeded
/// (it is then a no-op) or failed (nothing was emitted either time).
pub proof fn lemma_writeheader_idempotent(
    w0: DictWriter,
    w1: DictWriter,
    w2: DictWriter,
    r1: Result<usize, CsvError>,
    r2: Result<usize, CsvError>,
)
    requires
        writeheader_post(w0, w1, r1),
        writeheader_post(w1, w2, r2),
    ensures
        w2.out@ == w1.out@,
{
}

/// Minimal quoting never quotes a value free of the delimiter, the quote
/// character and line breaks: such a value is emitted verbatim.
pub proof fn lemma_minimal_leaves_plain(v: Seq<char>, o: WriterOptions)
    requires
        o.quoting == QuoteStyle::Minimal,
        !contains_byte(v, o.delimiter),
        !contains_byte(v, o.quotechar),
        !v.contains('\n'),
        !v.contains('\r'),
    ensures
        spec_quote_value(v, o) == Ok::<Seq<char>, CsvError>(v),
{
}

/// All-quoting always wraps: whenever quoting succeeds, the written form
/// begins and ends with the quote character.
pub proof fn lemma_all_wraps(v: Seq<char>, o: WriterOptions)
    requires
        o.quoting == QuoteStyle::All,
        spec_quote_value(v, o) is Ok,
    ensures
        spec_quote_value(v, o) matches Ok(q) && q.len() >= 2 && q[0] == byte_char(o.quotechar)
            && q[q.len() - 1] == byte_char(o.quotechar),
{
    let q = spec_quoted(v, o);
    assert(q[0] == byte_char(o.quotechar));
    assert(q[q.len() - 1] == byte_char(o.quotechar));
}

/// Never-quoting never wraps: every value is emitted verbatim, whatever
/// it holds.
pub proof fn lemma_never_leaves_plain(v: Seq<char>, o: WriterOptions)
    requires
        o.quoting == QuoteStyle::Never,
    ensures
        spec_quote_value(v, o) == Ok::<Seq<char>, CsvError>(v),
{
}

/// A buffer captured entirely inside quotes is immune to trimming: the
/// closed field is exactly the captured value.
proof fn lemma_close_protected(v: Seq<char>)
    ensures
        close_field(protect(v)) == v,
{
    if protect(v).len() > 0 {
        assert(protect(v)[0].1);
        assert(protect(v).last().1);
    }
    assert(trim_front(protect(v)) == protect(v));
    assert(trim_back(protect(v)) == protect(v));
    assert(trim_back(trim_front(protect(v))).map_values(|p: (char, bool)| p.0) =~= v);
}

/// The escaped body of a value, read from the front: the first character's
/// written form, then the rest.
proof fn lemma_esc_seq_first(v: Seq<char>, w: WriterOptions)
    requires
        v.len() > 0,
    ensures
        esc_seq(v, w) == esc_char(v[0], w) + esc_seq(v.drop_first(), w),
    decreases v.len(),
{
    if v.len() == 1 {
        assert(v.drop_last() =~= Seq::<char>::empty());
        assert(v.drop_first() =~= Seq::<char>::empty());
        assert(esc_seq(v, w) =~= esc_char(v[0], w) + esc_seq(v.drop_first(), w));
    } else {
        lemma_esc_seq_first(v.drop_last(), w);
        assert(v.drop_last().drop_first() =~= v.drop_first().drop_last());
        assert(v.drop_last()[0] == v[0]);
        assert(v.drop_first().last() == v.last());
        assert(esc_seq(v.drop_first(), w) == esc_seq(v.drop_first().drop_last(), w) + esc_char(
            v.drop_first().last(),
            w,
        ));
        assert(esc_seq(v, w) == esc_seq(v.drop_last(), w) + esc_char(v.last(), w));
        assert(esc_char(v[0], w) + (esc_seq(v.drop_first().drop_last(), w) + esc_char(
            v.last(),
            w,
        )) =~= (esc_char(v[0], w) + esc_seq(v.drop_first().drop_last(), w)) + esc_char(
            v.last(),
            w,
        ));
    }
}

/// A configuration byte and the character written for it stand for each
/// other.
proof fn lemma_byte_char_code(b: u8)
    ensures
        is_byte_char(byte_char(b), b),
{
}

/// While inside a quoted segment, the parser consumes the escaped body of
/// a value span for span and appends exactly the value to the buffer,
/// protected; the rest of the line is untouched.
proof fn lemma_parse_esc(
    s: Seq<char>,
    i: int,
    v: Seq<char>,
    buf: Seq<(char, bool)>,
    fields: Seq<Seq<char>>,
    w: WriterOptions,
    r: ReaderOptions,
)
    requires
        options_match(w, r),
        roundtrip_mode(w),
        value_clean(v, w),
        0 <= i,
        i + esc_seq(v, w).len() <= s.len(),
        s.subrange(i, i + esc_seq(v, w).len()) == esc_seq(v, w),
    ensures
        parse_from(s, i, true, buf, fields, r) == parse_from(
            s,
            i + esc_seq(v, w).len(),
            true,
            buf + protect(v),
            fields,
            r,
        ),
    decreases v.len(),
{
    let e = esc_seq(v, w);
    if v.len() == 0 {
        assert(buf + protect(v) =~= buf);
    } else {
        lemma_esc_seq_first(v, w);
        let c0 = v[0];
        let rest = v.drop_first();
        let e0 = esc_char(c0, w);
        let elen = e.len() as int;
        lemma_value_clean_rest(v, w);
        // The tail of the span is the escaped rest.
        assert(s.subrange(
            i + e0.len(),
            i + e0.len() + esc_seq(rest, w).len(),
        ) =~= esc_seq(rest, w)) by {
            assert forall|k: int| 0 <= k < esc_seq(rest, w).len() implies s.subrange(
                i + e0.len(),
                i + e0.len() + esc_seq(rest, w).len(),
            )[k] == esc_seq(rest, w)[k] by {
                assert(s.subrange(i, i + elen)[e0.len() + k] == s[i + e0.len() + k]);
                assert((e0 + esc_seq(rest, w))[e0.len() + k] == esc_seq(rest, w)[k]);
            }
        }
        if is_byte_char(c0, w.quotechar) {
            if w.doublequote {
                // Written doubled: the parser folds the pair back into one.
                assert(e0 =~= seq![c0, c0]);
                assert(s.subrange(i, i + elen)[0] == s[i]);
                assert((e0 + esc_seq(rest, w))[0] == e0[0]);
                assert(s.subrange(i, i + elen)[1] == s[i + 1]);
                assert((e0 + esc_seq(rest, w))[1] == e0[1]);
                assert(s[i] == c0 && s[i + 1] == c0);
                lemma_parse_esc(s, i + 2, rest, buf.push((c0, true)), fields, w, r);
                assert(buf.push((c0, true)) + protect(rest) =~= buf + protect(v));
            } else {
                // Written escape-prefixed: the parser takes the quote verbatim.
                let eb = w.escapechar->Some_0;
                assert(e0 =~= seq![byte_char(eb), c0]);
                assert(s.subrange(i, i + elen)[0] == s[i]);
                assert((e0 + esc_seq(rest, w))[0] == e0[0]);
                assert(s.subrange(i, i + elen)[1] == s[i + 1]);
                assert((e0 + esc_seq(rest, w))[1] == e0[1]);
                assert(s[i] == byte_char(eb) && s[i + 1] == c0);
                lemma_byte_char_code(eb);
                assert(!is_byte_char(byte_char(eb), w.quotechar));
                lemma_parse_esc(s, i + 2, rest, buf.push((c0, true)), fields, w, r);
                assert(buf.push((c0, true)) + protect(rest) =~= buf + protect(v));
            }
        } else {
            // An ordinary character passes through unchanged.
            assert(e0 =~= seq![c0]);
            assert(s.subrange(i, i + elen)[0] == s[i]);
            assert((e0 + esc_seq(rest, w))[0] == e0[0]);
            assert(s[i] == c0);
            assert(match r.escapechar {
                Some(eb) => !is_byte_char(c0, eb),
                None => true,
            }) by {
                if r.escapechar is Some {
                    let eb = r.escapechar->Some_0;
                    if is_byte_char(v[0], eb) {
                        assert(contains_byte(v, eb));
                    }
                }
            }
            lemma_parse_esc(s, i + 1, rest, buf.push((c0, true)), fields, w, r);
            assert(buf.push((c0, true)) + protect(rest) =~= buf + protect(v));
        }
    }
}

/// A whole quoted field standing at position `i`: the parser walks it and
/// ends just after the closing quote, back outside quotes, with exactly
/// the value, protected, as its buffer.  The character after the field, if
/// any, must not be a quote, or a doubling parser would read on.
proof fn lemma_parse_quoted_field(
    s: Seq<char>,
    i: int,
    v: Seq<char>,
    fields: Seq<Seq<char>>,
    w: WriterOptions,
    r: ReaderOptions,
)
    requires
        options_match(w, r),
        roundtrip_mode(w),
        value_clean(v, w),
        w.delimiter != w.quotechar,
        w.quoting == QuoteStyle::All,
        0 <= i,
        i + spec_quoted(v, w).len() <= s.len(),
        s.subrange(i, i + spec_quoted(v, w).len()) == spec_quoted(v, w),
        i + spec_quoted(v, w).len() == s.len() || !is_byte_char(
            s[i + spec_quoted(v, w).len()],
            r.quotechar,
        ),
    ensures
        parse_from(s, i, false, Seq::empty(), fields, r) == parse_from(
            s,
            i + spec_quoted(v, w).len(),
            false,
            protect(v),
            fields,
            r,
        ),
{
    let qcc = byte_char(w.quotechar);
    let esc = esc_seq(v, w);
    let elen = esc.len() as int;
    let q = spec_quoted(v, w);
    let qlen = q.len() as int;
    lemma_byte_char_code(w.quotechar);
    assert(spec_needs_quotes(v, w));
    assert(q == seq![qcc] + esc + seq![qcc]);
    assert(qlen == elen + 2);
    // The opening quote.
    assert(s.subrange(i, i + qlen)[0] == s[i]);
    assert((seq![qcc] + esc)[0] == qcc);
    assert(q[0] == (seq![qcc] + esc)[0]);
    assert(s[i] == qcc);
    assert(!is_byte_char(s[i], r.delimiter));
    // The escaped body fills the span between the quotes.
    assert forall|k: int| 0 <= k < elen implies s.subrange(i + 1, i + 1 + elen)[k] == esc[k] by {
        assert(s.subrange(i, i + qlen)[1 + k] == s[i + 1 + k]);
        assert(q[1 + k] == (seq![qcc] + esc)[1 + k]);
        assert((seq![qcc] + esc)[1 + k] == esc[k]);
        assert(s.subrange(i + 1, i + 1 + elen)[k] == s[i + 1 + k]);
    }
    assert(s.subrange(i + 1, i + 1 + elen) =~= esc);
    lemma_parse_esc(s, i + 1, v, Seq::empty(), fields, w, r);
    assert(Seq::<(char, bool)>::empty() + protect(v) =~= protect(v));
    // The closing quote.
    let j = i + 1 + elen;
    assert(s.subrange(i, i + qlen)[qlen - 1] == s[j]);
    assert(q[qlen - 1] == qcc);
    assert(s[j] == qcc);
    if r.doublequote && j + 1 < s.len() {
        assert(j + 1 == i + qlen);
        assert(!is_byte_char(s[j + 1], r.quotechar));
    }
    assert(parse_from(s, j, true, protect(v), fields, r) == parse_from(
        s,
        i + qlen,
        false,
        protect(v),
        fields,
        r,
    ));
}

/// A joined row, read from the front: the first field's written form, one
/// delimiter, then the joined rest.
proof fn lemma_join_first(vals: Seq<Seq<char>>, w: WriterOptions)
    requires
        vals.len() >= 2,
    ensures
        spec_join_row(vals, w) == spec_quoted(vals[0], w) + seq![byte_char(w.delimiter)]
            + spec_join_row(vals.drop_first(), w),
    decreases vals.len(),
{
    let d = seq![byte_char(w.delimiter)];
    if vals.len() == 2 {
        assert(vals.drop_last().len() == 1);
        assert(vals.drop_last()[0] == vals[0]);
        assert(vals.drop_first().len() == 1);
        assert(vals.drop_first()[0] == vals[1]);
        assert(spec_join_row(vals.drop_last(), w) == spec_quoted(vals[0], w));
        assert(spec_join_row(vals.drop_first(), w) == spec_quoted(vals[1], w));
        assert(spec_join_row(vals.drop_last(), w) + d + spec_quoted(vals.last(), w)
            =~= spec_quoted(vals[0], w) + d + spec_join_row(vals.drop_first(), w));
    } else {
        lemma_join_first(vals.drop_last(), w);
        assert(vals.drop_last().drop_first() =~= vals.drop_first().drop_last());
        assert(vals.drop_last()[0] == vals[0]);
        assert(vals.drop_first().last() == vals.last());
        assert(vals.drop_first().len() >= 2);
        assert(spec_join_row(vals.drop_first(), w) == spec_join_row(
            vals.drop_first().drop_last(),
            w,
        ) + d + spec_quoted(vals.drop_first().last(), w));
        assert(spec_join_row(vals, w) == spec_join_row(vals.drop_last(), w) + d + spec_quoted(
            vals.last(),
            w,
        ));
        assert((spec_quoted(vals[0], w) + d + spec_join_row(vals.drop_first().drop_last(), w)) + d
            + spec_quoted(vals.last(), w) =~= spec_quoted(vals[0], w) + d + (spec_join_row(
            vals.drop_first().drop_last(),
            w,
        ) + d + spec_quoted(vals.last(), w)));
    }
}

/// The joined, all-quoted row standing as the whole remaining input parses
/// back to exactly its values, appended to the fields already closed.
proof fn lemma_parse_join(
    s: Seq<char>,
    i: int,
    vals: Seq<Seq<char>>,
    fields: Seq<Seq<char>>,
    w: WriterOptions,
    r: ReaderOptions,
)
    requires
        options_match(w, r),
        roundtrip_mode(w),
        w.delimiter != w.quotechar,
        w.quoting == QuoteStyle::All,
        forall|k: int| 0 <= k < vals.len() ==> value_clean(vals[k], w),
        vals.len() >= 1,
        0 <= i <= s.len(),
        s.skip(i) == spec_join_row(vals, w),
    ensures
        parse_from(s, i, false, Seq::empty(), fields, r) == Ok::<Seq<Seq<char>>, CsvError>(
            fields + vals,
        ),
    decreases vals.len(),
{
    let v0 = vals[0];
    let q0 = spec_quoted(v0, w);
    let q0len = q0.len() as int;
    assert(value_clean(v0, w));
    if vals.len() == 1 {
        assert(spec_join_row(vals, w) == q0);
        assert(s.len() - i == q0len);
        assert forall|k: int| 0 <= k < q0len implies s.subrange(i, i + q0len)[k] == q0[k] by {
            assert(s.skip(i)[k] == s[i + k]);
            assert(s.subrange(i, i + q0len)[k] == s[i + k]);
        }
        assert(s.subrange(i, i + q0len) =~= q0);
        lemma_parse_quoted_field(s, i, v0, fields, w, r);
        lemma_close_protected(v0);
        assert(parse_from(s, i + q0len, false, protect(v0), fields, r)
            == Ok::<Seq<Seq<char>>, CsvError>(fields.push(v0)));
        assert(fields.push(v0) =~= fields + vals);
    } else {
        lemma_join_first(vals, w);
        let rest = vals.drop_first();
        let d = byte_char(w.delimiter);
        let tail = spec_join_row(rest, w);
        assert(s.skip(i) == q0 + seq![d] + tail);
        assert(s.len() - i == q0len + 1 + tail.len());
        assert forall|k: int| 0 <= k < q0len implies s.subrange(i, i + q0len)[k] == q0[k] by {
            assert(s.skip(i)[k] == s[i + k]);
            assert(s.subrange(i, i + q0len)[k] == s[i + k]);
            assert((q0 + seq![d])[k] == q0[k]);
            assert((q0 + seq![d] + tail)[k] == (q0 + seq![d])[k]);
        }
        assert(s.subrange(i, i + q0len) =~= q0);
        assert(s.skip(i)[q0len] == s[i + q0len]);
        assert((q0 + seq![d])[q0len] == d);
        assert((q0 + seq![d] + tail)[q0len] == (q0 + seq![d])[q0len]);
        assert(s[i + q0len] == d);
        lemma_byte_char_code(w.delimiter);
        assert(!is_byte_char(d, r.quotechar));
        lemma_parse_quoted_field(s, i, v0, fields, w, r);
        lemma_close_protected(v0);
        // The delimiter closes the field and resets the buffer.
        assert(parse_from(s, i + q0len, false, protect(v0), fields, r) == parse_from(
            s,
            i + q0len + 1,
            false,
            Seq::empty(),
            fields.push(v0),
            r,
        ));
        assert forall|k: int| 0 <= k < tail.len() implies s.skip(i + q0len + 1)[k] == tail[k] by {
            assert(s.skip(i + q0len + 1)[k] == s[i + q0len + 1 + k]);
            assert(s.skip(i)[q0len + 1 + k] == s[i + q0len + 1 + k]);
            assert((q0 + seq![d] + tail)[q0len + 1 + k] == tail[k]);
        }
        assert(s.skip(i + q0len + 1) =~= tail);
        assert forall|k: int| 0 <= k < rest.len() implies value_clean(rest[k], w) by {
            assert(rest[k] == vals[k + 1]);
        }
        lemma_parse_join(s, i + q0len + 1, rest, fields.push(v0), w, r);
        assert(fields.push(v0) + rest =~= fields + vals);
    }
}

/// Doubling round-trip: a value written double-quoted — however many
/// quote characters it holds, each doubled on the way out — parses back
/// to exactly the original value, as the one field of the line.
pub proof fn lemma_double_quote_roundtrip(v: Seq<char>, w: WriterOptions, r: ReaderOptions)
    requires
        options_match(w, r),
        w.quoting == QuoteStyle::All,
        w.doublequote,
        w.escapechar is None,
        w.delimiter != w.quotechar,
    ensures
        spec_parse_line(spec_quoted(v, w), r) == Ok::<Seq<Seq<char>>, CsvError>(seq![v]),
{
    lemma_single_field_roundtrip(v, w, r);
}

/// Escape round-trip: with an escape character set and doubling off, a
/// value — each embedded quote written escape-prefixed — parses back to
/// exactly the original value, provided the value itself is free of the
/// escape character.
pub proof fn lemma_escape_roundtrip(v: Seq<char>, w: WriterOptions, r: ReaderOptions)
    requires
        options_match(w, r),
        w.quoting == QuoteStyle::All,
        !w.doublequote,
        w.escapechar matches Some(e) && e != w.quotechar && !contains_byte(v, e),
        w.delimiter != w.quotechar,
    ensures
        spec_parse_line(spec_quoted(v, w), r) == Ok::<Seq<Seq<char>>, CsvError>(seq![v]),
{
    lemma_single_field_roundtrip(v, w, r);
}

/// One quoted field standing alone on a line parses back to itself.
proof fn lemma_single_field_roundtrip(v: Seq<char>, w: WriterOptions, r: ReaderOptions)
    requires
        options_match(w, r),
        roundtrip_mode(w),
        value_clean(v, w),
        w.quoting == QuoteStyle::All,
        w.delimiter != w.quotechar,
    ensures
        spec_parse_line(spec_quoted(v, w), r) == Ok::<Seq<Seq<char>>, CsvError>(seq![v]),
{
    let vals = seq![v];
    let s = spec_quoted(v, w);
    assert(vals[0] == v);
    assert(spec_join_row(vals, w) == spec_quoted(v, w));
    assert(s.skip(0) =~= s);
    lemma_parse_join(s, 0, vals, Seq::empty(), w, r);
    assert(Seq::<Seq<char>>::empty() + vals =~= vals);
}

/// Row round-trip: a line of all-quoted values, joined by the delimiter,
/// parses back to exactly those values, in order.
pub proof fn lemma_row_roundtrip(vals: Seq<Seq<char>>, w: WriterOptions, r: ReaderOptions)
    requires
        options_match(w, r),
        roundtrip_mode(w),
        w.quoting == QuoteStyle::All,
        w.delimiter != w.quotechar,
        forall|k: int| 0 <= k < vals.len() ==> value_clean(vals[k], w),
        vals.len() >= 1,
    ensures
        spec_parse_line(spec_join_row(vals, w), r) == Ok::<Seq<Seq<char>>, CsvError>(vals),
{
    let s = spec_join_row(vals, w);
    assert(s.skip(0) =~= s);
    lemma_parse_join(s, 0, vals, Seq::empty(), w, r);
    assert(Seq::<Seq<char>>::empty() + vals =~= vals);
}

/// No two header names are the same.
pub open spec fn distinct_names(names: Seq<Seq<char>>) -> bool {
    forall|i: int, j: int| 0 <= i < j < names.len() ==> names[i] != names[j]
}

/// The positional pairs a header and a line of values form.
pub open spec fn zip_pairs(names: Seq<Seq<char>>, vals: Seq<Seq<char>>) -> Seq<
    (Seq<char>, Seq<char>),
> {
    Seq::new(names.len(), |k: int| (names[k], vals[k]))
}

/// With distinct names, zipping values against the header builds exactly
/// the positional pairs: no insertion ever replaces.
proof fn lemma_record_from_zip(
    acc: Seq<(Seq<char>, Seq<char>)>,
    names: Seq<Seq<char>>,
    vals: Seq<Seq<char>>,
    i: int,
)
    requires
        names.len() == vals.len(),
        distinct_names(names),
        0 <= i <= names.len(),
        acc == zip_pairs(names, vals).subrange(0, i),
    ensures
        record_from(acc, names, vals, i) == zip_pairs(names, vals),
    decreases names.len() - i,
{
    if i == names.len() {
        assert(acc =~= zip_pairs(names, vals));
    } else {
        assert forall|k: int| 0 <= k < acc.len() implies acc[k].0 != names[i] by {
            assert(acc[k] == zip_pairs(names, vals)[k]);
        }
        crate::record::lemma_insert_absent(acc, names[i], vals[i]);
        assert(acc.push((names[i], vals[i])) =~= zip_pairs(names, vals).subrange(0, i + 1));
        lemma_record_from_zip(acc.push((names[i], vals[i])), names, vals, i + 1);
    }
}

/// Looking a name up in the positional pairs of a distinct header finds
/// the value at the name's position.
proof fn lemma_zip_lookup(names: Seq<Seq<char>>, vals: Seq<Seq<char>>, i: int)
    requires
        names.len() == vals.len(),
        distinct_names(names),
        0 <= i < names.len(),
    ensures
        spec_lookup(zip_pairs(names, vals), names[i]) == Some(vals[i]),
    decreases i,
{
    let pairs = zip_pairs(names, vals);
    assert(pairs[0] == (names[0], vals[0]));
    if i == 0 {
        assert(spec_lookup(pairs, names[0]) == Some(vals[0]));
    } else {
        assert(names[0] != names[i]);
        assert(pairs.drop_first() =~= zip_pairs(names.drop_first(), vals.drop_first()));
        assert forall|a: int, b: int|
            0 <= a < b < names.drop_first().len() implies names.drop_first()[a]
            != names.drop_first()[b] by {
            assert(names.drop_first()[a] == names[a + 1]);
            assert(names.drop_first()[b] == names[b + 1]);
        }
        lemma_zip_lookup(names.drop_first(), vals.drop_first(), i - 1);
        assert(names.drop_first()[i - 1] == names[i]);
        assert(vals.drop_first()[i - 1] == vals[i]);
    }
}

/// Full round trip: a header and a record written under a configuration,
/// then read back under the same configuration, give back the originals.
/// The header line parses back to the header names; a data row parses
/// back to the values the writer resolved; and the record the reader
/// zips up returns, for every header name, exactly the value the record
/// being written held there (or the empty string where it held none).
pub proof fn lemma_write_read_roundtrip(
    names: Seq<Seq<char>>,
    rec: Seq<(Seq<char>, Seq<char>)>,
    w: WriterOptions,
    r: ReaderOptions,
)
    requires
        options_match(w, r),
        roundtrip_mode(w),
        w.quoting == QuoteStyle::All,
        w.delimiter != w.quotechar,
        names.len() >= 1,
        distinct_names(names),
        forall|k: int| 0 <= k < names.len() ==> value_clean(names[k], w),
        forall|k: int|
            0 <= k < names.len() ==> value_clean(resolved_values(names, rec)[k], w),
    ensures
        ({
            let vals = resolved_values(names, rec);
            spec_parse_line(spec_join_row(names, w), r) == Ok::<Seq<Seq<char>>, CsvError>(names)
                && spec_parse_line(spec_join_row(vals, w), r) == Ok::<Seq<Seq<char>>, CsvError>(
                vals,
            ) && spec_zip_record(names, vals) == zip_pairs(names, vals) && forall|k: int|
                0 <= k < names.len() ==> spec_lookup(spec_zip_record(names, vals), names[k])
                    == Some(vals[k])
        }),
{
    let vals = resolved_values(names, rec);
    lemma_row_roundtrip(names, w, r);
    lemma_row_roundtrip(vals, w, r);
    assert(Seq::<(Seq<char>, Seq<char>)>::empty() =~= zip_pairs(names, vals).subrange(0, 0));
    lemma_record_from_zip(Seq::empty(), names, vals, 0);
    assert forall|k: int|
        0 <= k < names.len() implies spec_lookup(spec_zip_record(names, vals), names[k]) == Some(
        vals[k],
    ) by {
        lemma_zip_lookup(names, vals, k);
    }
}

/// A value free of the escape character stays free of it when its first
/// character is dropped.
proof fn lemma_value_clean_rest(v: Seq<char>, w: WriterOptions)
    requires
        value_clean(v, w),
        v.len() > 0,
    ensures
        value_clean(v.drop_first(), w),
{
    match w.escapechar {
        Some(eb) => {
            assert forall|k: int| 0 <= k < v.drop_first().len() implies !is_byte_char(
                v.drop_first()[k],
                eb,
            ) by {
                assert(v.drop_first()[k] == v[k + 1]);
                if is_byte_char(v[k + 1], eb) {
                    assert(contains_byte(v, eb));
                }
            }
            assert(!contains_byte(v.drop_first(), eb));
        },
        None => {},
    }
}

} // verus!
