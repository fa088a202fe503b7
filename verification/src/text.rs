use vstd::prelude::*;

verus! {

/// The characters with the Unicode `White_Space` property: what field
/// trimming and `skip_initial_space` treat as whitespace.
pub open spec fn is_space(c: char) -> bool {
    c == ' ' || c == '\t' || c == '\n' || c == '\r' || c == '\u{B}' || c == '\u{C}'
        || c == '\u{85}' || c == '\u{A0}' || c == '\u{1680}'
        || (0x2000 <= c as u32 && c as u32 <= 0x200A)
        || c == '\u{2028}' || c == '\u{2029}' || c == '\u{202F}' || c == '\u{3000}'
        || c == '\u{205F}'
}

/// Runtime test for [`is_space`].
pub fn char_is_space(c: char) -> (r: bool)
    ensures
        r == is_space(c),
{
    c == ' ' || c == '\t' || c == '\n' || c == '\r' || c == '\u{B}' || c == '\u{C}'
        || c == '\u{85}' || c == '\u{A0}' || c == '\u{1680}'
        || (0x2000 <= c as u32 && c as u32 <= 0x200A)
        || c == '\u{2028}' || c == '\u{2029}' || c == '\u{202F}' || c == '\u{3000}'
        || c == '\u{205F}'
}

/// What `char::is_numeric` returns for a character; the classification
/// depends on the character alone.
pub uninterp spec fn is_numeric_char(c: char) -> bool;

/// Relies on `char::is_numeric`: classification by the character's Unicode
/// general category, a function of the character alone; the ASCII digits
/// are numeric.
#[verifier::external_body]
pub fn char_is_numeric(c: char) -> (r: bool)
    ensures
        r == is_numeric_char(c),
        ('0' as u32 <= c as u32 && c as u32 <= '9' as u32) ==> r,
{
    c.is_numeric()
}

/// Relies on `String::push`: appends the character to the end of the string.
pub assume_specification[ String::push ](s: &mut String, ch: char)
    ensures
        final(s)@ == old(s)@.push(ch),
;

/// String equality, decided character by character.
pub fn str_eq(a: &str, b: &str) -> (r: bool)
    ensures
        r == (a@ == b@),
{
    let alen: usize = a.unicode_len();
    let blen: usize = b.unicode_len();
    if alen != blen {
        return false;
    }
    let mut i: usize = 0;
    while i < alen
        invariant
            i <= alen,
            alen == a@.len(),
            blen == b@.len(),
            alen == blen,
            forall|j: int| 0 <= j < i ==> a@[j] == b@[j],
        decreases alen - i,
    {
        if a.get_char(i) != b.get_char(i) {
            return false;
        }
        i = i + 1;
    }
    proof {
        assert(a@ =~= b@);
    }
    true
}

/// One step of plain splitting: scanning from `i`, the text after `start`
/// up to the next separator occurrence becomes the next piece; the scan
/// is greedy from the left and occurrences do not overlap.
pub open spec fn split_from(
    s: Seq<char>,
    sep: Seq<char>,
    i: int,
    start: int,
    acc: Seq<Seq<char>>,
) -> Seq<Seq<char>>
    decreases s.len() - i,
{
    if i < 0 || sep.len() < 1 || i + sep.len() > s.len() {
        acc.push(s.subrange(start, s.len() as int))
    } else if s.subrange(i, i + sep.len()) == sep {
        split_from(s, sep, i + sep.len(), i + sep.len(), acc.push(s.subrange(start, i)))
    } else {
        split_from(s, sep, i + 1, start, acc)
    }
}

/// The pieces a text splits into around a separator, as `str::split`
/// yields them: leftmost occurrences first, empty pieces kept.
pub open spec fn spec_split(s: Seq<char>, sep: Seq<char>) -> Seq<Seq<char>> {
    split_from(s, sep, 0, 0, Seq::empty())
}

/// The pieces joined back, with the separator between neighbours.
pub open spec fn spec_join(vals: Seq<Seq<char>>, sep: Seq<char>) -> Seq<char>
    decreases vals.len(),
{
    if vals.len() == 0 {
        Seq::empty()
    } else if vals.len() == 1 {
        vals[0]
    } else {
        spec_join(vals.drop_last(), sep) + sep + vals.last()
    }
}

/// Does the separator stand at position `i` of the line?
fn sep_at(line: &str, n: usize, sep: &str, m: usize, i: usize) -> (r: bool)
    requires
        n == line@.len(),
        m == sep@.len(),
        i + m <= n,
    ensures
        r == (line@.subrange(i as int, i as int + m as int) == sep@),
{
    let mut k: usize = 0;
    while k < m
        invariant
            k <= m,
            n == line@.len(),
            m == sep@.len(),
            i + m <= n,
            forall|j: int| 0 <= j < k ==> line@[i + j] == sep@[j],
        decreases m - k,
    {
        if line.get_char(i + k) != sep.get_char(k) {
            proof {
                assert(line@.subrange(i as int, i as int + m as int)[k as int] == line@[i + k]);
            }
            return false;
        }
        k = k + 1;
    }
    proof {
        assert(line@.subrange(i as int, i as int + m as int) =~= sep@);
    }
    true
}

/// Split a line around a separator, without any quote handling: the plain
/// dialect of `str::split`.
pub fn split_plain(line: &str, sep: &str) -> (r: Vec<String>)
    requires
        sep@.len() >= 1,
    ensures
        r.deep_view() == spec_split(line@, sep@),
{
    let n: usize = line.unicode_len();
    let m: usize = sep.unicode_len();
    let mut acc: Vec<String> = Vec::new();
    let mut i: usize = 0;
    let mut start: usize = 0;
    proof {
        assert(acc.deep_view() =~= Seq::<Seq<char>>::empty());
    }
    while m <= n && i <= n - m
        invariant
            0 <= start <= i <= n,
            n == line@.len(),
            m == sep@.len(),
            m >= 1,
            spec_split(line@, sep@) == split_from(
                line@,
                sep@,
                i as int,
                start as int,
                acc.deep_view(),
            ),
        decreases n - i,
    {
        if sep_at(line, n, sep, m, i) {
            let ghost pre: Seq<Seq<char>> = acc.deep_view();
            let piece = line.substring_char(start, i).to_owned();
            acc.push(piece);
            proof {
                assert(acc.deep_view() =~= pre.push(line@.subrange(start as int, i as int)));
            }
            i = i + m;
            start = i;
        } else {
            i = i + 1;
        }
    }
    let ghost pre: Seq<Seq<char>> = acc.deep_view();
    let last = line.substring_char(start, n).to_owned();
    acc.push(last);
    proof {
        assert(acc.deep_view() =~= pre.push(line@.subrange(start as int, n as int)));
    }
    acc
}

/// Join pieces with the separator between neighbours, without quoting.
pub fn join_plain(vals: &Vec<String>, sep: &str) -> (r: String)
    ensures
        r@ == spec_join(vals.deep_view(), sep@),
{
    let ghost dv: Seq<Seq<char>> = vals.deep_view();
    let mut out = String::new();
    let mut i: usize = 0;
    while i < vals.len()
        invariant
            i <= vals.len(),
            dv == vals.deep_view(),
            dv.len() == vals.len(),
            out@ == spec_join(dv.subrange(0, i as int), sep@) + (if 0 < i < vals.len() {
                sep@
            } else {
                Seq::<char>::empty()
            }),
        decreases vals.len() - i,
    {
        out.append(vals[i].as_str());
        if i + 1 < vals.len() {
            out.append(sep);
        }
        proof {
            if i > 0 {
                assert(dv.subrange(0, i as int + 1).drop_last() =~= dv.subrange(0, i as int));
                assert(dv.subrange(0, i as int + 1).last() == dv[i as int]);
            } else {
                assert(dv.subrange(0, 1)[0] == dv[0]);
            }
        }
        i = i + 1;
    }
    proof {
        if vals.len() > 0 {
            assert(dv.subrange(0, dv.len() as int) =~= dv);
        }
    }
    out
}

} // verus!
