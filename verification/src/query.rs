//! Query construction: the key/value rows the composer edits, the rows
//! that count toward the effective request, percent-encoding, and the
//! final URL with its query string.
use vstd::prelude::*;

verus! {

use crate::text::chars_to_string;
use crate::text::str_to_chars;

/// One editable row of the parameters or headers table.
#[derive(Clone, Debug, PartialEq, Eq)]
pub struct KeyValuePair {
    pub key: String,
    pub value: String,
    pub enabled: bool,
}

/// The mathematical shape of one row.
#[verifier::ext_equal]
pub struct KeyValuePairV {
    pub key: Seq<char>,
    pub value: Seq<char>,
    pub enabled: bool,
}

impl View for KeyValuePair {
    type V = KeyValuePairV;

    open spec fn view(&self) -> KeyValuePairV {
        KeyValuePairV { key: self.key@, value: self.value@, enabled: self.enabled }
    }
}

pub open spec fn rows_view(rows: Seq<KeyValuePair>) -> Seq<KeyValuePairV> {
    Seq::new(rows.len(), |i: int| rows[i]@)
}

/// The rows that count toward the effective request: enabled rows whose
/// key is nonempty, in their original order. A row with an empty key is
/// excluded whatever its enabled flag says.
pub open spec fn effective(rows: Seq<KeyValuePairV>) -> Seq<(Seq<char>, Seq<char>)>
    decreases rows.len(),
{
    if rows.len() == 0 {
        Seq::empty()
    } else {
        (if rows[0].enabled && rows[0].key.len() > 0 {
            seq![(rows[0].key, rows[0].value)]
        } else {
            Seq::empty()
        }) + effective(rows.drop_first())
    }
}

/// Every effective row has a nonempty key: a row with an empty key never
/// reaches the request, enabled or not.
pub proof fn lemma_empty_key_rows_excluded(rows: Seq<KeyValuePairV>)
    ensures
        forall|j: int|
            0 <= j < effective(rows).len() ==> (#[trigger] effective(rows)[j]).0.len() > 0,
    decreases rows.len(),
{
    if rows.len() > 0 {
        lemma_empty_key_rows_excluded(rows.drop_first());
        let hd: Seq<(Seq<char>, Seq<char>)> = if rows[0].enabled && rows[0].key.len() > 0 {
            seq![(rows[0].key, rows[0].value)]
        } else {
            Seq::empty()
        };
        assert forall|j: int| 0 <= j < effective(rows).len() implies (#[trigger] effective(
            rows,
        )[j]).0.len() > 0 by {
            if j >= hd.len() {
                assert(effective(rows)[j] == effective(rows.drop_first())[j - hd.len()]);
            }
        }
    }
}

/// A disabled or empty-key row leaves the effective request unchanged.
pub proof fn lemma_excluded_row_invisible(rows: Seq<KeyValuePairV>, row: KeyValuePairV)
    requires
        !row.enabled || row.key.len() == 0,
    ensures
        effective(rows.push(row)) == effective(rows),
    decreases rows.len(),
{
    if rows.len() == 0 {
        assert(rows.push(row).drop_first() =~= rows);
        assert(effective(rows.push(row)) =~= effective(rows));
    } else {
        assert(rows.push(row).drop_first() =~= rows.drop_first().push(row));
        lemma_excluded_row_invisible(rows.drop_first(), row);
        assert(effective(rows.push(row)) =~= effective(rows));
    }
}

/// The effective pairs of a row vector.
pub fn effective_pairs(rows: &Vec<KeyValuePair>) -> (out: Vec<(String, String)>)
    ensures
        crate::record::pairs_view(out@) == effective(rows_view(rows@)),
{
    let ghost rv = rows_view(rows@);
    let mut out: Vec<(String, String)> = Vec::new();
    let mut i: usize = 0;
    proof {
        assert(rv.skip(0) =~= rv);
        assert(crate::record::pairs_view(out@) + effective(rv.skip(0)) =~= effective(rv));
    }
    while i < rows.len()
        invariant
            i <= rows.len(),
            rv == rows_view(rows@),
            effective(rv) == crate::record::pairs_view(out@) + effective(rv.skip(i as int)),
        decreases rows.len() - i,
    {
        proof {
            assert(rv.skip(i as int)[0] == rv[i as int]);
            assert(rv.skip(i as int).drop_first() =~= rv.skip(i as int + 1));
        }
        if rows[i].enabled && !rows[i].key.as_str().is_empty() {
            out.push((rows[i].key.clone(), rows[i].value.clone()));
            proof {
                assert(crate::record::pairs_view(out@) =~= crate::record::pairs_view(
                    out@.take(out@.len() - 1),
                ) + seq![(rv[i as int].key, rv[i as int].value)]);
                assert(effective(rv) =~= crate::record::pairs_view(out@) + effective(
                    rv.skip(i as int + 1),
                ));
            }
        } else {
            proof {
                assert(effective(rv) =~= crate::record::pairs_view(out@) + effective(
                    rv.skip(i as int + 1),
                ));
            }
        }
        i = i + 1;
    }
    proof {
        assert(effective(rv.skip(rv.len() as int)) =~= Seq::<(Seq<char>, Seq<char>)>::empty());
        assert(crate::record::pairs_view(out@) =~= effective(rv));
    }
    out
}

// ===== percent-encoding =====

/// Characters that pass through the encoding unchanged.
pub open spec fn is_unreserved(c: char) -> bool {
    ('a' <= c && c <= 'z') || ('A' <= c && c <= 'Z') || ('0' <= c && c <= '9') || c == '-' || c
        == '_' || c == '.' || c == '~'
}

/// The upper-case hexadecimal digits of `n`, most significant first.
pub open spec fn hex_digits(n: nat) -> Seq<char>
    decreases n,
{
    if n < 16 {
        seq![crate::json::hex_digit(n)]
    } else {
        hex_digits(n / 16) + seq![crate::json::hex_digit(n % 16)]
    }
}

/// How one character is written in a query: unreserved characters stand as
/// themselves, a space becomes `+`, anything else a `%` escape of its
/// scalar value, zero-padded to at least two digits.
pub open spec fn enc_char(c: char) -> Seq<char> {
    if is_unreserved(c) {
        seq![c]
    } else if c == ' ' {
        seq!['+']
    } else if (c as u32) < 16 {
        seq!['%', '0'] + hex_digits((c as u32) as nat)
    } else {
        seq!['%'] + hex_digits((c as u32) as nat)
    }
}

pub open spec fn urlencode(s: Seq<char>) -> Seq<char>
    decreases s.len(),
{
    if s.len() == 0 {
        Seq::empty()
    } else {
        enc_char(s[0]) + urlencode(s.drop_first())
    }
}

proof fn lemma_urlencode_push(s: Seq<char>, c: char)
    ensures
        urlencode(s.push(c)) == urlencode(s) + enc_char(c),
    decreases s.len(),
{
    if s.len() == 0 {
        assert(s.push(c).drop_first() =~= s);
        assert(urlencode(s.push(c)) =~= urlencode(s) + enc_char(c));
    } else {
        assert(s.push(c)[0] == s[0]);
        assert(s.push(c).drop_first() =~= s.drop_first().push(c));
        lemma_urlencode_push(s.drop_first(), c);
        assert(urlencode(s.push(c)) =~= urlencode(s) + enc_char(c));
    }
}

/// Writes the hexadecimal digits of `n`.
fn push_hex(n: u32, out: &mut Vec<char>)
    ensures
        final(out)@ == old(out)@ + hex_digits(n as nat),
    decreases n,
{
    if n < 16 {
        let d = hex_digit_char(n);
        out.push(d);
        proof {
            assert(out@ =~= old(out)@ + hex_digits(n as nat));
        }
    } else {
        push_hex(n / 16, out);
        let d = hex_digit_char(n % 16);
        out.push(d);
        proof {
            assert(out@ =~= old(out)@ + hex_digits(n as nat));
        }
    }
}

fn hex_digit_char(n: u32) -> (c: char)
    requires
        n < 16,
    ensures
        c == crate::json::hex_digit(n as nat),
{
    if n == 0 {
        '0'
    } else if n == 1 {
        '1'
    } else if n == 2 {
        '2'
    } else if n == 3 {
        '3'
    } else if n == 4 {
        '4'
    } else if n == 5 {
        '5'
    } else if n == 6 {
        '6'
    } else if n == 7 {
        '7'
    } else if n == 8 {
        '8'
    } else if n == 9 {
        '9'
    } else if n == 10 {
        'A'
    } else if n == 11 {
        'B'
    } else if n == 12 {
        'C'
    } else if n == 13 {
        'D'
    } else if n == 14 {
        'E'
    } else {
        'F'
    }
}

/// Writes the query encoding of `s`.
fn push_urlencode(s: &str, out: &mut Vec<char>)
    ensures
        final(out)@ == old(out)@ + urlencode(s@),
{
    let cs = str_to_chars(s);
    let mut i: usize = 0;
    proof {
        assert(out@ =~= old(out)@ + urlencode(s@.take(0)));
    }
    while i < cs.len()
        invariant
            i <= cs.len(),
            cs@ == s@,
            out@ == old(out)@ + urlencode(s@.take(i as int)),
        decreases cs.len() - i,
    {
        let c = cs[i];
        if ('a' <= c && c <= 'z') || ('A' <= c && c <= 'Z') || ('0' <= c && c <= '9') || c == '-'
            || c == '_' || c == '.' || c == '~' {
            out.push(c);
        } else if c == ' ' {
            out.push('+');
        } else if (c as u32) < 16 {
            out.push('%');
            out.push('0');
            push_hex(c as u32, out);
        } else {
            out.push('%');
            push_hex(c as u32, out);
        }
        proof {
            lemma_urlencode_push(s@.take(i as int), c);
            assert(s@.take(i as int).push(c) =~= s@.take(i as int + 1));
            assert(out@ =~= old(out)@ + urlencode(s@.take(i as int + 1)));
        }
        i = i + 1;
    }
    proof {
        assert(s@.take(s@.len() as int) =~= s@);
    }
}

/// The query encoding of `s`.
pub fn urlencoding(s: &str) -> (r: String)
    ensures
        r@ == urlencode(s@),
{
    let mut out: Vec<char> = Vec::new();
    proof {
        assert(out@ =~= Seq::<char>::empty());
    }
    push_urlencode(s, &mut out);
    proof {
        assert(out@ =~= urlencode(s@));
    }
    chars_to_string(&out)
}

// ===== the effective URL =====

/// The query string of the effective pairs: `k=v`, joined with `&`, both
/// sides percent-encoded.
pub open spec fn query_of(pairs: Seq<(Seq<char>, Seq<char>)>) -> Seq<char>
    decreases pairs.len(),
{
    if pairs.len() == 0 {
        Seq::empty()
    } else {
        let head = urlencode(pairs[0].0) + seq!['='] + urlencode(pairs[0].1);
        if pairs.len() == 1 {
            head
        } else {
            head + seq!['&'] + query_of(pairs.drop_first())
        }
    }
}

pub open spec fn contains_char(s: Seq<char>, c: char) -> bool {
    exists|i: int| 0 <= i < s.len() && s[i] == c
}

/// The URL a request is dispatched to: the base URL as typed; when any
/// effective parameter exists, the query string follows, after `?`, or
/// after `&` when the base URL already has a query part.
pub open spec fn spec_build_url(url: Seq<char>, rows: Seq<KeyValuePairV>) -> Seq<char> {
    let ps = effective(rows);
    if ps.len() == 0 {
        url
    } else if contains_char(url, '?') {
        url + seq!['&'] + query_of(ps)
    } else {
        url + seq!['?'] + query_of(ps)
    }
}

/// The URL with the effective parameters attached.
pub fn build_url_with_params(url: &str, params: &Vec<KeyValuePair>) -> (r: String)
    ensures
        r@ == spec_build_url(url@, rows_view(params@)),
{
    let ps = effective_pairs(params);
    let ghost psv = effective(rows_view(params@));
    if ps.len() == 0 {
        proof {
            assert(psv.len() == 0);
        }
        let cs = str_to_chars(url);
        return chars_to_string(&cs);
    }
    let cs = str_to_chars(url);
    let mut has_q: bool = false;
    let mut i: usize = 0;
    while i < cs.len()
        invariant
            i <= cs.len(),
            cs@ == url@,
            has_q == exists|t: int| 0 <= t < i && url@[t] == '?',
        decreases cs.len() - i,
    {
        if cs[i] == '?' {
            has_q = true;
        }
        i = i + 1;
    }
    proof {
        assert(has_q == contains_char(url@, '?'));
    }
    let mut out = str_to_chars(url);
    if has_q {
        out.push('&');
    } else {
        out.push('?');
    }
    let ghost prefix = out@;
    let mut k: usize = 0;
    proof {
        assert(psv.skip(0) =~= psv);
    }
    while k < ps.len()
        invariant
            k <= ps.len(),
            psv == effective(rows_view(params@)),
            crate::record::pairs_view(ps@) == psv,
            psv.len() == ps@.len(),
            out@ + query_of(psv.skip(k as int)) == prefix + query_of(psv),
        decreases ps.len() - k,
    {
        proof {
            assert(psv.skip(k as int)[0] == psv[k as int]);
            assert(psv[k as int] == (ps@[k as int].0@, ps@[k as int].1@));
            assert(psv.skip(k as int).drop_first() =~= psv.skip(k as int + 1));
        }
        push_urlencode(ps[k].0.as_str(), &mut out);
        out.push('=');
        push_urlencode(ps[k].1.as_str(), &mut out);
        if k + 1 < ps.len() {
            out.push('&');
            proof {
                assert(out@ + query_of(psv.skip(k as int + 1)) =~= prefix + query_of(psv));
            }
        } else {
            proof {
                assert(psv.skip(k as int).len() == 1);
                assert(query_of(psv.skip(k as int + 1)) =~= Seq::<char>::empty());
                assert(out@ + query_of(psv.skip(k as int + 1)) =~= prefix + query_of(psv));
            }
        }
        k = k + 1;
    }
    proof {
        assert(psv.skip(psv.len() as int).len() == 0);
        assert(query_of(psv.skip(psv.len() as int)) =~= Seq::<char>::empty());
        assert(out@ =~= prefix + query_of(psv));
    }
    proof {
        assert(out@ =~= spec_build_url(url@, rows_view(params@)));
    }
    chars_to_string(&out)
}

} // verus!
