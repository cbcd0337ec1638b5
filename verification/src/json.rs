//! A JSON document model with a canonical pretty printer and a parser.
//! Saved request files and the configuration file are JSON, and a structured
//! response body is re-rendered through this codec, so the codec defines
//! exactly what the library writes and what it accepts.
use vstd::prelude::*;

verus! {

broadcast use vstd::seq::axiom_seq_index_decreases, vstd::seq::axiom_seq_subrange_decreases;
// ===== the document model =====

/// A JSON document. A number keeps its source text (the library's own
/// records contain none), so re-printing a parsed document loses nothing.
#[derive(Debug, PartialEq, Eq)]
pub enum JsonValue {
    Null,
    Bool(bool),
    Num(String),
    Str(String),
    Arr(Vec<JsonValue>),
    Obj(Vec<(String, JsonValue)>),
}

/// The mathematical shape of a JSON document.
#[verifier::ext_equal]
pub enum JsonV {
    Null,
    Bool(bool),
    Num(Seq<char>),
    Str(Seq<char>),
    Arr(Seq<JsonV>),
    Obj(Seq<(Seq<char>, JsonV)>),
}

pub open spec fn view_json(v: JsonValue) -> JsonV
    decreases v,
{
    match v {
        JsonValue::Null => JsonV::Null,
        JsonValue::Bool(b) => JsonV::Bool(b),
        JsonValue::Num(s) => JsonV::Num(s@),
        JsonValue::Str(s) => JsonV::Str(s@),
        JsonValue::Arr(es) => JsonV::Arr(view_json_elems(es@)),
        JsonValue::Obj(ms) => JsonV::Obj(view_json_membs(ms@)),
    }
}

pub open spec fn view_json_elems(es: Seq<JsonValue>) -> Seq<JsonV>
    decreases es,
{
    if es.len() == 0 {
        Seq::empty()
    } else {
        seq![view_json(es[0])] + view_json_elems(es.drop_first())
    }
}

pub open spec fn view_json_membs(ms: Seq<(String, JsonValue)>) -> Seq<(Seq<char>, JsonV)>
    decreases ms,
{
    if ms.len() == 0 {
        Seq::empty()
    } else {
        seq![(ms[0].0@, view_json(ms[0].1))] + view_json_membs(ms.drop_first())
    }
}

impl View for JsonValue {
    type V = JsonV;

    open spec fn view(&self) -> JsonV {
        view_json(*self)
    }
}

/// Well-formed documents: every number holds a valid JSON number text.
/// These are exactly the documents whose printed form parses back.
pub open spec fn wf_json(m: JsonV) -> bool
    decreases m,
{
    match m {
        JsonV::Num(lex) => valid_number(lex) && (forall|i: int|
            0 <= i < lex.len() ==> is_num_char(#[trigger] lex[i])),
        JsonV::Arr(es) => forall|i: int| 0 <= i < es.len() ==> wf_json(#[trigger] es[i]),
        JsonV::Obj(ms) => forall|i: int| 0 <= i < ms.len() ==> wf_json(#[trigger] ms[i].1),
        _ => true,
    }
}

// ===== the canonical printed form =====

/// `n` spaces.
pub open spec fn spaces(n: nat) -> Seq<char>
    decreases n,
{
    if n == 0 {
        Seq::empty()
    } else {
        spaces((n - 1) as nat).push(' ')
    }
}

/// The upper-case hexadecimal digit for `n < 16`.
pub open spec fn hex_digit(n: nat) -> char {
    if n == 0 {
        '0'
    } else if n == 1 {
        '1'
    } else if n == 2 {
        '2'
    } else if n == 3 {
        '3'
    } else if n == 4 {
        '4'
    } else if n == 5 {
        '5'
    } else if n == 6 {
        '6'
    } else if n == 7 {
        '7'
    } else if n == 8 {
        '8'
    } else if n == 9 {
        '9'
    } else if n == 10 {
        'A'
    } else if n == 11 {
        'B'
    } else if n == 12 {
        'C'
    } else if n == 13 {
        'D'
    } else if n == 14 {
        'E'
    } else {
        'F'
    }
}

/// How one character is written inside a JSON string: quote, backslash and
/// the common control characters get a short escape, other control
/// characters a `\u00XX` escape, everything else stands as itself.
pub open spec fn esc_char(c: char) -> Seq<char> {
    if c == '"' {
        seq!['\\', '"']
    } else if c == '\\' {
        seq!['\\', '\\']
    } else if c == '\n' {
        seq!['\\', 'n']
    } else if c == '\r' {
        seq!['\\', 'r']
    } else if c == '\t' {
        seq!['\\', 't']
    } else if (c as u32) < 0x20 {
        seq!['\\', 'u', '0', '0', hex_digit(((c as u32) / 16) as nat), hex_digit(
            ((c as u32) % 16) as nat,
        )]
    } else {
        seq![c]
    }
}

pub open spec fn esc(s: Seq<char>) -> Seq<char>
    decreases s.len(),
{
    if s.len() == 0 {
        Seq::empty()
    } else {
        esc_char(s[0]) + esc(s.drop_first())
    }
}

pub open spec fn print_string(s: Seq<char>) -> Seq<char> {
    seq!['"'] + esc(s) + seq!['"']
}

/// The canonical printed form of a document at indentation depth `ind`
/// (two spaces per depth; empty arrays and objects print closed).
pub open spec fn print_json(m: JsonV, ind: nat) -> Seq<char>
    decreases m, 0int,
{
    match m {
        JsonV::Null => seq!['n', 'u', 'l', 'l'],
        JsonV::Bool(b) => if b {
            seq!['t', 'r', 'u', 'e']
        } else {
            seq!['f', 'a', 'l', 's', 'e']
        },
        JsonV::Num(lex) => lex,
        JsonV::Str(s) => print_string(s),
        JsonV::Arr(es) => if es.len() == 0 {
            seq!['[', ']']
        } else {
            seq!['[', '\n'] + spaces(2 * (ind + 1)) + print_items(es, 0, ind)
        },
        JsonV::Obj(ms) => if ms.len() == 0 {
            seq!['{', '}']
        } else {
            seq!['{', '\n'] + spaces(2 * (ind + 1)) + print_members(ms, 0, ind)
        },
    }
}

/// Array elements from position `k` on, with the separators between them and
/// the closing bracket (the opening bracket and the first indentation are
/// written by `print_json`).
pub open spec fn print_items(es: Seq<JsonV>, k: int, ind: nat) -> Seq<char>
    decreases es, es.len() - k,
{
    if 0 <= k < es.len() {
        print_json(es[k], ind + 1) + (if k == es.len() - 1 {
            seq!['\n'] + spaces(2 * ind) + seq![']']
        } else {
            seq![',', '\n'] + spaces(2 * (ind + 1)) + print_items(es, k + 1, ind)
        })
    } else {
        Seq::empty()
    }
}

/// Object members from position `k` on, as `print_items`.
pub open spec fn print_members(ms: Seq<(Seq<char>, JsonV)>, k: int, ind: nat) -> Seq<char>
    decreases ms, ms.len() - k,
{
    if 0 <= k < ms.len() {
        print_string(ms[k].0) + seq![':', ' '] + print_json(ms[k].1, ind + 1) + (if k == ms.len()
            - 1 {
            seq!['\n'] + spaces(2 * ind) + seq!['}']
        } else {
            seq![',', '\n'] + spaces(2 * (ind + 1)) + print_members(ms, k + 1, ind)
        })
    } else {
        Seq::empty()
    }
}

// ===== the parser =====

/// JSON insignificant whitespace.
pub open spec fn is_ws(c: char) -> bool {
    c == ' ' || c == '\n' || c == '\r' || c == '\t'
}

/// `s` without its leading whitespace.
pub open spec fn skip_ws(s: Seq<char>) -> Seq<char>
    decreases s.len(),
{
    if s.len() > 0 && is_ws(s[0]) {
        skip_ws(s.drop_first())
    } else {
        s
    }
}

pub open spec fn is_digit(c: char) -> bool {
    '0' <= c && c <= '9'
}

/// The numeric value of a hexadecimal digit, either case.
pub open spec fn hex_val(c: char) -> Option<u32> {
    if '0' <= c && c <= '9' {
        Some(((c as u32) - 48) as u32)
    } else if 'a' <= c && c <= 'f' {
        Some(((c as u32) - 87) as u32)
    } else if 'A' <= c && c <= 'F' {
        Some(((c as u32) - 55) as u32)
    } else {
        None
    }
}

/// The value of the first four characters of `s` read as hexadecimal digits.
pub open spec fn hex4_val(s: Seq<char>) -> Option<u32> {
    if s.len() >= 4 {
        if hex_val(s[0]) is Some && hex_val(s[1]) is Some && hex_val(s[2]) is Some && hex_val(
            s[3],
        ) is Some {
            Some(
                (hex_val(s[0])->0 * 4096 + hex_val(s[1])->0 * 256 + hex_val(s[2])->0 * 16 + hex_val(
                    s[3],
                )->0) as u32,
            )
        } else {
            None
        }
    } else {
        None
    }
}

/// Parses the inside of a string literal (the opening quote is consumed);
/// returns the decoded characters and what follows the closing quote.
pub open spec fn parse_str_chars(s: Seq<char>) -> Option<(Seq<char>, Seq<char>)>
    decreases s.len(),
{
    if s.len() == 0 {
        None
    } else if s[0] == '"' {
        Some((Seq::empty(), s.drop_first()))
    } else if s[0] == '\\' {
        if s.len() < 2 {
            None
        } else {
            let e = s[1];
            if e == '"' || e == '\\' || e == '/' {
                prepend_char(e, parse_str_chars(s.skip(2)))
            } else if e == 'n' {
                prepend_char('\n', parse_str_chars(s.skip(2)))
            } else if e == 'r' {
                prepend_char('\r', parse_str_chars(s.skip(2)))
            } else if e == 't' {
                prepend_char('\t', parse_str_chars(s.skip(2)))
            } else if e == 'b' {
                prepend_char('\u{0008}', parse_str_chars(s.skip(2)))
            } else if e == 'f' {
                prepend_char('\u{000C}', parse_str_chars(s.skip(2)))
            } else if e == 'u' {
                if s.len() < 6 {
                    None
                } else {
                    match hex4_val(s.subrange(2, 6)) {
                        None => None,
                        Some(v) => if v < 0xD800 || v > 0xDFFF {
                            prepend_char(v as char, parse_str_chars(s.skip(6)))
                        } else if v < 0xDC00 {
                            // high surrogate: a low surrogate escape must follow
                            if s.len() >= 12 && s[6] == '\\' && s[7] == 'u' {
                                match hex4_val(s.subrange(8, 12)) {
                                    Some(w) => if 0xDC00 <= w && w <= 0xDFFF {
                                        prepend_char(
                                            ((0x10000 + (v - 0xD800) * 0x400 + (w
                                                - 0xDC00)) as u32) as char,
                                            parse_str_chars(s.skip(12)),
                                        )
                                    } else {
                                        None
                                    },
                                    None => None,
                                }
                            } else {
                                None
                            }
                        } else {
                            None  // a lone low surrogate
                        },
                    }
                }
            } else {
                None
            }
        }
    } else if (s[0] as u32) < 0x20 {
        None  // control characters must be escaped
    } else {
        prepend_char(s[0], parse_str_chars(s.drop_first()))
    }
}

pub open spec fn prepend_char(c: char, r: Option<(Seq<char>, Seq<char>)>) -> Option<
    (Seq<char>, Seq<char>),
> {
    match r {
        Some(p) => Some((seq![c] + p.0, p.1)),
        None => None,
    }
}

/// Parses a string literal at the head of `s`.
pub open spec fn parse_string(s: Seq<char>) -> Option<(Seq<char>, Seq<char>)> {
    if s.len() > 0 && s[0] == '"' {
        parse_str_chars(s.drop_first())
    } else {
        None
    }
}

/// Characters that can continue a number text.
pub open spec fn is_num_char(c: char) -> bool {
    is_digit(c) || c == '-' || c == '+' || c == '.' || c == 'e' || c == 'E'
}

/// The length of the maximal prefix of number characters.
pub open spec fn num_split(s: Seq<char>) -> int
    decreases s.len(),
{
    if s.len() > 0 && is_num_char(s[0]) {
        1 + num_split(s.drop_first())
    } else {
        0
    }
}

/// The position after a run of decimal digits starting at `i`.
pub open spec fn digits_end(s: Seq<char>, i: int) -> int
    decreases s.len() - i,
{
    if 0 <= i < s.len() && is_digit(s[i]) {
        digits_end(s, i + 1)
    } else {
        i
    }
}

/// The JSON number grammar: optional minus, an integer part without leading
/// zeros, an optional fraction, an optional exponent, nothing after.
pub open spec fn valid_number(lex: Seq<char>) -> bool {
    let i0: int = if lex.len() > 0 && lex[0] == '-' {
        1
    } else {
        0
    };
    if i0 >= lex.len() || !is_digit(lex[i0]) {
        false
    } else {
        let i1: int = if lex[i0] == '0' {
            i0 + 1
        } else {
            digits_end(lex, i0)
        };
        let i2: int = if i1 < lex.len() && lex[i1] == '.' {
            if i1 + 1 < lex.len() && is_digit(lex[i1 + 1]) {
                digits_end(lex, i1 + 1)
            } else {
                -1
            }
        } else {
            i1
        };
        if i2 < 0 {
            false
        } else {
            let i3: int = if i2 < lex.len() && (lex[i2] == 'e' || lex[i2] == 'E') {
                let j: int = if i2 + 1 < lex.len() && (lex[i2 + 1] == '-' || lex[i2 + 1]
                    == '+') {
                    i2 + 2
                } else {
                    i2 + 1
                };
                if j < lex.len() && is_digit(lex[j]) {
                    digits_end(lex, j)
                } else {
                    -1
                }
            } else {
                i2
            };
            i3 == lex.len()
        }
    }
}

/// Parses a number at the head of `s`: the maximal run of number characters,
/// which must satisfy the number grammar.
pub open spec fn parse_number(s: Seq<char>) -> Option<(JsonV, Seq<char>)> {
    let n = num_split(s);
    let lex = s.take(n);
    if valid_number(lex) {
        Some((JsonV::Num(lex), s.skip(n)))
    } else {
        None
    }
}

pub open spec fn starts_with(s: Seq<char>, w: Seq<char>) -> bool {
    w.len() <= s.len() && s.take(w.len() as int) == w
}

/// Parses one JSON value at the head of `s` (no leading whitespace);
/// returns the document and the unconsumed remainder.
pub open spec fn parse_value(s: Seq<char>) -> Option<(JsonV, Seq<char>)>
    decreases s.len(), 1int,
{
    if s.len() == 0 {
        None
    } else if s[0] == 'n' {
        if starts_with(s, seq!['n', 'u', 'l', 'l']) {
            Some((JsonV::Null, s.skip(4)))
        } else {
            None
        }
    } else if s[0] == 't' {
        if starts_with(s, seq!['t', 'r', 'u', 'e']) {
            Some((JsonV::Bool(true), s.skip(4)))
        } else {
            None
        }
    } else if s[0] == 'f' {
        if starts_with(s, seq!['f', 'a', 'l', 's', 'e']) {
            Some((JsonV::Bool(false), s.skip(5)))
        } else {
            None
        }
    } else if s[0] == '"' {
        match parse_string(s) {
            Some(p) => Some((JsonV::Str(p.0), p.1)),
            None => None,
        }
    } else if s[0] == '-' || is_digit(s[0]) {
        parse_number(s)
    } else if s[0] == '[' {
        let r = skip_ws(s.drop_first());
        if r.len() > 0 && r[0] == ']' {
            Some((JsonV::Arr(Seq::empty()), r.drop_first()))
        } else if r.len() < s.len() {
            match parse_items(r) {
                Some(p) => Some((JsonV::Arr(p.0), p.1)),
                None => None,
            }
        } else {
            None
        }
    } else if s[0] == '{' {
        let r = skip_ws(s.drop_first());
        if r.len() > 0 && r[0] == '}' {
            Some((JsonV::Obj(Seq::empty()), r.drop_first()))
        } else if r.len() < s.len() {
            match parse_members(r) {
                Some(p) => Some((JsonV::Obj(p.0), p.1)),
                None => None,
            }
        } else {
            None
        }
    } else {
        None
    }
}

/// Parses array elements from the first element on, through the closing
/// bracket; `s` starts at an element.
pub open spec fn parse_items(s: Seq<char>) -> Option<(Seq<JsonV>, Seq<char>)>
    decreases s.len(), 2int,
{
    match parse_value(s) {
        None => None,
        Some(p) => {
            let r = skip_ws(p.1);
            if r.len() > 0 && r[0] == ',' {
                let r2 = skip_ws(r.drop_first());
                if r2.len() < s.len() {
                    match parse_items(r2) {
                        Some(q) => Some((seq![p.0] + q.0, q.1)),
                        None => None,
                    }
                } else {
                    None
                }
            } else if r.len() > 0 && r[0] == ']' {
                Some((seq![p.0], r.drop_first()))
            } else {
                None
            }
        },
    }
}

/// Parses object members from the first member on, through the closing
/// brace; `s` starts at a member's key.
pub open spec fn parse_members(s: Seq<char>) -> Option<(Seq<(Seq<char>, JsonV)>, Seq<char>)>
    decreases s.len(), 2int,
{
    match parse_string(s) {
        None => None,
        Some(kp) => {
            let r = skip_ws(kp.1);
            if r.len() > 0 && r[0] == ':' {
                let r2 = skip_ws(r.drop_first());
                if r2.len() < s.len() {
                    match parse_value(r2) {
                        None => None,
                        Some(vp) => {
                            let r3 = skip_ws(vp.1);
                            if r3.len() > 0 && r3[0] == ',' {
                                let r4 = skip_ws(r3.drop_first());
                                if r4.len() < s.len() {
                                    match parse_members(r4) {
                                        Some(q) => Some((seq![(kp.0, vp.0)] + q.0, q.1)),
                                        None => None,
                                    }
                                } else {
                                    None
                                }
                            } else if r3.len() > 0 && r3[0] == '}' {
                                Some((seq![(kp.0, vp.0)], r3.drop_first()))
                            } else {
                                None
                            }
                        },
                    }
                } else {
                    None
                }
            } else {
                None
            }
        },
    }
}

/// Parses a whole text as one JSON document with nothing but whitespace
/// around it.
pub open spec fn parse_text(s: Seq<char>) -> Option<JsonV> {
    match parse_value(skip_ws(s)) {
        Some(p) => if skip_ws(p.1).len() == 0 {
            Some(p.0)
        } else {
            None
        },
        None => None,
    }
}

// ===== the printed form parses back =====

pub open spec fn all_ws(s: Seq<char>) -> bool {
    forall|i: int| 0 <= i < s.len() ==> is_ws(#[trigger] s[i])
}

proof fn lemma_spaces_all_ws(n: nat)
    ensures
        spaces(n).len() == n,
        all_ws(spaces(n)),
    decreases n,
{
    if n > 0 {
        lemma_spaces_all_ws((n - 1) as nat);
    }
}

/// Skipping whitespace consumes exactly a whitespace prefix when what
/// follows does not start with whitespace.
proof fn lemma_skip_ws_concat(pad: Seq<char>, rest: Seq<char>)
    requires
        all_ws(pad),
        rest.len() == 0 || !is_ws(rest[0]),
    ensures
        skip_ws(pad + rest) == rest,
    decreases pad.len(),
{
    if pad.len() == 0 {
        assert(pad + rest =~= rest);
    } else {
        assert((pad + rest)[0] == pad[0]);
        assert((pad + rest).drop_first() =~= pad.drop_first() + rest);
        lemma_skip_ws_concat(pad.drop_first(), rest);
    }
}

proof fn lemma_hex_digit_val(d: nat)
    requires
        d < 16,
    ensures
        hex_val(hex_digit(d)) == Some(d as u32),
{
}

/// The escaped form of a string parses back to the string, leaving what
/// follows the closing quote untouched.
#[verifier::rlimit(100)]
#[verifier::spinoff_prover]
proof fn lemma_parse_esc(s: Seq<char>, rest: Seq<char>)
    ensures
        parse_str_chars(esc(s) + seq!['"'] + rest) == Some((s, rest)),
    decreases s.len(),
{
    let t = esc(s) + seq!['"'] + rest;
    if s.len() == 0 {
        assert(t[0] == '"');
        assert(t.drop_first() =~= rest);
        assert(parse_str_chars(t) == Some((Seq::<char>::empty(), rest)));
        assert(Seq::<char>::empty() =~= s);
    } else {
        let c = s[0];
        let tail = s.drop_first();
        assert(esc(s) == esc_char(c) + esc(tail));
        let t2 = esc(tail) + seq!['"'] + rest;
        lemma_parse_esc(tail, rest);
        assert(seq![c] + tail =~= s);
        if c == '"' || c == '\\' {
            assert(t =~= seq!['\\', c] + t2);
            assert(t[0] == '\\' && t[1] == c);
            assert(t.skip(2) =~= t2);
        } else if c == '\n' {
            assert(t =~= seq!['\\', 'n'] + t2);
            assert(t.skip(2) =~= t2);
        } else if c == '\r' {
            assert(t =~= seq!['\\', 'r'] + t2);
            assert(t.skip(2) =~= t2);
        } else if c == '\t' {
            assert(t =~= seq!['\\', 't'] + t2);
            assert(t.skip(2) =~= t2);
        } else if (c as u32) < 0x20 {
            let hi = ((c as u32) / 16) as nat;
            let lo = ((c as u32) % 16) as nat;
            assert(t =~= seq!['\\', 'u', '0', '0', hex_digit(hi), hex_digit(lo)] + t2);
            assert(t.len() >= 6);
            assert(t[0] == '\\' && t[1] == 'u');
            lemma_hex_digit_val(hi);
            lemma_hex_digit_val(lo);
            assert(t.subrange(2, 6) =~= seq!['0', '0', hex_digit(hi), hex_digit(lo)]);
            assert(hex_val('0') == Some(0u32));
            let v = hex4_val(t.subrange(2, 6));
            assert(v == Some((hi * 16 + lo) as u32));
            vstd::arithmetic::div_mod::lemma_fundamental_div_mod((c as u32) as int, 16);
            assert(hi * 16 + lo == c as u32);
            assert(v == Some(c as u32));
            vstd::utf8::char_u32_cast(c, c as u32);
            assert(((c as u32) as char) == c);
            assert(t.skip(6) =~= t2);
        } else {
            assert(t =~= seq![c] + t2);
            assert(t[0] == c);
            assert(t[0] != '"' && t[0] != '\\' && !((t[0] as u32) < 0x20));
            assert(t.drop_first() =~= t2);
        }
        assert(parse_str_chars(t) == Some((s, rest)));
    }
}

proof fn lemma_parse_print_string(s: Seq<char>, rest: Seq<char>)
    ensures
        parse_string(print_string(s) + rest) == Some((s, rest)),
{
    let t = print_string(s) + rest;
    assert(t[0] == '"');
    assert(t.drop_first() =~= esc(s) + seq!['"'] + rest);
    lemma_parse_esc(s, rest);
}

/// The maximal run of number characters in `lex + rest` is `lex` itself.
proof fn lemma_num_split(lex: Seq<char>, rest: Seq<char>)
    requires
        forall|i: int| 0 <= i < lex.len() ==> is_num_char(#[trigger] lex[i]),
        rest.len() == 0 || !is_num_char(rest[0]),
    ensures
        num_split(lex + rest) == lex.len(),
    decreases lex.len(),
{
    if lex.len() == 0 {
        assert(lex + rest =~= rest);
    } else {
        assert((lex + rest)[0] == lex[0]);
        assert((lex + rest).drop_first() =~= lex.drop_first() + rest);
        lemma_num_split(lex.drop_first(), rest);
    }
}

proof fn lemma_parse_print_number(lex: Seq<char>, rest: Seq<char>)
    requires
        valid_number(lex),
        forall|i: int| 0 <= i < lex.len() ==> is_num_char(#[trigger] lex[i]),
        rest.len() == 0 || !is_num_char(rest[0]),
    ensures
        parse_number(lex + rest) == Some((JsonV::Num(lex), rest)),
{
    lemma_num_split(lex, rest);
    assert((lex + rest).take(lex.len() as int) =~= lex);
    assert((lex + rest).skip(lex.len() as int) =~= rest);
}

/// A printed document is nonempty, starts with no whitespace, and starts
/// with none of the punctuation the parser looks for after a value.
proof fn lemma_print_head(m: JsonV, ind: nat)
    requires
        wf_json(m),
    ensures
        print_json(m, ind).len() > 0,
        !is_ws(print_json(m, ind)[0]),
        print_json(m, ind)[0] != ',',
        print_json(m, ind)[0] != ']',
        print_json(m, ind)[0] != '}',
        print_json(m, ind)[0] != ':',
{
    match m {
        JsonV::Num(lex) => {
            assert(lex.len() > 0 && is_digit(lex[0]) || lex[0] == '-');
        },
        JsonV::Arr(es) => {
            if es.len() > 0 {
                assert(print_json(m, ind)[0] == '[');
            }
        },
        JsonV::Obj(ms) => {
            if ms.len() > 0 {
                assert(print_json(m, ind)[0] == '{');
            }
        },
        _ => {},
    }
}

/// Parsing the printed form of a well-formed document consumes exactly the
/// printed text, yields the document back, and leaves `rest`, provided
/// `rest` cannot extend a number text.
#[verifier::rlimit(100)]
#[verifier::spinoff_prover]
pub proof fn lemma_parse_print(m: JsonV, ind: nat, rest: Seq<char>)
    requires
        wf_json(m),
        rest.len() == 0 || !is_num_char(rest[0]),
    ensures
        parse_value(print_json(m, ind) + rest) == Some((m, rest)),
    decreases m, 0int,
{
    let t = print_json(m, ind) + rest;
    lemma_print_head(m, ind);
    match m {
        JsonV::Null => {
            assert(t[0] == 'n');
            assert(t.take(4) =~= seq!['n', 'u', 'l', 'l']);
            assert(t.skip(4) =~= rest);
        },
        JsonV::Bool(b) => {
            if b {
                assert(t[0] == 't');
                assert(t.take(4) =~= seq!['t', 'r', 'u', 'e']);
                assert(t.skip(4) =~= rest);
            } else {
                assert(t[0] == 'f');
                assert(t.take(5) =~= seq!['f', 'a', 'l', 's', 'e']);
                assert(t.skip(5) =~= rest);
            }
        },
        JsonV::Num(lex) => {
            lemma_parse_print_number(lex, rest);
            assert(t[0] == lex[0]);
            assert(lex[0] == '-' || is_digit(lex[0]));
            assert(lex[0] != 'n' && lex[0] != 't' && lex[0] != 'f' && lex[0] != '"');
        },
        JsonV::Str(s) => {
            assert(t[0] == '"');
            assert(t =~= print_string(s) + rest);
            lemma_parse_print_string(s, rest);
        },
        JsonV::Arr(es) => {
            if es.len() == 0 {
                assert(t[0] == '[');
                assert(t.drop_first() =~= seq![']'] + rest);
                lemma_skip_ws_concat(Seq::empty(), seq![']'] + rest);
                assert(Seq::<char>::empty() + (seq![']'] + rest) =~= seq![']'] + rest);
                let r = skip_ws(t.drop_first());
                assert(r == seq![']'] + rest);
                assert(r[0] == ']');
                assert(r.drop_first() =~= rest);
                assert(es =~= Seq::<JsonV>::empty());
            } else {
                lemma_parse_print_arr_ne(es, ind, rest);
            }
        },
        JsonV::Obj(ms) => {
            if ms.len() == 0 {
                assert(t[0] == '{');
                assert(t.drop_first() =~= seq!['}'] + rest);
                let r = skip_ws(t.drop_first());
                lemma_skip_ws_concat(Seq::empty(), seq!['}'] + rest);
                assert(Seq::<char>::empty() + (seq!['}'] + rest) =~= seq!['}'] + rest);
                assert(r == seq!['}'] + rest);
                assert(r[0] == '}');
                assert(r.drop_first() =~= rest);
                assert(ms =~= Seq::<(Seq<char>, JsonV)>::empty());
            } else {
                lemma_parse_print_obj_ne(ms, ind, rest);
            }
        },
    }
}

#[verifier::rlimit(100)]
#[verifier::spinoff_prover]
proof fn lemma_parse_print_arr_ne(es: Seq<JsonV>, ind: nat, rest: Seq<char>)
    requires
        es.len() > 0,
        wf_json(JsonV::Arr(es)),
        rest.len() == 0 || !is_num_char(rest[0]),
    ensures
        parse_value(print_json(JsonV::Arr(es), ind) + rest) == Some((JsonV::Arr(es), rest)),
    decreases es, es.len() + 1,
{
    let m = JsonV::Arr(es);
    let t = print_json(m, ind) + rest;
    assert(t[0] == '[');
    let pad = seq!['\n'] + spaces(2 * (ind + 1));
    lemma_spaces_all_ws(2 * (ind + 1));
    let body = print_items(es, 0, ind) + rest;
    assert(t.drop_first() =~= pad + body);
    lemma_print_head(es[0], ind + 1);
    assert(print_items(es, 0, ind)[0] == print_json(es[0], ind + 1)[0]);
    assert(body[0] == print_items(es, 0, ind)[0]);
    assert(!is_ws(body[0]));
    lemma_skip_ws_concat(pad, body);
    let r = skip_ws(t.drop_first());
    assert(r == body);
    assert(r[0] != ']');
    assert(r.len() < t.len());
    lemma_parse_print_items(es, 0, ind, rest);
    assert(parse_items(body) == Some((es.skip(0), rest)));
    assert(es.skip(0) =~= es);
    assert(JsonV::Arr(es.skip(0)) =~= m);
}

#[verifier::rlimit(100)]
#[verifier::spinoff_prover]
proof fn lemma_parse_print_obj_ne(ms: Seq<(Seq<char>, JsonV)>, ind: nat, rest: Seq<char>)
    requires
        ms.len() > 0,
        wf_json(JsonV::Obj(ms)),
        rest.len() == 0 || !is_num_char(rest[0]),
    ensures
        parse_value(print_json(JsonV::Obj(ms), ind) + rest) == Some((JsonV::Obj(ms), rest)),
    decreases ms, ms.len() + 1,
{
    let m = JsonV::Obj(ms);
    let t = print_json(m, ind) + rest;
    assert(t[0] == '{');
    let pad = seq!['\n'] + spaces(2 * (ind + 1));
    lemma_spaces_all_ws(2 * (ind + 1));
    let body = print_members(ms, 0, ind) + rest;
    assert(t.drop_first() =~= pad + body);
    assert(print_members(ms, 0, ind)[0] == '"');
    assert(body[0] == '"');
    lemma_skip_ws_concat(pad, body);
    let r = skip_ws(t.drop_first());
    assert(r == body);
    assert(r[0] != '}');
    assert(r.len() < t.len());
    lemma_parse_print_members(ms, 0, ind, rest);
    assert(parse_members(body) == Some((ms.skip(0), rest)));
    assert(ms.skip(0) =~= ms);
    assert(JsonV::Obj(ms.skip(0)) =~= m);
}

#[verifier::spinoff_prover]
#[verifier::rlimit(100)]
proof fn lemma_parse_print_items(es: Seq<JsonV>, k: int, ind: nat, rest: Seq<char>)
    requires
        0 <= k < es.len(),
        forall|i: int| 0 <= i < es.len() ==> wf_json(#[trigger] es[i]),
        rest.len() == 0 || !is_num_char(rest[0]),
    ensures
        parse_items(print_items(es, k, ind) + rest) == Some((es.skip(k), rest)),
    decreases es, es.len() - k,
{
    if k == es.len() - 1 {
        lemma_parse_print_items_last(es, k, ind, rest);
    } else {
        lemma_parse_print_items(es, k + 1, ind, rest);
        lemma_print_head(es[k + 1], ind + 1);
        assert(print_items(es, k + 1, ind)[0] == print_json(es[k + 1], ind + 1)[0]);
        lemma_parse_print_items_step(es, k, ind, rest);
    }
}

#[verifier::spinoff_prover]
#[verifier::rlimit(100)]
proof fn lemma_parse_print_items_last(es: Seq<JsonV>, k: int, ind: nat, rest: Seq<char>)
    requires
        0 <= k < es.len(),
        k == es.len() - 1,
        wf_json(es[k]),
        rest.len() == 0 || !is_num_char(rest[0]),
    ensures
        parse_items(print_items(es, k, ind) + rest) == Some((es.skip(k), rest)),
    decreases es[k], 2int,
{
    let t = print_items(es, k, ind) + rest;
    let tail = seq!['\n'] + spaces(2 * ind) + seq![']'];
    assert(print_items(es, k, ind) == print_json(es[k], ind + 1) + tail);
    assert(t =~= print_json(es[k], ind + 1) + (tail + rest));
    assert((tail + rest)[0] == '\n');
    lemma_parse_print(es[k], ind + 1, tail + rest);
    let r = skip_ws(tail + rest);
    lemma_spaces_all_ws(2 * ind);
    assert(all_ws(seq!['\n'] + spaces(2 * ind)));
    assert(tail + rest =~= (seq!['\n'] + spaces(2 * ind)) + (seq![']'] + rest));
    lemma_skip_ws_concat(seq!['\n'] + spaces(2 * ind), seq![']'] + rest);
    assert(r == seq![']'] + rest);
    assert(r[0] == ']' && r[0] != ',');
    assert(r.drop_first() =~= rest);
    assert(seq![es[k]] =~= es.skip(k));
}

#[verifier::spinoff_prover]
#[verifier::rlimit(100)]
proof fn lemma_parse_print_items_step(es: Seq<JsonV>, k: int, ind: nat, rest: Seq<char>)
    requires
        0 <= k < es.len() - 1,
        wf_json(es[k]),
        rest.len() == 0 || !is_num_char(rest[0]),
        parse_items(print_items(es, k + 1, ind) + rest) == Some((es.skip(k + 1), rest)),
        print_items(es, k + 1, ind).len() > 0,
        !is_ws(print_items(es, k + 1, ind)[0]),
    ensures
        parse_items(print_items(es, k, ind) + rest) == Some((es.skip(k), rest)),
    decreases es[k], 2int,
{
    let t = print_items(es, k, ind) + rest;
    let pad1 = spaces(2 * (ind + 1));
    let tail = seq![',', '\n'] + pad1 + print_items(es, k + 1, ind);
    assert(print_items(es, k, ind) == print_json(es[k], ind + 1) + tail);
    assert(t =~= print_json(es[k], ind + 1) + (tail + rest));
    assert((tail + rest)[0] == ',');
    lemma_parse_print(es[k], ind + 1, tail + rest);
    let r = skip_ws(tail + rest);
    assert(!is_ws(','));
    lemma_skip_ws_concat(Seq::empty(), tail + rest);
    assert(Seq::<char>::empty() + (tail + rest) =~= tail + rest);
    assert(r == tail + rest);
    assert(r[0] == ',');
    let body = print_items(es, k + 1, ind) + rest;
    assert(r.drop_first() =~= (seq!['\n'] + pad1) + body);
    lemma_spaces_all_ws(2 * (ind + 1));
    assert(body[0] == print_items(es, k + 1, ind)[0]);
    lemma_skip_ws_concat(seq!['\n'] + pad1, body);
    let r2 = skip_ws(r.drop_first());
    assert(r2 == body);
    lemma_print_head(es[k], ind + 1);
    assert(r2.len() < t.len());
    assert(parse_items(body) == Some((es.skip(k + 1), rest)));
    assert(seq![es[k]] + es.skip(k + 1) =~= es.skip(k));
}

/// The intermediate steps a member parse takes through one printed member:
/// the key string, the colon, the single space, and the member's value.
#[verifier::rlimit(100)]
#[verifier::spinoff_prover]
proof fn lemma_member_prefix(key: Seq<char>, val: JsonV, ind: nat, close: Seq<char>, rest: Seq<
    char,
>)
    requires
        wf_json(val),
        close.len() > 0,
        close[0] == '\n' || close[0] == ',',
    ensures
        ({
            let t = (print_string(key) + seq![':', ' '] + print_json(val, ind + 1) + close) + rest;
            let after_key = seq![':', ' '] + print_json(val, ind + 1) + close + rest;
            let vtext = print_json(val, ind + 1) + (close + rest);
            &&& parse_string(t) == Some((key, after_key))
            &&& skip_ws(after_key) == after_key
            &&& after_key.len() > 0 && after_key[0] == ':'
            &&& skip_ws(after_key.drop_first()) == vtext
            &&& vtext.len() < t.len()
            &&& parse_value(vtext) == Some((val, close + rest))
        }),
    decreases val, 1int,
{
    let t = (print_string(key) + seq![':', ' '] + print_json(val, ind + 1) + close) + rest;
    let after_key = seq![':', ' '] + print_json(val, ind + 1) + close + rest;
    assert(t =~= print_string(key) + after_key);
    lemma_parse_print_string(key, after_key);
    assert(parse_string(t) == Some((key, after_key)));
    assert(!is_ws(after_key[0]));
    lemma_skip_ws_concat(Seq::empty(), after_key);
    assert(Seq::<char>::empty() + after_key =~= after_key);
    let vtext = print_json(val, ind + 1) + (close + rest);
    assert(after_key.drop_first() =~= seq![' '] + vtext);
    lemma_print_head(val, ind + 1);
    assert(vtext[0] == print_json(val, ind + 1)[0]);
    lemma_skip_ws_concat(seq![' '], vtext);
    assert((close + rest)[0] == close[0]);
    lemma_parse_print(val, ind + 1, close + rest);
}

#[verifier::rlimit(100)]
#[verifier::spinoff_prover]
proof fn lemma_parse_print_members(ms: Seq<(Seq<char>, JsonV)>, k: int, ind: nat, rest: Seq<char>)
    requires
        0 <= k < ms.len(),
        forall|i: int| 0 <= i < ms.len() ==> wf_json(#[trigger] ms[i].1),
        rest.len() == 0 || !is_num_char(rest[0]),
    ensures
        parse_members(print_members(ms, k, ind) + rest) == Some((ms.skip(k), rest)),
    decreases ms, ms.len() - k,
{
    if k == ms.len() - 1 {
        lemma_parse_print_members_last(ms, k, ind, rest);
    } else {
        lemma_parse_print_members(ms, k + 1, ind, rest);
        lemma_parse_print_members_step(ms, k, ind, rest);
    }
}

#[verifier::rlimit(100)]
#[verifier::spinoff_prover]
proof fn lemma_parse_print_members_last(ms: Seq<(Seq<char>, JsonV)>, k: int, ind: nat, rest: Seq<
    char,
>)
    requires
        0 <= k < ms.len(),
        k == ms.len() - 1,
        wf_json(ms[k].1),
        rest.len() == 0 || !is_num_char(rest[0]),
    ensures
        parse_members(print_members(ms, k, ind) + rest) == Some((ms.skip(k), rest)),
    decreases ms[k].1, 2int,
{
    let key = ms[k].0;
    let val = ms[k].1;
    let t = print_members(ms, k, ind) + rest;
    let close = seq!['\n'] + spaces(2 * ind) + seq!['}'];
    assert(print_members(ms, k, ind) == print_string(key) + seq![':', ' '] + print_json(
        val,
        ind + 1,
    ) + close);
    lemma_member_prefix(key, val, ind, close, rest);
    assert(t =~= (print_string(key) + seq![':', ' '] + print_json(val, ind + 1) + close) + rest);
    let r3 = skip_ws(close + rest);
    lemma_spaces_all_ws(2 * ind);
    assert(close + rest =~= (seq!['\n'] + spaces(2 * ind)) + (seq!['}'] + rest));
    lemma_skip_ws_concat(seq!['\n'] + spaces(2 * ind), seq!['}'] + rest);
    assert(r3 == seq!['}'] + rest);
    assert(r3[0] == '}' && r3[0] != ',');
    assert(r3.drop_first() =~= rest);
    assert(seq![(key, val)] =~= ms.skip(k));
    assert(parse_members(t) == Some((ms.skip(k), rest)));
}

#[verifier::rlimit(100)]
#[verifier::spinoff_prover]
proof fn lemma_parse_print_members_step(ms: Seq<(Seq<char>, JsonV)>, k: int, ind: nat, rest: Seq<
    char,
>)
    requires
        0 <= k < ms.len() - 1,
        wf_json(ms[k].1),
        rest.len() == 0 || !is_num_char(rest[0]),
        parse_members(print_members(ms, k + 1, ind) + rest) == Some((ms.skip(k + 1), rest)),
        print_members(ms, k + 1, ind)[0] == '"',
    ensures
        parse_members(print_members(ms, k, ind) + rest) == Some((ms.skip(k), rest)),
    decreases ms[k].1, 2int,
{
    let key = ms[k].0;
    let val = ms[k].1;
    let t = print_members(ms, k, ind) + rest;
    let close = seq![',', '\n'] + spaces(2 * (ind + 1)) + print_members(ms, k + 1, ind);
    assert(print_members(ms, k, ind) == print_string(key) + seq![':', ' '] + print_json(
        val,
        ind + 1,
    ) + close);
    lemma_member_prefix(key, val, ind, close, rest);
    assert(t =~= (print_string(key) + seq![':', ' '] + print_json(val, ind + 1) + close) + rest);
    let r3 = skip_ws(close + rest);
    lemma_skip_ws_concat(Seq::empty(), close + rest);
    assert(Seq::<char>::empty() + (close + rest) =~= close + rest);
    assert(r3 == close + rest);
    assert(r3[0] == ',');
    let pad1 = spaces(2 * (ind + 1));
    let body = print_members(ms, k + 1, ind) + rest;
    assert(r3.drop_first() =~= (seq!['\n'] + pad1) + body);
    lemma_spaces_all_ws(2 * (ind + 1));
    assert(body[0] == '"');
    lemma_skip_ws_concat(seq!['\n'] + pad1, body);
    let r4 = skip_ws(r3.drop_first());
    assert(r4 == body);
    assert(r4.len() < t.len());
    assert(seq![(key, val)] + ms.skip(k + 1) =~= ms.skip(k));
    assert(parse_members(t) == Some((ms.skip(k), rest)));
}

// ===== executable printing =====

/// The views of a vector's elements, elementwise.
pub proof fn lemma_view_elems(es: Seq<JsonValue>)
    ensures
        view_json_elems(es).len() == es.len(),
        forall|k: int| 0 <= k < es.len() ==> view_json_elems(es)[k] == view_json(#[trigger] es[k]),
    decreases es,
{
    if es.len() > 0 {
        lemma_view_elems(es.drop_first());
        assert forall|k: int| 0 <= k < es.len() implies view_json_elems(es)[k] == view_json(
            #[trigger] es[k],
        ) by {
            if k > 0 {
                assert(es.drop_first()[k - 1] == es[k]);
            }
        }
    }
}

pub proof fn lemma_view_membs(ms: Seq<(String, JsonValue)>)
    ensures
        view_json_membs(ms).len() == ms.len(),
        forall|k: int|
            0 <= k < ms.len() ==> view_json_membs(ms)[k] == ((#[trigger] ms[k]).0@, view_json(
                ms[k].1,
            )),
    decreases ms,
{
    if ms.len() > 0 {
        lemma_view_membs(ms.drop_first());
        assert forall|k: int| 0 <= k < ms.len() implies view_json_membs(ms)[k] == ((
        #[trigger] ms[k]).0@, view_json(ms[k].1)) by {
            if k > 0 {
                assert(ms.drop_first()[k - 1] == ms[k]);
            }
        }
    }
}

pub proof fn lemma_view_elems_push(es: Seq<JsonValue>, v: JsonValue)
    ensures
        view_json_elems(es.push(v)) == view_json_elems(es) + seq![view_json(v)],
    decreases es,
{
    if es.len() == 0 {
        assert(es.push(v).drop_first() =~= es);
        assert(view_json_elems(es.push(v)) =~= view_json_elems(es) + seq![view_json(v)]);
    } else {
        assert(es.push(v).drop_first() =~= es.drop_first().push(v));
        lemma_view_elems_push(es.drop_first(), v);
        assert(view_json_elems(es.push(v)) =~= view_json_elems(es) + seq![view_json(v)]);
    }
}

pub proof fn lemma_view_membs_push(ms: Seq<(String, JsonValue)>, k: String, v: JsonValue)
    ensures
        view_json_membs(ms.push((k, v))) == view_json_membs(ms) + seq![(k@, view_json(v))],
    decreases ms,
{
    if ms.len() == 0 {
        assert(ms.push((k, v)).drop_first() =~= ms);
        assert(view_json_membs(ms.push((k, v))) =~= view_json_membs(ms) + seq![
            (k@, view_json(v)),
        ]);
    } else {
        assert(ms.push((k, v)).drop_first() =~= ms.drop_first().push((k, v)));
        lemma_view_membs_push(ms.drop_first(), k, v);
        assert(view_json_membs(ms.push((k, v))) =~= view_json_membs(ms) + seq![
            (k@, view_json(v)),
        ]);
    }
}

proof fn lemma_esc_push(a: Seq<char>, c: char)
    ensures
        esc(a.push(c)) == esc(a) + esc_char(c),
    decreases a.len(),
{
    if a.len() == 0 {
        assert(a.push(c).drop_first() =~= a);
        assert(esc(a.push(c)) =~= esc(a) + esc_char(c));
    } else {
        assert(a.push(c)[0] == a[0]);
        assert(a.push(c).drop_first() =~= a.drop_first().push(c));
        lemma_esc_push(a.drop_first(), c);
        assert(esc(a.push(c)) =~= esc(a) + esc_char(c));
    }
}

fn hex_digit_char(n: u32) -> (c: char)
    requires
        n < 16,
    ensures
        c == hex_digit(n as nat),
{
    if n == 0 {
        '0'
    } else if n == 1 {
        '1'
    } else if n == 2 {
        '2'
    } else if n == 3 {
        '3'
    } else if n == 4 {
        '4'
    } else if n == 5 {
        '5'
    } else if n == 6 {
        '6'
    } else if n == 7 {
        '7'
    } else if n == 8 {
        '8'
    } else if n == 9 {
        '9'
    } else if n == 10 {
        'A'
    } else if n == 11 {
        'B'
    } else if n == 12 {
        'C'
    } else if n == 13 {
        'D'
    } else if n == 14 {
        'E'
    } else {
        'F'
    }
}

fn push_esc_char(out: &mut Vec<char>, c: char)
    ensures
        final(out)@ == old(out)@ + esc_char(c),
{
    if c == '"' {
        out.push('\\');
        out.push('"');
    } else if c == '\\' {
        out.push('\\');
        out.push('\\');
    } else if c == '\n' {
        out.push('\\');
        out.push('n');
    } else if c == '\r' {
        out.push('\\');
        out.push('r');
    } else if c == '\t' {
        out.push('\\');
        out.push('t');
    } else if (c as u32) < 0x20 {
        out.push('\\');
        out.push('u');
        out.push('0');
        out.push('0');
        out.push(hex_digit_char((c as u32) / 16));
        out.push(hex_digit_char((c as u32) % 16));
    } else {
        out.push(c);
    }
    proof {
        assert(out@ =~= old(out)@ + esc_char(c));
    }
}

/// Writes a string literal: quote, escaped characters, quote.
fn push_string_chars(out: &mut Vec<char>, s: &str)
    ensures
        final(out)@ == old(out)@ + print_string(s@),
{
    let cs = crate::text::str_to_chars(s);
    out.push('"');
    let mut k: usize = 0;
    while k < cs.len()
        invariant
            k <= cs.len(),
            cs@ == s@,
            out@ == old(out)@ + seq!['"'] + esc(s@.take(k as int)),
        decreases cs.len() - k,
    {
        let c = cs[k];
        push_esc_char(out, c);
        proof {
            assert(s@.take(k as int).push(c) =~= s@.take(k as int + 1));
            lemma_esc_push(s@.take(k as int), c);
            assert(out@ =~= old(out)@ + seq!['"'] + esc(s@.take(k as int + 1)));
        }
        k = k + 1;
    }
    out.push('"');
    proof {
        assert(s@.take(s@.len() as int) =~= s@);
        assert(out@ =~= old(out)@ + print_string(s@));
    }
}

/// Writes the canonical printed form of `v` at the indentation depth whose
/// padding is `pad`.
fn print_rec(v: &JsonValue, pad: &Vec<char>, Ghost(ind): Ghost<nat>, out: &mut Vec<char>)
    requires
        pad@ == spaces(2 * ind),
    ensures
        final(out)@ == old(out)@ + print_json(v@, ind),
    decreases *v, 0int,
{
    match v {
        JsonValue::Null => {
            out.push('n');
            out.push('u');
            out.push('l');
            out.push('l');
            proof {
                assert(out@ =~= old(out)@ + print_json(v@, ind));
            }
        },
        JsonValue::Bool(b) => {
            if *b {
                out.push('t');
                out.push('r');
                out.push('u');
                out.push('e');
            } else {
                out.push('f');
                out.push('a');
                out.push('l');
                out.push('s');
                out.push('e');
            }
            proof {
                assert(out@ =~= old(out)@ + print_json(v@, ind));
            }
        },
        JsonValue::Num(lex) => {
            let cs = crate::text::str_to_chars(lex.as_str());
            let mut k: usize = 0;
            while k < cs.len()
                invariant
                    k <= cs.len(),
                    cs@ == lex@,
                    out@ == old(out)@ + lex@.take(k as int),
                decreases cs.len() - k,
            {
                out.push(cs[k]);
                k = k + 1;
                proof {
                    assert(out@ =~= old(out)@ + lex@.take(k as int));
                }
            }
            proof {
                assert(lex@.take(lex@.len() as int) =~= lex@);
                assert(out@ =~= old(out)@ + print_json(v@, ind));
            }
        },
        JsonValue::Str(s) => {
            push_string_chars(out, s.as_str());
        },
        JsonValue::Arr(es) => {
            if es.len() == 0 {
                out.push('[');
                out.push(']');
                proof {
                    assert(view_json_elems(es@) =~= Seq::<JsonV>::empty());
                    assert(out@ =~= old(out)@ + print_json(v@, ind));
                }
            } else {
                out.push('[');
                out.push('\n');
                let pad2 = deeper_pad(pad, Ghost(ind));
                push_pad(out, &pad2);
                proof {
                    lemma_view_elems(es@);
                }
                print_items_rec(es, 0, &pad2, Ghost(ind + 1), out);
                proof {
                    assert(out@ =~= old(out)@ + print_json(v@, ind));
                }
            }
        },
        JsonValue::Obj(ms) => {
            if ms.len() == 0 {
                out.push('{');
                out.push('}');
                proof {
                    assert(view_json_membs(ms@) =~= Seq::<(Seq<char>, JsonV)>::empty());
                    assert(out@ =~= old(out)@ + print_json(v@, ind));
                }
            } else {
                out.push('{');
                out.push('\n');
                let pad2 = deeper_pad(pad, Ghost(ind));
                push_pad(out, &pad2);
                proof {
                    lemma_view_membs(ms@);
                }
                print_members_rec(ms, 0, &pad2, Ghost(ind + 1), out);
                proof {
                    assert(out@ =~= old(out)@ + print_json(v@, ind));
                }
            }
        },
    }
}

/// The padding one indentation level deeper.
fn deeper_pad(pad: &Vec<char>, Ghost(ind): Ghost<nat>) -> (r: Vec<char>)
    requires
        pad@ == spaces(2 * ind),
    ensures
        r@ == spaces(2 * (ind + 1)),
{
    let mut r: Vec<char> = Vec::new();
    let mut k: usize = 0;
    while k < pad.len()
        invariant
            k <= pad.len(),
            pad@ == spaces(2 * ind),
            r@ == pad@.take(k as int),
        decreases pad.len() - k,
    {
        r.push(pad[k]);
        k = k + 1;
        proof {
            assert(r@ =~= pad@.take(k as int));
        }
    }
    proof {
        assert(pad@.take(pad@.len() as int) =~= pad@);
        lemma_spaces_all_ws(2 * ind);
    }
    r.push(' ');
    r.push(' ');
    proof {
        assert(2 * (ind + 1) == (2 * ind + 2) as nat);
        assert(spaces((2 * ind + 2) as nat) == spaces((2 * ind + 1) as nat).push(' '));
        assert(spaces((2 * ind + 1) as nat) == spaces(2 * ind).push(' '));
        assert(r@ =~= spaces(2 * (ind + 1)));
    }
    r
}

fn push_pad(out: &mut Vec<char>, pad: &Vec<char>)
    ensures
        final(out)@ == old(out)@ + pad@,
{
    let mut k: usize = 0;
    while k < pad.len()
        invariant
            k <= pad.len(),
            out@ == old(out)@ + pad@.take(k as int),
        decreases pad.len() - k,
    {
        out.push(pad[k]);
        k = k + 1;
        proof {
            assert(out@ =~= old(out)@ + pad@.take(k as int));
        }
    }
    proof {
        assert(pad@.take(pad@.len() as int) =~= pad@);
    }
}

/// Writes the elements of `es` from position `k` on, as `print_items` lays
/// them out; `pad` is the elements' own padding.
fn print_items_rec(
    es: &Vec<JsonValue>,
    k: usize,
    pad: &Vec<char>,
    Ghost(ind1): Ghost<nat>,
    out: &mut Vec<char>,
)
    requires
        k < es.len(),
        ind1 >= 1,
        pad@ == spaces(2 * ind1),
    ensures
        final(out)@ == old(out)@ + print_items(view_json_elems(es@), k as int, (ind1 - 1) as nat),
    decreases es@, es@.len() - k, 0int,
{
    let ghost ind: nat = (ind1 - 1) as nat;
    proof {
        lemma_view_elems(es@);
    }
    print_rec(&es[k], pad, Ghost(ind1), out);
    if k == es.len() - 1 {
        out.push('\n');
        proof {
            lemma_spaces_all_ws(2 * ind1);
            assert(pad@.len() == 2 * ind1);
            assert(spaces(0nat) =~= Seq::<char>::empty());
        }
        let needed: usize = pad.len() - 2;
        let mut j: usize = 0;
        proof {
            assert(out@ =~= old(out)@ + print_json(view_json_elems(es@)[k as int], ind1) + seq![
                '\n',
            ] + spaces(j as nat));
        }
        while j < needed
            invariant
                needed == 2 * ind,
                j <= needed,
                out@ == old(out)@ + print_json(view_json_elems(es@)[k as int], ind1) + seq!['\n']
                    + spaces(j as nat),
            decreases needed - j,
        {
            out.push(' ');
            j = j + 1;
            proof {
                assert(out@ =~= old(out)@ + print_json(view_json_elems(es@)[k as int], ind1)
                    + seq!['\n'] + spaces(j as nat));
            }
        }
        out.push(']');
        proof {
            assert(out@ =~= old(out)@ + print_items(view_json_elems(es@), k as int, ind));
        }
    } else {
        out.push(',');
        out.push('\n');
        push_pad(out, pad);
        print_items_rec(es, k + 1, pad, Ghost(ind1), out);
        proof {
            assert(out@ =~= old(out)@ + print_items(view_json_elems(es@), k as int, ind));
        }
    }
}

/// Writes the members of `ms` from position `k` on, as `print_members` lays
/// them out.
fn print_members_rec(
    ms: &Vec<(String, JsonValue)>,
    k: usize,
    pad: &Vec<char>,
    Ghost(ind1): Ghost<nat>,
    out: &mut Vec<char>,
)
    requires
        k < ms.len(),
        ind1 >= 1,
        pad@ == spaces(2 * ind1),
    ensures
        final(out)@ == old(out)@ + print_members(view_json_membs(ms@), k as int, (ind1 - 1) as nat),
    decreases ms@, ms@.len() - k, 0int,
{
    let ghost ind: nat = (ind1 - 1) as nat;
    proof {
        lemma_view_membs(ms@);
    }
    push_string_chars(out, ms[k].0.as_str());
    out.push(':');
    out.push(' ');
    print_rec(&ms[k].1, pad, Ghost(ind1), out);
    if k == ms.len() - 1 {
        out.push('\n');
        proof {
            lemma_spaces_all_ws(2 * ind1);
            assert(pad@.len() == 2 * ind1);
            assert(spaces(0nat) =~= Seq::<char>::empty());
        }
        let needed: usize = pad.len() - 2;
        let mut j: usize = 0;
        proof {
            assert(out@ =~= old(out)@ + print_string(view_json_membs(ms@)[k as int].0) + seq![
                ':',
                ' ',
            ] + print_json(view_json_membs(ms@)[k as int].1, ind1) + seq!['\n'] + spaces(
                j as nat,
            ));
        }
        while j < needed
            invariant
                needed == 2 * ind,
                j <= needed,
                out@ == old(out)@ + print_string(view_json_membs(ms@)[k as int].0) + seq![':', ' ']
                    + print_json(view_json_membs(ms@)[k as int].1, ind1) + seq!['\n'] + spaces(
                    j as nat,
                ),
            decreases needed - j,
        {
            out.push(' ');
            j = j + 1;
            proof {
                assert(out@ =~= old(out)@ + print_string(view_json_membs(ms@)[k as int].0) + seq![
                    ':',
                    ' ',
                ] + print_json(view_json_membs(ms@)[k as int].1, ind1) + seq!['\n'] + spaces(
                    j as nat,
                ));
            }
        }
        out.push('}');
        proof {
            assert(out@ =~= old(out)@ + print_members(view_json_membs(ms@), k as int, ind));
        }
    } else {
        out.push(',');
        out.push('\n');
        push_pad(out, pad);
        print_members_rec(ms, k + 1, pad, Ghost(ind1), out);
        proof {
            assert(out@ =~= old(out)@ + print_members(view_json_membs(ms@), k as int, ind));
        }
    }
}

/// The canonical printed text of a document.
pub fn json_to_text(v: &JsonValue) -> (r: String)
    ensures
        r@ == print_json(v@, 0),
{
    let pad: Vec<char> = Vec::new();
    let mut out: Vec<char> = Vec::new();
    proof {
        assert(pad@ =~= spaces(0));
        assert(out@ =~= Seq::<char>::empty());
    }
    print_rec(v, &pad, Ghost(0nat), &mut out);
    proof {
        assert(out@ =~= print_json(v@, 0));
    }
    crate::text::chars_to_string(&out)
}

/// The codec's round trip: parsing the canonical printed form of any
/// well-formed document yields the document back.
pub proof fn lemma_print_parse_round_trip(m: JsonV)
    requires
        wf_json(m),
    ensures
        parse_text(print_json(m, 0)) == Some(m),
{
    let t = print_json(m, 0);
    lemma_print_head(m, 0);
    lemma_skip_ws_concat(Seq::empty(), t);
    assert(Seq::<char>::empty() + t =~= t);
    assert(skip_ws(t) == t);
    lemma_parse_print(m, 0, Seq::empty());
    assert(t + Seq::<char>::empty() =~= t);
    assert(parse_value(t) == Some((m, Seq::<char>::empty())));
    assert(skip_ws(Seq::<char>::empty()).len() == 0);
}

/// How the view maps each constructor, variant by variant.
pub proof fn lemma_view_variant(v: JsonValue)
    ensures
        (view_json(v) is Null) == (v is Null),
        (view_json(v) is Bool) == (v is Bool),
        (view_json(v) is Num) == (v is Num),
        (view_json(v) is Arr) == (v is Arr),
        (view_json(v) is Str) == (v is Str),
        (view_json(v) is Obj) == (v is Obj),
        v matches JsonValue::Str(s) ==> view_json(v) == JsonV::Str(s@),
        v matches JsonValue::Obj(ms) ==> view_json(v) == JsonV::Obj(view_json_membs(ms@)),
{
    match v {
        JsonValue::Null => {},
        JsonValue::Bool(_) => {},
        JsonValue::Num(_) => {},
        JsonValue::Str(_) => {},
        JsonValue::Arr(_) => {},
        JsonValue::Obj(_) => {},
    }
}

// ===== executable parsing =====

fn ws_char(c: char) -> (r: bool)
    ensures
        r == is_ws(c),
{
    c == ' ' || c == '\n' || c == '\r' || c == '\t'
}

fn digit_char(c: char) -> (r: bool)
    ensures
        r == is_digit(c),
{
    '0' <= c && c <= '9'
}

fn num_char(c: char) -> (r: bool)
    ensures
        r == is_num_char(c),
{
    digit_char(c) || c == '-' || c == '+' || c == '.' || c == 'e' || c == 'E'
}

fn hex_val_char(c: char) -> (r: Option<u32>)
    ensures
        r == hex_val(c),
{
    if '0' <= c && c <= '9' {
        Some((c as u32) - 48)
    } else if 'a' <= c && c <= 'f' {
        Some((c as u32) - 87)
    } else if 'A' <= c && c <= 'F' {
        Some((c as u32) - 55)
    } else {
        None
    }
}

/// The position after the whitespace run beginning at `i`.
fn p_skip_ws(s: &Vec<char>, i: usize) -> (j: usize)
    requires
        i <= s.len(),
    ensures
        i <= j <= s@.len(),
        skip_ws(s@.skip(i as int)) == s@.skip(j as int),
{
    let mut j: usize = i;
    while j < s.len() && ws_char(s[j])
        invariant
            i <= j <= s@.len(),
            skip_ws(s@.skip(i as int)) == skip_ws(s@.skip(j as int)),
        decreases s@.len() - j,
    {
        proof {
            assert(s@.skip(j as int)[0] == s@[j as int]);
            assert(s@.skip(j as int).drop_first() =~= s@.skip(j as int + 1));
        }
        j = j + 1;
    }
    proof {
        if j < s@.len() {
            assert(s@.skip(j as int)[0] == s@[j as int]);
        }
        assert(skip_ws(s@.skip(j as int)) == s@.skip(j as int));
    }
    j
}

/// Parses a string literal beginning at `i`; on success returns the decoded
/// string and the position after the closing quote.
#[verifier::rlimit(100)]
#[verifier::spinoff_prover]
#[verifier::loop_isolation(false)]
fn p_string(s: &Vec<char>, i: usize) -> (r: Option<(String, usize)>)
    requires
        i <= s.len(),
    ensures
        ({
            let sp = parse_string(s@.skip(i as int));
            match r {
                None => sp is None,
                Some(p) => sp matches Some(q) && q.0 == p.0@ && q.1 == s@.skip(p.1 as int) && i
                    < p.1 <= s@.len(),
            }
        }),
{
    if i == s.len() || s[i] != '"' {
        return None;
    }
    let mut acc: Vec<char> = Vec::new();
    let mut j: usize = i + 1;
    proof {
        assert(s@.skip(i as int)[0] == '"');
        assert(s@.skip(i as int).drop_first() =~= s@.skip(j as int));
    }
    loop
        invariant
            i + 1 <= j <= s@.len(),
            parse_str_chars(s@.skip(i as int + 1)) == (match parse_str_chars(s@.skip(j as int)) {
                Some(q) => Some((acc@ + q.0, q.1)),
                None => None,
            }),
        decreases s@.len() - j,
    {
        let ghost su = s@.skip(j as int);
        if j == s.len() {
            return None;
        }
        proof {
            assert(su[0] == s@[j as int]);
        }
        let c = s[j];
        if c == '"' {
            proof {
                assert(su.drop_first() =~= s@.skip(j as int + 1));
                assert(acc@ + Seq::<char>::empty() =~= acc@);
            }
            return Some((crate::text::chars_to_string(&acc), j + 1));
        } else if c == '\\' {
            if j + 1 == s.len() {
                proof {
                    assert(su.len() < 2);
                }
                return None;
            }
            proof {
                assert(su[1] == s@[j as int + 1]);
            }
            let e = s[j + 1];
            if e == '"' || e == '\\' || e == '/' || e == 'n' || e == 'r' || e == 't' || e == 'b'
                || e == 'f' {
                let dec: char = if e == 'n' {
                    '\n'
                } else if e == 'r' {
                    '\r'
                } else if e == 't' {
                    '\t'
                } else if e == 'b' {
                    '\u{0008}'
                } else if e == 'f' {
                    '\u{000C}'
                } else {
                    e
                };
                proof {
                    assert(su.skip(2) =~= s@.skip(j as int + 2));
                    assert(parse_str_chars(su) == prepend_char(
                        dec,
                        parse_str_chars(s@.skip(j as int + 2)),
                    ));
                    assert(forall|q0: Seq<char>| acc@ + (seq![dec] + q0) =~= (acc@ + seq![dec])
                        + q0);
                }
                acc.push(dec);
                j = j + 2;
            } else if e == 'u' {
                if s.len() - j < 6 {
                    proof {
                        assert(su.len() < 6);
                    }
                    return None;
                }
                proof {
                    assert(su.subrange(2, 6) =~= seq![
                        s@[j as int + 2],
                        s@[j as int + 3],
                        s@[j as int + 4],
                        s@[j as int + 5],
                    ]);
                }
                let h0 = hex_val_char(s[j + 2]);
                let h1 = hex_val_char(s[j + 3]);
                let h2 = hex_val_char(s[j + 4]);
                let h3 = hex_val_char(s[j + 5]);
                match (h0, h1, h2, h3) {
                    (Some(a), Some(b), Some(cc), Some(d)) => {
                        proof {
                            assert(a < 16 && b < 16 && cc < 16 && d < 16);
                        }
                        let v: u32 = a * 4096 + b * 256 + cc * 16 + d;
                        proof {
                            assert(hex4_val(su.subrange(2, 6)) == Some(v));
                        }
                        if v < 0xD800 || v > 0xDFFF {
                            let dec = match crate::text::char_from_u32(v) {
                                Some(x) => x,
                                None => {
                                    proof {
                                        assert(false);
                                    }
                                    ' '
                                },
                            };
                            proof {
                                vstd::utf8::char_u32_cast(dec, v);
                                assert(dec == v as char);
                                assert(su.skip(6) =~= s@.skip(j as int + 6));
                                assert(forall|q0: Seq<char>| acc@ + (seq![dec] + q0) =~= (acc@
                                    + seq![dec]) + q0);
                            }
                            acc.push(dec);
                            j = j + 6;
                        } else if v < 0xDC00 {
                            if s.len() - j < 12 || s[j + 6] != '\\' || s[j + 7] != 'u' {
                                proof {
                                    if su.len() >= 12 {
                                        assert(su[6] == s@[j as int + 6] && su[7] == s@[j as int
                                            + 7]);
                                    }
                                }
                                return None;
                            }
                            proof {
                                assert(su[6] == s@[j as int + 6] && su[7] == s@[j as int + 7]);
                                assert(su.subrange(8, 12) =~= seq![
                                    s@[j as int + 8],
                                    s@[j as int + 9],
                                    s@[j as int + 10],
                                    s@[j as int + 11],
                                ]);
                            }
                            let g0 = hex_val_char(s[j + 8]);
                            let g1 = hex_val_char(s[j + 9]);
                            let g2 = hex_val_char(s[j + 10]);
                            let g3 = hex_val_char(s[j + 11]);
                            match (g0, g1, g2, g3) {
                                (Some(a2), Some(b2), Some(c2), Some(d2)) => {
                                    proof {
                                        assert(a2 < 16 && b2 < 16 && c2 < 16 && d2 < 16);
                                    }
                                    let w: u32 = a2 * 4096 + b2 * 256 + c2 * 16 + d2;
                                    proof {
                                        assert(hex4_val(su.subrange(8, 12)) == Some(w));
                                    }
                                    if 0xDC00 <= w && w <= 0xDFFF {
                                        let cp: u32 = 0x10000 + (v - 0xD800) * 0x400 + (w
                                            - 0xDC00);
                                        let dec = match crate::text::char_from_u32(cp) {
                                            Some(x) => x,
                                            None => {
                                                proof {
                                                    assert(false);
                                                }
                                                ' '
                                            },
                                        };
                                        proof {
                                            vstd::utf8::char_u32_cast(dec, cp);
                                            assert(dec == cp as char);
                                            assert(su.skip(12) =~= s@.skip(j as int + 12));
                                            assert(forall|q0: Seq<char>| acc@ + (seq![dec] + q0)
                                                =~= (acc@ + seq![dec]) + q0);
                                        }
                                        acc.push(dec);
                                        j = j + 12;
                                    } else {
                                        return None;
                                    }
                                },
                                _ => {
                                    return None;
                                },
                            }
                        } else {
                            return None;
                        }
                    },
                    _ => {
                        proof {
                            assert(hex4_val(su.subrange(2, 6)) is None);
                        }
                        return None;
                    },
                }
            } else {
                return None;
            }
        } else if (c as u32) < 0x20 {
            return None;
        } else {
            proof {
                assert(su.drop_first() =~= s@.skip(j as int + 1));
                assert(parse_str_chars(su) == prepend_char(
                    c,
                    parse_str_chars(s@.skip(j as int + 1)),
                ));
                assert(forall|q0: Seq<char>| acc@ + (seq![c] + q0) =~= (acc@ + seq![c]) + q0);
            }
            acc.push(c);
            j = j + 1;
        }
    }
}

/// The position after the run of decimal digits beginning at `i`.
fn p_digits_end(v: &Vec<char>, i: usize) -> (r: usize)
    requires
        i <= v.len(),
    ensures
        r == digits_end(v@, i as int),
        i <= r <= v.len(),
{
    let mut j: usize = i;
    while j < v.len() && digit_char(v[j])
        invariant
            i <= j <= v.len(),
            digits_end(v@, i as int) == digits_end(v@, j as int),
        decreases v.len() - j,
    {
        j = j + 1;
    }
    j
}

/// Whether `lex` satisfies the JSON number grammar.
fn check_number(lex: &Vec<char>) -> (b: bool)
    ensures
        b == valid_number(lex@),
{
    let i0: usize = if lex.len() > 0 && lex[0] == '-' {
        1
    } else {
        0
    };
    if i0 >= lex.len() || !digit_char(lex[i0]) {
        return false;
    }
    let i1: usize = if lex[i0] == '0' {
        i0 + 1
    } else {
        p_digits_end(lex, i0)
    };
    let i2: usize;
    if i1 < lex.len() && lex[i1] == '.' {
        if i1 + 1 < lex.len() && digit_char(lex[i1 + 1]) {
            i2 = p_digits_end(lex, i1 + 1);
        } else {
            return false;
        }
    } else {
        i2 = i1;
    }
    let i3: usize;
    if i2 < lex.len() && (lex[i2] == 'e' || lex[i2] == 'E') {
        let j: usize = if i2 + 1 < lex.len() && (lex[i2 + 1] == '-' || lex[i2 + 1] == '+') {
            i2 + 2
        } else {
            i2 + 1
        };
        if j < lex.len() && digit_char(lex[j]) {
            i3 = p_digits_end(lex, j);
        } else {
            return false;
        }
    } else {
        i3 = i2;
    }
    i3 == lex.len()
}

/// Parses a number beginning at `i`.
fn p_number(s: &Vec<char>, i: usize) -> (r: Option<(JsonValue, usize)>)
    requires
        i < s.len(),
        is_num_char(s@[i as int]),
    ensures
        ({
            let sp = parse_number(s@.skip(i as int));
            match r {
                None => sp is None,
                Some(p) => sp matches Some(q) && q.0 == p.0@ && q.1 == s@.skip(p.1 as int) && i
                    < p.1 <= s@.len(),
            }
        }),
{
    let mut j: usize = i;
    while j < s.len() && num_char(s[j])
        invariant
            i <= j <= s@.len(),
            num_split(s@.skip(i as int)) == j - i + num_split(s@.skip(j as int)),
            forall|t: int| i <= t < j ==> is_num_char(#[trigger] s@[t]),
        decreases s@.len() - j,
    {
        proof {
            assert(s@.skip(j as int)[0] == s@[j as int]);
            assert(s@.skip(j as int).drop_first() =~= s@.skip(j as int + 1));
        }
        j = j + 1;
    }
    proof {
        if j < s@.len() {
            assert(s@.skip(j as int)[0] == s@[j as int]);
        }
        assert(num_split(s@.skip(j as int)) == 0);
        assert(num_split(s@.skip(i as int)) == j - i);
    }
    let mut lex: Vec<char> = Vec::new();
    let mut k: usize = i;
    while k < j
        invariant
            i <= k <= j <= s@.len(),
            lex@ == s@.subrange(i as int, k as int),
        decreases j - k,
    {
        lex.push(s[k]);
        k = k + 1;
        proof {
            assert(lex@ =~= s@.subrange(i as int, k as int));
        }
    }
    proof {
        assert(s@.skip(i as int).take((j - i) as int) =~= s@.subrange(i as int, j as int));
    }
    if check_number(&lex) {
        proof {
            assert(s@.skip(i as int).skip((j - i) as int) =~= s@.skip(j as int));
        }
        Some((JsonValue::Num(crate::text::chars_to_string(&lex)), j))
    } else {
        None
    }
}

/// Whether positions `i..i+4` (or `i..i+5`) hold the given word.
fn word_at(s: &Vec<char>, i: usize, c0: char, c1: char, c2: char, c3: char) -> (r: bool)
    requires
        i <= s.len(),
    ensures
        r == starts_with(s@.skip(i as int), seq![c0, c1, c2, c3]),
{
    if s.len() - i < 4 {
        return false;
    }
    let ok = s[i] == c0 && s[i + 1] == c1 && s[i + 2] == c2 && s[i + 3] == c3;
    proof {
        if ok {
            assert(s@.skip(i as int).take(4) =~= seq![c0, c1, c2, c3]);
        } else {
            assert(s@.skip(i as int).take(4) != seq![c0, c1, c2, c3]) by {
                let w = seq![c0, c1, c2, c3];
                let tk = s@.skip(i as int).take(4);
                assert(tk[0] == s@[i as int] && tk[1] == s@[i as int + 1] && tk[2] == s@[i as int
                    + 2] && tk[3] == s@[i as int + 3]);
            }
        }
    }
    ok
}

/// Parses one JSON value beginning at `i` (no leading whitespace).
#[verifier::rlimit(100)]
#[verifier::spinoff_prover]
fn p_value(s: &Vec<char>, i: usize) -> (r: Option<(JsonValue, usize)>)
    requires
        i <= s.len(),
    ensures
        ({
            let sp = parse_value(s@.skip(i as int));
            match r {
                None => sp is None,
                Some(p) => sp matches Some(q) && q.0 == p.0@ && q.1 == s@.skip(p.1 as int) && i
                    < p.1 <= s@.len(),
            }
        }),
    decreases s@.len() - i, 1int,
{
    let ghost su = s@.skip(i as int);
    if i == s.len() {
        return None;
    }
    proof {
        assert(su[0] == s@[i as int]);
    }
    let c = s[i];
    if c == 'n' {
        if word_at(s, i, 'n', 'u', 'l', 'l') {
            proof {
                assert(su.skip(4) =~= s@.skip(i as int + 4));
            }
            Some((JsonValue::Null, i + 4))
        } else {
            None
        }
    } else if c == 't' {
        if word_at(s, i, 't', 'r', 'u', 'e') {
            proof {
                assert(su.skip(4) =~= s@.skip(i as int + 4));
            }
            Some((JsonValue::Bool(true), i + 4))
        } else {
            None
        }
    } else if c == 'f' {
        if s.len() - i >= 5 && s[i + 1] == 'a' && s[i + 2] == 'l' && s[i + 3] == 's' && s[i + 4]
            == 'e' {
            proof {
                assert(su.take(5) =~= seq!['f', 'a', 'l', 's', 'e']);
                assert(su.skip(5) =~= s@.skip(i as int + 5));
            }
            Some((JsonValue::Bool(false), i + 5))
        } else {
            proof {
                if starts_with(su, seq!['f', 'a', 'l', 's', 'e']) {
                    let tk = su.take(5);
                    assert(tk[0] == s@[i as int] && tk[1] == s@[i as int + 1] && tk[2] == s@[i as int
                        + 2] && tk[3] == s@[i as int + 3] && tk[4] == s@[i as int + 4]);
                }
            }
            None
        }
    } else if c == '"' {
        match p_string(s, i) {
            Some(p) => Some((JsonValue::Str(p.0), p.1)),
            None => None,
        }
    } else if c == '-' || digit_char(c) {
        p_number(s, i)
    } else if c == '[' {
        let j = p_skip_ws(s, i + 1);
        proof {
            assert(su.drop_first() =~= s@.skip(i as int + 1));
        }
        if j < s.len() && s[j] == ']' {
            proof {
                assert(s@.skip(j as int)[0] == s@[j as int]);
                assert(s@.skip(j as int).drop_first() =~= s@.skip(j as int + 1));
                assert(view_json_elems(Seq::<JsonValue>::empty()) =~= Seq::<JsonV>::empty());
            }
            Some((JsonValue::Arr(Vec::new()), j + 1))
        } else {
            proof {
                if j < s@.len() {
                    assert(s@.skip(j as int)[0] == s@[j as int]);
                }
                assert(s@.skip(j as int).len() < su.len());
            }
            match p_items(s, j) {
                Some(p) => Some((JsonValue::Arr(p.0), p.1)),
                None => None,
            }
        }
    } else if c == '{' {
        let j = p_skip_ws(s, i + 1);
        proof {
            assert(su.drop_first() =~= s@.skip(i as int + 1));
        }
        if j < s.len() && s[j] == '}' {
            proof {
                assert(s@.skip(j as int)[0] == s@[j as int]);
                assert(s@.skip(j as int).drop_first() =~= s@.skip(j as int + 1));
                assert(view_json_membs(Seq::<(String, JsonValue)>::empty()) =~= Seq::<
                    (Seq<char>, JsonV),
                >::empty());
            }
            Some((JsonValue::Obj(Vec::new()), j + 1))
        } else {
            proof {
                if j < s@.len() {
                    assert(s@.skip(j as int)[0] == s@[j as int]);
                }
                assert(s@.skip(j as int).len() < su.len());
            }
            match p_members(s, j) {
                Some(p) => Some((JsonValue::Obj(p.0), p.1)),
                None => None,
            }
        }
    } else {
        None
    }
}

/// Parses array elements from `i` (a value start) through the closing
/// bracket.
#[verifier::rlimit(100)]
#[verifier::spinoff_prover]
fn p_items(s: &Vec<char>, i: usize) -> (r: Option<(Vec<JsonValue>, usize)>)
    requires
        i <= s.len(),
    ensures
        ({
            let sp = parse_items(s@.skip(i as int));
            match r {
                None => sp is None,
                Some(p) => sp matches Some(q) && q.0 == view_json_elems(p.0@) && q.1 == s@.skip(
                    p.1 as int,
                ) && i < p.1 <= s@.len(),
            }
        }),
    decreases s@.len() - i, 2int,
{
    let mut acc: Vec<JsonValue> = Vec::new();
    let mut j: usize = i;
    proof {
        assert(view_json_elems(acc@) =~= Seq::<JsonV>::empty());
    }
    loop
        invariant
            i <= j <= s@.len(),
            j == i || j > i,
            parse_items(s@.skip(i as int)) == (match parse_items(s@.skip(j as int)) {
                Some(q) => Some((view_json_elems(acc@) + q.0, q.1)),
                None => None,
            }),
        decreases s@.len() - j,
    {
        let ghost su = s@.skip(j as int);
        let vr = p_value(s, j);
        match vr {
            None => {
                return None;
            },
            Some(vp) => {
                let (v, j2) = vp;
                let j3 = p_skip_ws(s, j2);
                if j3 < s.len() && s[j3] == ',' {
                    proof {
                        assert(s@.skip(j3 as int)[0] == s@[j3 as int]);
                        assert(s@.skip(j3 as int).drop_first() =~= s@.skip(j3 as int + 1));
                    }
                    let j4 = p_skip_ws(s, j3 + 1);
                    proof {
                        assert(s@.skip(j4 as int).len() < su.len());
                        lemma_view_elems_push(acc@, v);
                        assert(forall|q0: Seq<JsonV>| view_json_elems(acc@) + (seq![v@] + q0) =~= (
                        view_json_elems(acc@) + seq![v@]) + q0);
                    }
                    acc.push(v);
                    j = j4;
                } else if j3 < s.len() && s[j3] == ']' {
                    proof {
                        assert(s@.skip(j3 as int)[0] == s@[j3 as int]);
                        assert(s@.skip(j3 as int).drop_first() =~= s@.skip(j3 as int + 1));
                        lemma_view_elems_push(acc@, v);
                        assert(view_json_elems(acc@) + seq![v@] =~= view_json_elems(acc@.push(v)));
                    }
                    let mut acc2 = acc;
                    acc2.push(v);
                    return Some((acc2, j3 + 1));
                } else {
                    proof {
                        if j3 < s@.len() {
                            assert(s@.skip(j3 as int)[0] == s@[j3 as int]);
                        }
                    }
                    return None;
                }
            },
        }
    }
}

/// Parses object members from `i` (a key start) through the closing brace.
#[verifier::rlimit(100)]
#[verifier::spinoff_prover]
fn p_members(s: &Vec<char>, i: usize) -> (r: Option<(Vec<(String, JsonValue)>, usize)>)
    requires
        i <= s.len(),
    ensures
        ({
            let sp = parse_members(s@.skip(i as int));
            match r {
                None => sp is None,
                Some(p) => sp matches Some(q) && q.0 == view_json_membs(p.0@) && q.1 == s@.skip(
                    p.1 as int,
                ) && i < p.1 <= s@.len(),
            }
        }),
    decreases s@.len() - i, 2int,
{
    let mut acc: Vec<(String, JsonValue)> = Vec::new();
    let mut j: usize = i;
    proof {
        assert(view_json_membs(acc@) =~= Seq::<(Seq<char>, JsonV)>::empty());
    }
    loop
        invariant
            i <= j <= s@.len(),
            parse_members(s@.skip(i as int)) == (match parse_members(s@.skip(j as int)) {
                Some(q) => Some((view_json_membs(acc@) + q.0, q.1)),
                None => None,
            }),
        decreases s@.len() - j,
    {
        let ghost su = s@.skip(j as int);
        let kr = p_string(s, j);
        match kr {
            None => {
                return None;
            },
            Some(kp) => {
                let (key, j2) = kp;
                let j3 = p_skip_ws(s, j2);
                if !(j3 < s.len() && s[j3] == ':') {
                    proof {
                        if j3 < s@.len() {
                            assert(s@.skip(j3 as int)[0] == s@[j3 as int]);
                        }
                    }
                    return None;
                }
                proof {
                    assert(s@.skip(j3 as int)[0] == s@[j3 as int]);
                    assert(s@.skip(j3 as int).drop_first() =~= s@.skip(j3 as int + 1));
                }
                let j4 = p_skip_ws(s, j3 + 1);
                proof {
                    assert(s@.skip(j4 as int).len() < su.len());
                }
                let vr = p_value(s, j4);
                match vr {
                    None => {
                        return None;
                    },
                    Some(vp) => {
                        let (v, j5) = vp;
                        let j6 = p_skip_ws(s, j5);
                        if j6 < s.len() && s[j6] == ',' {
                            proof {
                                assert(s@.skip(j6 as int)[0] == s@[j6 as int]);
                                assert(s@.skip(j6 as int).drop_first() =~= s@.skip(j6 as int + 1));
                            }
                            let j7 = p_skip_ws(s, j6 + 1);
                            proof {
                                assert(s@.skip(j7 as int).len() < su.len());
                                lemma_view_membs_push(acc@, key, v);
                                assert(forall|q0: Seq<(Seq<char>, JsonV)>| view_json_membs(acc@) + (
                                seq![(key@, v@)] + q0) =~= (view_json_membs(acc@) + seq![
                                    (key@, v@),
                                ]) + q0);
                            }
                            acc.push((key, v));
                            j = j7;
                        } else if j6 < s.len() && s[j6] == '}' {
                            proof {
                                assert(s@.skip(j6 as int)[0] == s@[j6 as int]);
                                assert(s@.skip(j6 as int).drop_first() =~= s@.skip(j6 as int + 1));
                                lemma_view_membs_push(acc@, key, v);
                                assert(view_json_membs(acc@) + seq![(key@, v@)] =~= view_json_membs(acc@.push((key, v))));
                            }
                            let mut acc2 = acc;
                            acc2.push((key, v));
                            return Some((acc2, j6 + 1));
                        } else {
                            proof {
                                if j6 < s@.len() {
                                    assert(s@.skip(j6 as int)[0] == s@[j6 as int]);
                                }
                            }
                            return None;
                        }
                    },
                }
            },
        }
    }
}

/// Parses a whole text as one JSON document; `None` when the text is not
/// well-formed JSON.
pub fn text_to_json(text: &str) -> (r: Option<JsonValue>)
    ensures
        ({
            let sp = parse_text(text@);
            match r {
                None => sp is None,
                Some(v) => sp == Some(v@),
            }
        }),
{
    let cs = crate::text::str_to_chars(text);
    proof {
        assert(cs@.skip(0) =~= text@);
    }
    let i = p_skip_ws(&cs, 0);
    match p_value(&cs, i) {
        None => None,
        Some(p) => {
            let (v, j) = p;
            let j2 = p_skip_ws(&cs, j);
            if j2 == cs.len() {
                proof {
                    assert(cs@.skip(j2 as int).len() == 0);
                }
                Some(v)
            } else {
                proof {
                    assert(skip_ws(cs@.skip(j as int)).len() != 0);
                }
                None
            }
        },
    }
}

} // verus!
