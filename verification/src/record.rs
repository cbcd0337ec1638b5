//! The on-disk shape of a saved request and of the configuration file:
//! what exactly is written, what is accepted back, and the proof that a
//! saved record loads unchanged.
use vstd::prelude::*;

verus! {

use crate::json::JsonV;
use crate::json::JsonValue;

/// A saved request as one file holds it. Headers are a mapping: the keys
/// are distinct whenever the record came from this library's own encoder
/// or decoder.
#[derive(Clone, Debug, PartialEq, Eq)]
pub struct SavedRequest {
    pub name: String,
    pub method: String,
    pub url: String,
    pub headers: Vec<(String, String)>,
    pub body: String,
}

/// The mathematical shape of a saved request.
#[verifier::ext_equal]
pub struct SavedRequestV {
    pub name: Seq<char>,
    pub method: Seq<char>,
    pub url: Seq<char>,
    pub headers: Seq<(Seq<char>, Seq<char>)>,
    pub body: Seq<char>,
}

pub open spec fn pairs_view(hs: Seq<(String, String)>) -> Seq<(Seq<char>, Seq<char>)> {
    Seq::new(hs.len(), |i: int| (hs[i].0@, hs[i].1@))
}

impl View for SavedRequest {
    type V = SavedRequestV;

    open spec fn view(&self) -> SavedRequestV {
        SavedRequestV {
            name: self.name@,
            method: self.method@,
            url: self.url@,
            headers: pairs_view(self.headers@),
            body: self.body@,
        }
    }
}

/// No two header rows share a key.
pub open spec fn distinct_keys(hs: Seq<(Seq<char>, Seq<char>)>) -> bool {
    forall|i: int, j: int| 0 <= i < j < hs.len() ==> (#[trigger] hs[i]).0 != (#[trigger] hs[j]).0
}

// ===== field names =====

pub open spec fn key_name() -> Seq<char> {
    seq!['n', 'a', 'm', 'e']
}

pub open spec fn key_method() -> Seq<char> {
    seq!['m', 'e', 't', 'h', 'o', 'd']
}

pub open spec fn key_url() -> Seq<char> {
    seq!['u', 'r', 'l']
}

pub open spec fn key_headers() -> Seq<char> {
    seq!['h', 'e', 'a', 'd', 'e', 'r', 's']
}

pub open spec fn key_body() -> Seq<char> {
    seq!['b', 'o', 'd', 'y']
}

// ===== encoding =====

pub open spec fn headers_json(hs: Seq<(Seq<char>, Seq<char>)>) -> Seq<(Seq<char>, JsonV)> {
    Seq::new(hs.len(), |i: int| (hs[i].0, JsonV::Str(hs[i].1)))
}

/// The document a record is written as: one object with the five fields,
/// the headers as a nested object of strings.
pub open spec fn record_json(r: SavedRequestV) -> JsonV {
    JsonV::Obj(
        seq![
            (key_name(), JsonV::Str(r.name)),
            (key_method(), JsonV::Str(r.method)),
            (key_url(), JsonV::Str(r.url)),
            (key_headers(), JsonV::Obj(headers_json(r.headers))),
            (key_body(), JsonV::Str(r.body)),
        ],
    )
}

/// The exact text a record is saved as.
pub open spec fn record_text(r: SavedRequestV) -> Seq<char> {
    crate::json::print_json(record_json(r), 0)
}

// ===== decoding =====

/// Replaces the value at a key's first occurrence, or appends the pair:
/// the mapping semantics of a JSON object, duplicate keys last-write-wins.
pub open spec fn upsert(hs: Seq<(Seq<char>, Seq<char>)>, k: Seq<char>, v: Seq<char>) -> Seq<
    (Seq<char>, Seq<char>),
>
    decreases hs.len(),
{
    if hs.len() == 0 {
        seq![(k, v)]
    } else if hs[0].0 == k {
        seq![(k, v)] + hs.drop_first()
    } else {
        seq![hs[0]] + upsert(hs.drop_first(), k, v)
    }
}

/// Reads a headers object: every member must be a string; duplicate keys
/// collapse, last write wins.
pub open spec fn headers_fold(
    ms: Seq<(Seq<char>, JsonV)>,
    acc: Seq<(Seq<char>, Seq<char>)>,
) -> Option<Seq<(Seq<char>, Seq<char>)>>
    decreases ms.len(),
{
    if ms.len() == 0 {
        Some(acc)
    } else {
        match ms[0].1 {
            JsonV::Str(v) => headers_fold(ms.drop_first(), upsert(acc, ms[0].0, v)),
            _ => None,
        }
    }
}

/// A record in the making: the fields seen so far.
#[verifier::ext_equal]
pub struct RecAcc {
    pub name: Option<Seq<char>>,
    pub method: Option<Seq<char>>,
    pub url: Option<Seq<char>>,
    pub headers: Option<Seq<(Seq<char>, Seq<char>)>>,
    pub body: Option<Seq<char>>,
}

pub open spec fn empty_acc() -> RecAcc {
    RecAcc { name: None, method: None, url: None, headers: None, body: None }
}

/// One member applied to the accumulator: a known field must have the
/// right shape, an unknown field is ignored; a later occurrence of a field
/// overwrites an earlier one.
pub open spec fn apply_member(acc: RecAcc, k: Seq<char>, v: JsonV) -> Option<RecAcc> {
    if k == key_name() {
        match v {
            JsonV::Str(s) => Some(RecAcc { name: Some(s), ..acc }),
            _ => None,
        }
    } else if k == key_method() {
        match v {
            JsonV::Str(s) => Some(RecAcc { method: Some(s), ..acc }),
            _ => None,
        }
    } else if k == key_url() {
        match v {
            JsonV::Str(s) => Some(RecAcc { url: Some(s), ..acc }),
            _ => None,
        }
    } else if k == key_headers() {
        match v {
            JsonV::Obj(hms) => match headers_fold(hms, Seq::empty()) {
                Some(hs) => Some(RecAcc { headers: Some(hs), ..acc }),
                None => None,
            },
            _ => None,
        }
    } else if k == key_body() {
        match v {
            JsonV::Str(s) => Some(RecAcc { body: Some(s), ..acc }),
            _ => None,
        }
    } else {
        Some(acc)
    }
}

pub open spec fn record_fold(ms: Seq<(Seq<char>, JsonV)>, acc: RecAcc) -> Option<RecAcc>
    decreases ms.len(),
{
    if ms.len() == 0 {
        Some(acc)
    } else {
        match apply_member(acc, ms[0].0, ms[0].1) {
            Some(acc2) => record_fold(ms.drop_first(), acc2),
            None => None,
        }
    }
}

/// A finished accumulator as a record: name, method and url are required,
/// headers default to none, the body to the empty string.
pub open spec fn finish_acc(acc: RecAcc) -> Option<SavedRequestV> {
    match (acc.name, acc.method, acc.url) {
        (Some(n), Some(m), Some(u)) => Some(
            SavedRequestV {
                name: n,
                method: m,
                url: u,
                headers: match acc.headers {
                    Some(hs) => hs,
                    None => Seq::empty(),
                },
                body: match acc.body {
                    Some(b) => b,
                    None => Seq::empty(),
                },
            },
        ),
        _ => None,
    }
}

/// A record read back from a document: the document must be an object.
pub open spec fn record_of_json(m: JsonV) -> Option<SavedRequestV> {
    match m {
        JsonV::Obj(ms) => match record_fold(ms, empty_acc()) {
            Some(acc) => finish_acc(acc),
            None => None,
        },
        _ => None,
    }
}

/// What a saved-request file's text decodes to, if anything.
pub open spec fn decode_record_text(s: Seq<char>) -> Option<SavedRequestV> {
    match crate::json::parse_text(s) {
        Some(m) => record_of_json(m),
        None => None,
    }
}

// ===== the record round trip =====

pub(crate) proof fn lemma_upsert_absent(hs: Seq<(Seq<char>, Seq<char>)>, k: Seq<char>, v: Seq<char>)
    requires
        forall|i: int| 0 <= i < hs.len() ==> (#[trigger] hs[i]).0 != k,
    ensures
        upsert(hs, k, v) == hs.push((k, v)),
    decreases hs.len(),
{
    if hs.len() == 0 {
        assert(upsert(hs, k, v) =~= hs.push((k, v)));
    } else {
        lemma_upsert_absent(hs.drop_first(), k, v);
        assert(seq![hs[0]] + hs.drop_first().push((k, v)) =~= hs.push((k, v)));
    }
}

proof fn lemma_headers_fold_round(hs: Seq<(Seq<char>, Seq<char>)>, k: int)
    requires
        distinct_keys(hs),
        0 <= k <= hs.len(),
    ensures
        headers_fold(headers_json(hs).skip(k), hs.take(k)) == Some(hs),
    decreases hs.len() - k,
{
    let ms = headers_json(hs).skip(k);
    if k == hs.len() {
        assert(ms.len() == 0);
        assert(hs.take(k) =~= hs);
    } else {
        assert(ms[0] == (hs[k].0, JsonV::Str(hs[k].1)));
        assert(forall|i: int| 0 <= i < k ==> (#[trigger] hs.take(k)[i]).0 != hs[k].0);
        lemma_upsert_absent(hs.take(k), hs[k].0, hs[k].1);
        assert(hs.take(k).push((hs[k].0, hs[k].1)) =~= hs.take(k + 1));
        assert(ms.drop_first() =~= headers_json(hs).skip(k + 1));
        lemma_headers_fold_round(hs, k + 1);
    }
}

/// A record's document decodes to the record itself, whenever its header
/// keys are distinct.
pub proof fn lemma_record_json_round(r: SavedRequestV)
    requires
        distinct_keys(r.headers),
    ensures
        record_of_json(record_json(r)) == Some(r),
{
    let ms = record_json(r)->Obj_0;
    lemma_headers_fold_round(r.headers, 0);
    assert(headers_json(r.headers).skip(0) =~= headers_json(r.headers));
    assert(r.headers.take(0) =~= Seq::<(Seq<char>, Seq<char>)>::empty());
    assert(headers_fold(headers_json(r.headers), Seq::empty()) == Some(r.headers));
    let a0 = empty_acc();
    let a1 = RecAcc { name: Some(r.name), ..a0 };
    let a2 = RecAcc { method: Some(r.method), ..a1 };
    let a3 = RecAcc { url: Some(r.url), ..a2 };
    let a4 = RecAcc { headers: Some(r.headers), ..a3 };
    let a5 = RecAcc { body: Some(r.body), ..a4 };
    assert(ms.drop_first() =~= ms.skip(1));
    assert(ms.skip(1).drop_first() =~= ms.skip(2));
    assert(ms.skip(2).drop_first() =~= ms.skip(3));
    assert(ms.skip(3).drop_first() =~= ms.skip(4));
    assert(ms.skip(4).drop_first() =~= ms.skip(5));
    assert(ms.skip(5).len() == 0);
    assert(key_body()[0] == 'b' && key_name()[0] == 'n');
    assert(key_body() != key_name());
    assert(ms[0] == (key_name(), JsonV::Str(r.name)));
    assert(apply_member(a0, key_name(), JsonV::Str(r.name)) == Some(a1));
    assert(record_fold(ms, a0) == record_fold(ms.skip(1), a1));
    assert(ms.skip(1)[0] == (key_method(), JsonV::Str(r.method)));
    assert(apply_member(a1, key_method(), JsonV::Str(r.method)) == Some(a2));
    assert(record_fold(ms.skip(1), a1) == record_fold(ms.skip(2), a2));
    assert(ms.skip(2)[0] == (key_url(), JsonV::Str(r.url)));
    assert(apply_member(a2, key_url(), JsonV::Str(r.url)) == Some(a3));
    assert(record_fold(ms.skip(2), a2) == record_fold(ms.skip(3), a3));
    assert(ms.skip(3)[0] == (key_headers(), JsonV::Obj(headers_json(r.headers))));
    assert(apply_member(a3, key_headers(), JsonV::Obj(headers_json(r.headers))) == Some(a4));
    assert(record_fold(ms.skip(3), a3) == record_fold(ms.skip(4), a4));
    assert(ms.skip(4)[0] == (key_body(), JsonV::Str(r.body)));
    assert(apply_member(a4, key_body(), JsonV::Str(r.body)) == Some(a5));
    assert(record_fold(ms.skip(4), a4) == record_fold(ms.skip(5), a5));
    assert(record_fold(ms, a0) == Some(a5));
    assert(finish_acc(a5) =~= Some(r));
}

/// Every record's document is well formed: it holds no numbers.
pub proof fn lemma_record_json_wf(r: SavedRequestV)
    ensures
        crate::json::wf_json(record_json(r)),
{
    let ms = record_json(r)->Obj_0;
    let hms = headers_json(r.headers);
    assert(forall|i: int|
        0 <= i < hms.len() ==> crate::json::wf_json((#[trigger] hms[i]).1));
    assert(forall|i: int|
        0 <= i < ms.len() ==> crate::json::wf_json((#[trigger] ms[i]).1));
}

/// Saving and re-reading a record gives the record back.
pub proof fn lemma_record_text_round_trip(r: SavedRequestV)
    requires
        distinct_keys(r.headers),
    ensures
        decode_record_text(record_text(r)) == Some(r),
{
    lemma_record_json_wf(r);
    crate::json::lemma_print_parse_round_trip(record_json(r));
    lemma_record_json_round(r);
}

// ===== executable encoding =====

/// The exact text `r` is saved as.
pub fn saved_request_to_text(r: &SavedRequest) -> (out: String)
    ensures
        out@ == record_text(r@),
{
    let mut hms: Vec<(String, JsonValue)> = Vec::new();
    let ghost hsv = pairs_view(r.headers@);
    let mut i: usize = 0;
    proof {
        assert(crate::json::view_json_membs(hms@) =~= headers_json(hsv).take(0));
    }
    while i < r.headers.len()
        invariant
            i <= r.headers.len(),
            hsv == pairs_view(r.headers@),
            crate::json::view_json_membs(hms@) == headers_json(hsv).take(i as int),
        decreases r.headers.len() - i,
    {
        let k = r.headers[i].0.clone();
        let v = r.headers[i].1.clone();
        proof {
            crate::json::lemma_view_membs_push(hms@, k, JsonValue::Str(v));
        }
        hms.push((k, JsonValue::Str(v)));
        i = i + 1;
        proof {
            assert(crate::json::view_json_membs(hms@) =~= headers_json(hsv).take(i as int));
        }
    }
    proof {
        assert(headers_json(hsv).take(hsv.len() as int) =~= headers_json(hsv));
    }
    let mut ms: Vec<(String, JsonValue)> = Vec::new();
    ms.push((String::from_str("name"), JsonValue::Str(r.name.clone())));
    ms.push((String::from_str("method"), JsonValue::Str(r.method.clone())));
    ms.push((String::from_str("url"), JsonValue::Str(r.url.clone())));
    ms.push((String::from_str("headers"), JsonValue::Obj(hms)));
    ms.push((String::from_str("body"), JsonValue::Str(r.body.clone())));
    let doc = JsonValue::Obj(ms);
    proof {
        reveal_strlit("name");
        reveal_strlit("method");
        reveal_strlit("url");
        reveal_strlit("headers");
        reveal_strlit("body");
        assert("name"@ =~= key_name());
        assert("method"@ =~= key_method());
        assert("url"@ =~= key_url());
        assert("headers"@ =~= key_headers());
        assert("body"@ =~= key_body());
        let msv = doc->Obj_0@;
        crate::json::lemma_view_membs(msv);
        let dv = crate::json::view_json_membs(msv);
        assert(msv.len() == 5);
        assert(msv[0].0@ == key_name() && crate::json::view_json(msv[0].1) == JsonV::Str(
            r@.name,
        ));
        assert(msv[1].0@ == key_method() && crate::json::view_json(msv[1].1) == JsonV::Str(
            r@.method,
        ));
        assert(msv[2].0@ == key_url() && crate::json::view_json(msv[2].1) == JsonV::Str(r@.url));
        assert(msv[3].0@ == key_headers() && crate::json::view_json(msv[3].1) == JsonV::Obj(
            headers_json(r@.headers),
        ));
        assert(msv[4].0@ == key_body() && crate::json::view_json(msv[4].1) == JsonV::Str(
            r@.body,
        ));
        assert(dv[0] == (msv[0].0@, crate::json::view_json(msv[0].1)));
        assert(dv[1] == (msv[1].0@, crate::json::view_json(msv[1].1)));
        assert(dv[2] == (msv[2].0@, crate::json::view_json(msv[2].1)));
        assert(dv[3] == (msv[3].0@, crate::json::view_json(msv[3].1)));
        assert(dv[4] == (msv[4].0@, crate::json::view_json(msv[4].1)));
        assert(dv =~= record_json(r@)->Obj_0);
        assert(doc@ =~= record_json(r@));
    }
    crate::json::json_to_text(&doc)
}

// ===== executable decoding =====

pub open spec fn opt_string_view(o: Option<String>) -> Option<Seq<char>> {
    match o {
        Some(s) => Some(s@),
        None => None,
    }
}

pub open spec fn opt_pairs_view(o: Option<Vec<(String, String)>>) -> Option<
    Seq<(Seq<char>, Seq<char>)>,
> {
    match o {
        Some(hs) => Some(pairs_view(hs@)),
        None => None,
    }
}

/// Replaces the value at the first occurrence of `k`, or appends the pair.
pub(crate) fn upsert_pairs(hs: Vec<(String, String)>, k: String, v: String) -> (out: Vec<(String, String)>)
    ensures
        pairs_view(out@) == upsert(pairs_view(hs@), k@, v@),
{
    let ghost pv = pairs_view(hs@);
    let mut out: Vec<(String, String)> = Vec::new();
    let mut done: bool = false;
    let mut i: usize = 0;
    proof {
        assert(pv.skip(0) =~= pv);
        assert(pairs_view(out@) + upsert(pv.skip(0), k@, v@) =~= upsert(pv, k@, v@));
    }
    while i < hs.len()
        invariant
            i <= hs.len(),
            pv == pairs_view(hs@),
            !done ==> upsert(pv, k@, v@) == pairs_view(out@) + upsert(
                pv.skip(i as int),
                k@,
                v@,
            ),
            done ==> upsert(pv, k@, v@) == pairs_view(out@) + pv.skip(i as int),
        decreases hs.len() - i,
    {
        proof {
            assert(pv.skip(i as int)[0] == pv[i as int]);
            assert(pv.skip(i as int).drop_first() =~= pv.skip(i as int + 1));
        }
        if !done && hs[i].0 == k {
            out.push((k.clone(), v.clone()));
            done = true;
            proof {
                assert(pairs_view(out@) =~= pairs_view(out@.take(out@.len() - 1)) + seq![
                    (k@, v@),
                ]);
                assert(upsert(pv, k@, v@) =~= pairs_view(out@) + pv.skip(i as int + 1));
            }
        } else {
            out.push((hs[i].0.clone(), hs[i].1.clone()));
            proof {
                assert(pairs_view(out@) =~= pairs_view(out@.take(out@.len() - 1)) + seq![
                    pv[i as int],
                ]);
                if done {
                    assert(upsert(pv, k@, v@) =~= pairs_view(out@) + pv.skip(i as int + 1));
                } else {
                    assert(upsert(pv, k@, v@) =~= pairs_view(out@) + upsert(
                        pv.skip(i as int + 1),
                        k@,
                        v@,
                    ));
                }
            }
        }
        i = i + 1;
    }
    proof {
        assert(pv.skip(pv.len() as int).len() == 0);
    }
    if !done {
        out.push((k, v));
        proof {
            assert(upsert(pv.skip(pv.len() as int), k@, v@) =~= seq![(k@, v@)]);
            assert(pairs_view(out@) =~= pairs_view(out@.take(out@.len() - 1)) + seq![(k@, v@)]);
            assert(pairs_view(out@) =~= upsert(pv, k@, v@));
        }
    } else {
        proof {
            assert(pairs_view(out@) + pv.skip(pv.len() as int) =~= pairs_view(out@));
        }
    }
    out
}

/// Reads a headers object: every member must be a string; duplicate keys
/// collapse, last write wins.
fn headers_from_json(hms: &Vec<(String, JsonValue)>) -> (r: Option<Vec<(String, String)>>)
    ensures
        ({
            let sp = headers_fold(crate::json::view_json_membs(hms@), Seq::empty());
            match r {
                None => sp is None,
                Some(hs) => sp == Some(pairs_view(hs@)),
            }
        }),
{
    let ghost mv = crate::json::view_json_membs(hms@);
    proof {
        crate::json::lemma_view_membs(hms@);
    }
    let mut acc: Vec<(String, String)> = Vec::new();
    let mut i: usize = 0;
    proof {
        assert(mv.skip(0) =~= mv);
        assert(pairs_view(acc@) =~= Seq::<(Seq<char>, Seq<char>)>::empty());
    }
    while i < hms.len()
        invariant
            i <= hms.len(),
            mv == crate::json::view_json_membs(hms@),
            mv.len() == hms@.len(),
            forall|t: int|
                0 <= t < hms@.len() ==> mv[t] == ((#[trigger] hms@[t]).0@, crate::json::view_json(
                    hms@[t].1,
                )),
            headers_fold(mv, Seq::empty()) == headers_fold(
                mv.skip(i as int),
                pairs_view(acc@),
            ),
        decreases hms.len() - i,
    {
        proof {
            assert(mv.skip(i as int)[0] == mv[i as int]);
            assert(mv.skip(i as int).drop_first() =~= mv.skip(i as int + 1));
        }
        match &hms[i].1 {
            JsonValue::Str(v) => {
                let k = hms[i].0.clone();
                let vv = v.clone();
                acc = upsert_pairs(acc, k, vv);
                i = i + 1;
            },
            _ => {
                return None;
            },
        }
    }
    proof {
        assert(mv.skip(mv.len() as int).len() == 0);
    }
    Some(acc)
}

/// Reads a record from a parsed document.
fn record_from_json(doc: &JsonValue) -> (r: Option<SavedRequest>)
    ensures
        ({
            let sp = record_of_json(doc@);
            match r {
                None => sp is None,
                Some(rec) => sp == Some(rec@),
            }
        }),
{
    let key_n = String::from_str("name");
    let key_m = String::from_str("method");
    let key_u = String::from_str("url");
    let key_h = String::from_str("headers");
    let key_b = String::from_str("body");
    proof {
        reveal_strlit("name");
        reveal_strlit("method");
        reveal_strlit("url");
        reveal_strlit("headers");
        reveal_strlit("body");
        assert(key_n@ =~= key_name());
        assert(key_m@ =~= key_method());
        assert(key_u@ =~= key_url());
        assert(key_h@ =~= key_headers());
        assert(key_b@ =~= key_body());
    }
    match doc {
        JsonValue::Obj(ms) => {
            let ghost mv = crate::json::view_json_membs(ms@);
            proof {
                crate::json::lemma_view_membs(ms@);
            }
            let mut name: Option<String> = None;
            let mut method: Option<String> = None;
            let mut url: Option<String> = None;
            let mut headers: Option<Vec<(String, String)>> = None;
            let mut body: Option<String> = None;
            let mut i: usize = 0;
            proof {
                assert(mv.skip(0) =~= mv);
                assert(doc@ == JsonV::Obj(mv));
            }
            while i < ms.len()
                invariant
                    i <= ms.len(),
                    doc@ == JsonV::Obj(mv),
                    mv == crate::json::view_json_membs(ms@),
                    mv.len() == ms@.len(),
                    forall|t: int|
                        0 <= t < ms@.len() ==> mv[t] == ((#[trigger] ms@[t]).0@,
                        crate::json::view_json(ms@[t].1)),
                    key_n@ == key_name() && key_m@ == key_method() && key_u@ == key_url()
                        && key_h@ == key_headers() && key_b@ == key_body(),
                    record_fold(mv, empty_acc()) == record_fold(
                        mv.skip(i as int),
                        RecAcc {
                            name: opt_string_view(name),
                            method: opt_string_view(method),
                            url: opt_string_view(url),
                            headers: opt_pairs_view(headers),
                            body: opt_string_view(body),
                        },
                    ),
                decreases ms.len() - i,
            {
                let ghost acc = RecAcc {
                    name: opt_string_view(name),
                    method: opt_string_view(method),
                    url: opt_string_view(url),
                    headers: opt_pairs_view(headers),
                    body: opt_string_view(body),
                };
                proof {
                    assert(mv.skip(i as int)[0] == mv[i as int]);
                    assert(mv.skip(i as int).drop_first() =~= mv.skip(i as int + 1));
                    crate::json::lemma_view_variant(ms@[i as int].1);
                }
                let k = &ms[i].0;
                let v = &ms[i].1;
                if *k == key_n {
                    match v {
                        JsonValue::Str(s) => {
                            proof {
                                assert(apply_member(acc, mv[i as int].0, mv[i as int].1) == Some(
                                    RecAcc { name: Some(s@), ..acc },
                                ));
                            }
                            name = Some(s.clone());
                        },
                        _ => {
                            proof {
                                assert(apply_member(acc, mv[i as int].0, mv[i as int].1) is None);
                                assert(record_fold(mv, empty_acc()) is None);
                            }
                            return None;
                        },
                    }
                } else if *k == key_m {
                    match v {
                        JsonValue::Str(s) => {
                            proof {
                                assert(apply_member(acc, mv[i as int].0, mv[i as int].1) == Some(
                                    RecAcc { method: Some(s@), ..acc },
                                ));
                            }
                            method = Some(s.clone());
                        },
                        _ => {
                            proof {
                                assert(apply_member(acc, mv[i as int].0, mv[i as int].1) is None);
                                assert(record_fold(mv, empty_acc()) is None);
                            }
                            return None;
                        },
                    }
                } else if *k == key_u {
                    match v {
                        JsonValue::Str(s) => {
                            proof {
                                assert(apply_member(acc, mv[i as int].0, mv[i as int].1) == Some(
                                    RecAcc { url: Some(s@), ..acc },
                                ));
                            }
                            url = Some(s.clone());
                        },
                        _ => {
                            proof {
                                assert(apply_member(acc, mv[i as int].0, mv[i as int].1) is None);
                                assert(record_fold(mv, empty_acc()) is None);
                            }
                            return None;
                        },
                    }
                } else if *k == key_h {
                    match v {
                        JsonValue::Obj(hms) => {
                            match headers_from_json(hms) {
                                Some(hs) => {
                                    proof {
                                        assert(apply_member(acc, mv[i as int].0, mv[i as int].1)
                                            == Some(
                                            RecAcc { headers: Some(pairs_view(hs@)), ..acc },
                                        ));
                                    }
                                    headers = Some(hs);
                                },
                                None => {
                                    proof {
                                        assert(apply_member(acc, mv[i as int].0, mv[i as int].1)
                                            is None);
                                        assert(record_fold(mv, empty_acc()) is None);
                                    }
                                    return None;
                                },
                            }
                        },
                        _ => {
                            proof {
                                assert(apply_member(acc, mv[i as int].0, mv[i as int].1) is None);
                                assert(record_fold(mv, empty_acc()) is None);
                            }
                            return None;
                        },
                    }
                } else if *k == key_b {
                    match v {
                        JsonValue::Str(s) => {
                            proof {
                                assert(apply_member(acc, mv[i as int].0, mv[i as int].1) == Some(
                                    RecAcc { body: Some(s@), ..acc },
                                ));
                            }
                            body = Some(s.clone());
                        },
                        _ => {
                            proof {
                                assert(apply_member(acc, mv[i as int].0, mv[i as int].1) is None);
                                assert(record_fold(mv, empty_acc()) is None);
                            }
                            return None;
                        },
                    }
                } else {
                    proof {
                        assert(apply_member(acc, mv[i as int].0, mv[i as int].1) == Some(acc));
                    }
                }
                i = i + 1;
            }
            proof {
                assert(mv.skip(mv.len() as int).len() == 0);
            }
            match (name, method, url) {
                (Some(n), Some(m), Some(u)) => {
                    let hs: Vec<(String, String)> = match headers {
                        Some(hs) => hs,
                        None => Vec::new(),
                    };
                    let b: String = match body {
                        Some(b) => b,
                        None => String::new(),
                    };
                    proof {
                        if hs@.len() == 0 {
                            assert(pairs_view(hs@) =~= Seq::<(Seq<char>, Seq<char>)>::empty());
                        }
                    }
                    let rec = SavedRequest { name: n, method: m, url: u, headers: hs, body: b };
                    proof {
                        assert(record_of_json(doc@) matches Some(q) && q =~= rec@);
                    }
                    Some(rec)
                },
                _ => None,
            }
        },
        _ => None,
    }
}

/// Reads a record from a file's text; `None` when the text is not JSON or
/// does not have a record's shape.
pub fn saved_request_from_text(text: &str) -> (r: Option<SavedRequest>)
    ensures
        ({
            let sp = decode_record_text(text@);
            match r {
                None => sp is None,
                Some(rec) => sp == Some(rec@),
            }
        }),
{
    match crate::json::text_to_json(text) {
        None => None,
        Some(doc) => record_from_json(&doc),
    }
}

/// The verb a saved-request file's text declares, read without regard to
/// ASCII case; `None` when the text does not decode or names no known verb.
pub open spec fn infer_method(content: Option<Seq<char>>) -> Option<crate::method::HttpMethod> {
    match content {
        None => None,
        Some(text) => match decode_record_text(text) {
            Some(rec) => crate::method::method_of_name(rec.method),
            None => None,
        },
    }
}

/// The verb hint for a workspace entry: `content` is the file's text where
/// it could be read. A file that cannot be read or parsed gives no hint.
pub fn parse_method_from_file(content: &Option<String>) -> (r: Option<crate::method::HttpMethod>)
    ensures
        r == infer_method(match *content {
            Some(ref s) => Some(s@),
            None => None,
        }),
{
    match content {
        None => None,
        Some(text) => match saved_request_from_text(text.as_str()) {
            Some(rec) => crate::method::method_from_name(rec.method.as_str()),
            None => None,
        },
    }
}

} // verus!
