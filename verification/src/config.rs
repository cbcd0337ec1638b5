//! The persisted configuration: the last opened folder, as one small JSON
//! file. A missing or unreadable file and a malformed one alike yield the
//! defaults; reading never fails the caller.
use vstd::prelude::*;

verus! {

use crate::json::JsonV;
use crate::json::JsonValue;

/// The application's configuration.
#[derive(Clone, Debug, PartialEq, Eq)]
pub struct AppConfig {
    pub last_opened_folder: Option<String>,
}

impl View for AppConfig {
    type V = Option<Seq<char>>;

    open spec fn view(&self) -> Option<Seq<char>> {
        crate::record::opt_string_view(self.last_opened_folder)
    }
}

pub open spec fn key_last_folder() -> Seq<char> {
    seq!['l', 'a', 's', 't', '_', 'o', 'p', 'e', 'n', 'e', 'd', '_', 'f', 'o', 'l', 'd', 'e', 'r']
}

/// The document the configuration is written as: one object whose single
/// field is the folder, or null when none is remembered.
pub open spec fn config_json(c: Option<Seq<char>>) -> JsonV {
    JsonV::Obj(
        seq![
            (
                key_last_folder(),
                match c {
                    Some(p) => JsonV::Str(p),
                    None => JsonV::Null,
                },
            ),
        ],
    )
}

pub open spec fn config_text(c: Option<Seq<char>>) -> Seq<char> {
    crate::json::print_json(config_json(c), 0)
}

/// Reads the folder from an object's members: a later occurrence of the
/// field overwrites an earlier one, unknown fields are ignored, and a
/// value that is neither a string nor null is an error.
pub open spec fn config_fold(ms: Seq<(Seq<char>, JsonV)>, acc: Option<Seq<char>>) -> Option<
    Option<Seq<char>>,
>
    decreases ms.len(),
{
    if ms.len() == 0 {
        Some(acc)
    } else if ms[0].0 == key_last_folder() {
        match ms[0].1 {
            JsonV::Str(p) => config_fold(ms.drop_first(), Some(p)),
            JsonV::Null => config_fold(ms.drop_first(), None),
            _ => None,
        }
    } else {
        config_fold(ms.drop_first(), acc)
    }
}

/// What a configuration file's text decodes to: defaults when the text is
/// not JSON, not an object, or holds the field with a foreign shape.
pub open spec fn decode_config_text(s: Seq<char>) -> Option<Seq<char>> {
    match crate::json::parse_text(s) {
        Some(m) => match m {
            JsonV::Obj(ms) => match config_fold(ms, None) {
                Some(c) => c,
                None => None,
            },
            _ => None,
        },
        None => None,
    }
}

/// The configuration written back and read again is itself.
pub proof fn lemma_config_round_trip(c: Option<Seq<char>>)
    ensures
        decode_config_text(config_text(c)) == c,
{
    let m = config_json(c);
    assert(crate::json::wf_json(m)) by {
        let ms = m->Obj_0;
        assert(forall|i: int| 0 <= i < ms.len() ==> crate::json::wf_json((#[trigger] ms[i]).1));
    }
    crate::json::lemma_print_parse_round_trip(m);
    let ms = m->Obj_0;
    assert(ms.drop_first().len() == 0);
    match c {
        Some(p) => {
            assert(ms[0] == (key_last_folder(), JsonV::Str(p)));
            assert(config_fold(ms, None) == config_fold(ms.drop_first(), Some(p)));
        },
        None => {
            assert(ms[0] == (key_last_folder(), JsonV::Null));
            assert(config_fold(ms, None) == config_fold(ms.drop_first(), None));
        },
    }
    assert(config_fold(ms, None) == Some(c));
}

impl AppConfig {
    /// The exact text the configuration is saved as.
    pub fn to_text(&self) -> (out: String)
        ensures
            out@ == config_text(self@),
    {
        let key = String::from_str("last_opened_folder");
        let value: JsonValue = match &self.last_opened_folder {
            Some(p) => JsonValue::Str(p.clone()),
            None => JsonValue::Null,
        };
        let mut ms: Vec<(String, JsonValue)> = Vec::new();
        ms.push((key, value));
        let doc = JsonValue::Obj(ms);
        proof {
            reveal_strlit("last_opened_folder");
            assert("last_opened_folder"@ =~= key_last_folder());
            let msv = doc->Obj_0@;
            crate::json::lemma_view_membs(msv);
            crate::json::lemma_view_variant(msv[0].1);
            assert(crate::json::view_json_membs(msv)[0] == (msv[0].0@, crate::json::view_json(
                msv[0].1,
            )));
            assert(crate::json::view_json_membs(msv) =~= config_json(self@)->Obj_0);
            assert(doc@ =~= config_json(self@));
        }
        crate::json::json_to_text(&doc)
    }

    /// The configuration a file's text yields: the defaults whenever the
    /// text does not decode.
    pub fn from_text(text: &str) -> (r: AppConfig)
        ensures
            r@ == decode_config_text(text@),
    {
        let key = String::from_str("last_opened_folder");
        proof {
            reveal_strlit("last_opened_folder");
            assert(key@ =~= key_last_folder());
        }
        let doc = match crate::json::text_to_json(text) {
            None => {
                return AppConfig { last_opened_folder: None };
            },
            Some(doc) => doc,
        };
        match &doc {
            JsonValue::Obj(ms) => {
                let ghost mv = crate::json::view_json_membs(ms@);
                proof {
                    crate::json::lemma_view_membs(ms@);
                }
                let mut acc: Option<String> = None;
                let mut i: usize = 0;
                proof {
                    assert(mv.skip(0) =~= mv);
                }
                while i < ms.len()
                    invariant
                        i <= ms.len(),
                        doc@ == JsonV::Obj(mv),
                        crate::json::parse_text(text@) == Some(doc@),
                        mv == crate::json::view_json_membs(ms@),
                        mv.len() == ms@.len(),
                        key@ == key_last_folder(),
                        forall|t: int|
                            0 <= t < ms@.len() ==> mv[t] == ((#[trigger] ms@[t]).0@,
                            crate::json::view_json(ms@[t].1)),
                        config_fold(mv, None) == config_fold(
                            mv.skip(i as int),
                            crate::record::opt_string_view(acc),
                        ),
                    decreases ms.len() - i,
                {
                    proof {
                        assert(mv.skip(i as int)[0] == mv[i as int]);
                        assert(mv.skip(i as int).drop_first() =~= mv.skip(i as int + 1));
                        crate::json::lemma_view_variant(ms@[i as int].1);
                    }
                    if ms[i].0 == key {
                        match &ms[i].1 {
                            JsonValue::Str(p) => {
                                acc = Some(p.clone());
                            },
                            JsonValue::Null => {
                                acc = None;
                            },
                            _ => {
                                proof {
                                    assert(config_fold(mv, None) is None);
                                }
                                return AppConfig { last_opened_folder: None };
                            },
                        }
                    }
                    i = i + 1;
                }
                proof {
                    assert(mv.skip(mv.len() as int).len() == 0);
                }
                AppConfig { last_opened_folder: acc }
            },
            _ => AppConfig { last_opened_folder: None },
        }
    }
}

} // verus!
