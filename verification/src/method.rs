//! The HTTP verbs the composer supports, their wire names, and the
//! case-insensitive decoding used when a saved request file is loaded.
use vstd::prelude::*;

verus! {

#[derive(Clone, Copy, Debug, PartialEq, Eq, Structural)]
pub enum HttpMethod {
    Get,
    Post,
    Put,
    Delete,
    Patch,
}

impl HttpMethod {
    /// The upper-case wire name of the verb.
    pub open spec fn name_seq(self) -> Seq<char> {
        match self {
            HttpMethod::Get => seq!['G', 'E', 'T'],
            HttpMethod::Post => seq!['P', 'O', 'S', 'T'],
            HttpMethod::Put => seq!['P', 'U', 'T'],
            HttpMethod::Delete => seq!['D', 'E', 'L', 'E', 'T', 'E'],
            HttpMethod::Patch => seq!['P', 'A', 'T', 'C', 'H'],
        }
    }

    pub fn as_str(&self) -> (r: &'static str)
        ensures
            r@ == self.name_seq(),
    {
        proof {
            reveal_strlit("GET");
            reveal_strlit("POST");
            reveal_strlit("PUT");
            reveal_strlit("DELETE");
            reveal_strlit("PATCH");
        }
        match self {
            HttpMethod::Get => "GET",
            HttpMethod::Post => "POST",
            HttpMethod::Put => "PUT",
            HttpMethod::Delete => "DELETE",
            HttpMethod::Patch => "PATCH",
        }
    }

    pub open spec fn spec_next(self) -> HttpMethod {
        match self {
            HttpMethod::Get => HttpMethod::Post,
            HttpMethod::Post => HttpMethod::Put,
            HttpMethod::Put => HttpMethod::Delete,
            HttpMethod::Delete => HttpMethod::Patch,
            HttpMethod::Patch => HttpMethod::Get,
        }
    }

    /// The verb after this one in the composer's cycling order.
    pub fn next(&self) -> (r: HttpMethod)
        ensures
            r == self.spec_next(),
    {
        match self {
            HttpMethod::Get => HttpMethod::Post,
            HttpMethod::Post => HttpMethod::Put,
            HttpMethod::Put => HttpMethod::Delete,
            HttpMethod::Delete => HttpMethod::Patch,
            HttpMethod::Patch => HttpMethod::Get,
        }
    }
}

/// ASCII upper-casing of one character; other characters are unchanged.
pub open spec fn ascii_upper(c: char) -> char {
    if 'a' <= c && c <= 'z' {
        ((c as u32) - 32) as char
    } else {
        c
    }
}

/// ASCII upper-casing of a character sequence.
pub open spec fn ascii_upper_seq(s: Seq<char>) -> Seq<char> {
    Seq::new(s.len(), |i: int| ascii_upper(s[i]))
}

/// The verb whose name matches `s` up to ASCII case, if any. The wire
/// names are ASCII, so ASCII folding decides the match.
pub open spec fn method_of_name(s: Seq<char>) -> Option<HttpMethod> {
    let u = ascii_upper_seq(s);
    if u == HttpMethod::Get.name_seq() {
        Some(HttpMethod::Get)
    } else if u == HttpMethod::Post.name_seq() {
        Some(HttpMethod::Post)
    } else if u == HttpMethod::Put.name_seq() {
        Some(HttpMethod::Put)
    } else if u == HttpMethod::Delete.name_seq() {
        Some(HttpMethod::Delete)
    } else if u == HttpMethod::Patch.name_seq() {
        Some(HttpMethod::Patch)
    } else {
        None
    }
}

/// Decodes a verb name, ignoring ASCII case; `None` for unrecognized names.
pub fn method_from_name(s: &str) -> (r: Option<HttpMethod>)
    ensures
        r == method_of_name(s@),
{
    let cs = crate::text::str_to_chars(s);
    let mut u: Vec<char> = Vec::new();
    let mut i: usize = 0;
    while i < cs.len()
        invariant
            i <= cs.len(),
            cs@ == s@,
            u@ =~= ascii_upper_seq(s@).take(i as int),
        decreases cs.len() - i,
    {
        let c = cs[i];
        let up: char = if 'a' <= c && c <= 'z' {
            match crate::text::char_from_u32((c as u32) - 32) {
                Some(x) => x,
                None => {
                    proof {
                        assert(false);
                    }
                    c
                },
            }
        } else {
            c
        };
        proof {
            if 'a' <= c && c <= 'z' {
                vstd::utf8::char_u32_cast(up, ((c as u32) - 32) as u32);
            }
            assert(up == ascii_upper(c));
        }
        u.push(up);
        i = i + 1;
        proof {
            assert(u@ =~= ascii_upper_seq(s@).take(i as int));
        }
    }
    proof {
        assert(u@ =~= ascii_upper_seq(s@));
    }
    if eq_chars3(&u, 'G', 'E', 'T') {
        Some(HttpMethod::Get)
    } else if eq_chars4(&u, 'P', 'O', 'S', 'T') {
        Some(HttpMethod::Post)
    } else if eq_chars3(&u, 'P', 'U', 'T') {
        Some(HttpMethod::Put)
    } else if eq_chars6(&u, 'D', 'E', 'L', 'E', 'T', 'E') {
        Some(HttpMethod::Delete)
    } else if eq_chars5(&u, 'P', 'A', 'T', 'C', 'H') {
        Some(HttpMethod::Patch)
    } else {
        None
    }
}

fn eq_chars3(u: &Vec<char>, c0: char, c1: char, c2: char) -> (r: bool)
    ensures
        r == (u@ =~= seq![c0, c1, c2]),
{
    u.len() == 3 && u[0] == c0 && u[1] == c1 && u[2] == c2
}

fn eq_chars4(u: &Vec<char>, c0: char, c1: char, c2: char, c3: char) -> (r: bool)
    ensures
        r == (u@ =~= seq![c0, c1, c2, c3]),
{
    u.len() == 4 && u[0] == c0 && u[1] == c1 && u[2] == c2 && u[3] == c3
}

fn eq_chars5(u: &Vec<char>, c0: char, c1: char, c2: char, c3: char, c4: char) -> (r: bool)
    ensures
        r == (u@ =~= seq![c0, c1, c2, c3, c4]),
{
    u.len() == 5 && u[0] == c0 && u[1] == c1 && u[2] == c2 && u[3] == c3 && u[4] == c4
}

fn eq_chars6(u: &Vec<char>, c0: char, c1: char, c2: char, c3: char, c4: char, c5: char) -> (r:
    bool)
    ensures
        r == (u@ =~= seq![c0, c1, c2, c3, c4, c5]),
{
    u.len() == 6 && u[0] == c0 && u[1] == c1 && u[2] == c2 && u[3] == c3 && u[4] == c4 && u[5]
        == c5
}

/// A verb's own wire name decodes back to the verb.
pub proof fn lemma_method_name_round(m: HttpMethod)
    ensures
        method_of_name(m.name_seq()) == Some(m),
{
    let u = ascii_upper_seq(m.name_seq());
    assert(u =~= m.name_seq());
    match m {
        HttpMethod::Get => {
        },
        HttpMethod::Post => {
        },
        HttpMethod::Put => {
            assert(u[0] == 'P' && HttpMethod::Get.name_seq()[0] == 'G');
        },
        HttpMethod::Delete => {
        },
        HttpMethod::Patch => {
            assert(u[0] == 'P' && HttpMethod::Get.name_seq()[0] == 'G');
            assert(u[1] == 'A' && HttpMethod::Put.name_seq()[1] == 'U');
        },
    }
}

} // verus!
