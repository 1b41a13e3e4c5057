//! The cookie: a string that two parties agree on out of band, and what each
//! of them derives from it.
//!
//! A cookie string is a token, optionally followed by `---` and a JSON object
//! with the boolean members `obfs_lengths` and `obfs_timing`. The token alone
//! makes the master key; the object, where it is there and makes sense, sets
//! the traffic shaping.

use vstd::prelude::*;
use vstd::string::*;
use crate::kdf::{derive_key, derived_key};
use crate::params::ObfsParams;

verus! {

/// What a JSON text holds under one member name, as `serde_json` reads it.
#[derive(Clone, Copy, Debug, PartialEq, Eq, Structural)]
pub enum Member {
    /// The text does not read as a map of members.
    Unreadable,
    /// The object has no member of that name.
    Absent,
    /// The member is `true` or `false`.
    Switch(bool),
    /// The member is something else.
    Other,
}

/// What `serde_json` finds in `text` under the member `name`.
pub uninterp spec fn json_member_of(text: Seq<u8>, name: Seq<char>) -> Member;

/// `serde_json::from_slice` into a `serde_json::Map`, then `Map::get`.
/// Trusted: what comes back is a function of the text and the name alone,
/// the one called [`json_member_of`]. Nothing is claimed of what it is for
/// any given text.
#[verifier::external_body]
fn json_member(text: &[u8], name: &str) -> (r: Member)
    ensures
        r == json_member_of(text@, name@),
{
    match serde_json::from_slice::<serde_json::Map<String, serde_json::Value>>(text) {
        Err(_) => Member::Unreadable,
        Ok(object) => match object.get(name) {
            None => Member::Absent,
            Some(serde_json::Value::Bool(b)) => Member::Switch(*b),
            Some(serde_json::Value::Null) => Member::Other,
            Some(serde_json::Value::Number(_)) => Member::Other,
            Some(serde_json::Value::String(_)) => Member::Other,
            Some(serde_json::Value::Array(_)) => Member::Other,
            Some(serde_json::Value::Object(_)) => Member::Other,
        },
    }
}

/// The hexadecimal digit, in lower case, of a number below 16.
pub open spec fn hex_digit(d: int) -> char {
    if d == 0 {
        '0'
    } else if d == 1 {
        '1'
    } else if d == 2 {
        '2'
    } else if d == 3 {
        '3'
    } else if d == 4 {
        '4'
    } else if d == 5 {
        '5'
    } else if d == 6 {
        '6'
    } else if d == 7 {
        '7'
    } else if d == 8 {
        '8'
    } else if d == 9 {
        '9'
    } else if d == 10 {
        'a'
    } else if d == 11 {
        'b'
    } else if d == 12 {
        'c'
    } else if d == 13 {
        'd'
    } else if d == 14 {
        'e'
    } else {
        'f'
    }
}

/// `data` in hexadecimal: two digits for each byte, the high one first.
pub open spec fn hex_of(data: Seq<u8>) -> Seq<char> {
    Seq::new(
        2 * data.len(),
        |i: int|
            if i % 2 == 0 {
                hex_digit(data[i / 2] as int / 16)
            } else {
                hex_digit(data[i / 2] as int % 16)
            },
    )
}

/// `hex::encode`. Trusted: the string returned holds, for each byte in turn,
/// its high and its low hexadecimal digit in lower case.
#[verifier::external_body]
fn hex_encode(data: &[u8]) -> (r: String)
    ensures
        r@ == hex_of(data@),
{
    hex::encode(data)
}

/// `rand::random`, for 32 bytes from the thread's generator. Nothing is
/// claimed of them.
#[verifier::external_body]
pub(crate) fn random_key() -> (r: [u8; 32])
{
    rand::random()
}

/// What one member of the parameter object switches: off where it is
/// absent, nothing where it is no boolean.
pub open spec fn switch_of(m: Member) -> Option<bool> {
    match m {
        Member::Absent => Some(false),
        Member::Switch(b) => Some(b),
        _ => None,
    }
}

/// The parameters that the two members stand for: each switch as its member
/// says, where both have something to say; the default otherwise.
pub open spec fn params_from(lengths: Member, timing: Member) -> ObfsParams {
    match (switch_of(lengths), switch_of(timing)) {
        (Some(l), Some(t)) => ObfsParams { obfs_lengths: l, obfs_timing: t },
        _ => ObfsParams::plain(),
    }
}

/// The parameters that a parameter text stands for.
pub open spec fn params_of(text: Seq<u8>) -> ObfsParams {
    params_from(json_member_of(text, "obfs_lengths"@), json_member_of(text, "obfs_timing"@))
}

/// The parameter text that stands for `params`.
pub open spec fn params_json(params: ObfsParams) -> Seq<char> {
    "{\"obfs_lengths\":"@ + (if params.obfs_lengths {
        "true"@
    } else {
        "false"@
    }) + ",\"obfs_timing\":"@ + (if params.obfs_timing {
        "true"@
    } else {
        "false"@
    }) + "}"@
}

impl ObfsParams {
    /// The parameters that the two members of a parameter object stand for.
    pub fn from_members(lengths: Member, timing: Member) -> (r: ObfsParams)
        ensures
            r == params_from(lengths, timing),
    {
        let l = match lengths {
            Member::Absent => Some(false),
            Member::Switch(b) => Some(b),
            _ => None,
        };
        let t = match timing {
            Member::Absent => Some(false),
            Member::Switch(b) => Some(b),
            _ => None,
        };
        match (l, t) {
            (Some(l), Some(t)) => ObfsParams { obfs_lengths: l, obfs_timing: t },
            _ => ObfsParams { obfs_lengths: false, obfs_timing: false },
        }
    }

    /// Reads a parameter text: a JSON object in which `obfs_lengths` and
    /// `obfs_timing` are each a boolean or missing. Anything else gives the
    /// default.
    pub fn parse(text: &[u8]) -> (r: ObfsParams)
        ensures
            r == params_of(text@),
    {
        let lengths = json_member(text, "obfs_lengths");
        let timing = json_member(text, "obfs_timing");
        ObfsParams::from_members(lengths, timing)
    }

    /// The parameter text that stands for these parameters.
    pub fn to_json(&self) -> (r: String)
        ensures
            r@ == params_json(*self),
    {
        let mut r = String::from_str("{\"obfs_lengths\":");
        r.append(if self.obfs_lengths { "true" } else { "false" });
        r.append(",\"obfs_timing\":");
        r.append(if self.obfs_timing { "true" } else { "false" });
        r.append("}");
        r
    }
}

/// Whether the delimiter `---` stands at `i` in `text`.
pub open spec fn delimiter_at(text: Seq<u8>, i: int) -> bool {
    0 <= i && i + 3 <= text.len() && text[i] == 45 && text[i + 1] == 45 && text[i + 2] == 45
}

/// Where the first delimiter at or after `from` stands in `text`; the length
/// of `text` where there is none.
pub open spec fn delimiter_from(text: Seq<u8>, from: int) -> int
    decreases text.len() - from,
{
    if from < 0 || from + 3 > text.len() {
        text.len() as int
    } else if delimiter_at(text, from) {
        from
    } else {
        delimiter_from(text, from + 1)
    }
}

/// What a [`Cookie`] stands for.
pub struct CookieView {
    /// The master key.
    pub key: Seq<u8>,
    /// How sessions under this cookie disguise their traffic.
    pub params: ObfsParams,
}

/// The cookie that a cookie string stands for, the string given by its
/// bytes: the key is derived, in the context `cookie`, from what stands before the
/// first delimiter, or from the whole string where there is none; the
/// parameters are read from what follows that delimiter.
pub open spec fn cookie_of(text: Seq<u8>) -> CookieView {
    let at = delimiter_from(text, 0);
    if at == text.len() {
        CookieView { key: derived_key("cookie"@, text), params: ObfsParams::plain() }
    } else {
        CookieView {
            key: derived_key("cookie"@, text.subrange(0, at)),
            params: params_of(text.subrange(at + 3, text.len() as int)),
        }
    }
}

/// The context in which the handshake key of one direction is derived.
pub open spec fn role_context(is_server: bool) -> Seq<char> {
    if is_server {
        "server"@
    } else {
        "client"@
    }
}

/// The text by which a cookie is shown: its key in hexadecimal, the
/// delimiter, and its parameter text.
pub open spec fn shown(v: CookieView) -> Seq<char> {
    hex_of(v.key) + "---"@ + params_json(v.params)
}

/// [`delimiter_from`] finds the first delimiter: none stands before the place
/// it gives, and one stands there unless that place is the end.
pub proof fn lemma_first_delimiter(text: Seq<u8>, from: int)
    requires
        0 <= from,
    ensures
        from <= delimiter_from(text, from) || delimiter_from(text, from) == text.len(),
        delimiter_from(text, from) <= text.len(),
        delimiter_from(text, from) < text.len() ==> delimiter_at(
            text,
            delimiter_from(text, from),
        ),
        forall|j: int| from <= j < delimiter_from(text, from) ==> !delimiter_at(text, j),
    decreases text.len() - from,
{
    if from + 3 <= text.len() && !delimiter_at(text, from) {
        lemma_first_delimiter(text, from + 1);
    }
}

/// A string without a delimiter stands for a cookie with the default
/// parameters.
pub proof fn lemma_bare_token_is_plain(text: Seq<u8>)
    requires
        forall|j: int| !delimiter_at(text, j),
    ensures
        cookie_of(text).params == ObfsParams::plain(),
        cookie_of(text).key == derived_key("cookie"@, text),
{
    lemma_first_delimiter(text, 0);
}

/// Equal strings stand for equal cookies: key and parameters are a function
/// of the string.
pub proof fn lemma_same_string_same_cookie(a: &str, b: &str)
    requires
        a@ == b@,
    ensures
        cookie_of(a.spec_bytes()) == cookie_of(b.spec_bytes()),
{
}

/// The two handshake keys of a cookie are derived in different contexts.
/// That the keys differ is more than this says: it rests on the derivation
/// itself, of which nothing is known here.
pub proof fn lemma_roles_have_their_own_context()
    ensures
        role_context(true) != role_context(false),
{
    reveal_strlit("server");
    reveal_strlit("client");
    assert("server"@[0] != "client"@[0]);
}

/// A pre-shared secret and the traffic shaping that goes with it.
#[derive(Clone, Copy)]
pub struct Cookie {
    key: [u8; 32],
    params: ObfsParams,
}

impl View for Cookie {
    type V = CookieView;

    closed spec fn view(&self) -> CookieView {
        CookieView { key: self.key@, params: self.params }
    }
}

/// The first place where the delimiter stands in `text`; its length where
/// there is none.
pub fn find_delimiter(text: &[u8]) -> (at: usize)
    ensures
        at == delimiter_from(text@, 0),
{
    let n: usize = text.len();
    let mut i: usize = 0;
    while n - i >= 3
        invariant
            i <= n == text@.len(),
            delimiter_from(text@, 0) == delimiter_from(text@, i as int),
        decreases n - i,
    {
        if text[i] == 45 && text[i + 1] == 45 && text[i + 2] == 45 {
            return i;
        }
        i += 1;
    }
    proof {
        if i < n {
            // fewer than three bytes are left
            assert(delimiter_from(text@, i as int) == n);
        }
    }
    n
}

impl Cookie {
    /// The cookie that the string `s` stands for. Every string stands for
    /// one: parameters that cannot be read are taken to be the default.
    pub fn new(s: &str) -> (r: Cookie)
        ensures
            r@ == cookie_of(s.spec_bytes()),
    {
        let text = s.as_bytes();
        let n: usize = text.len();
        let at: usize = find_delimiter(text);
        proof {
            lemma_first_delimiter(text@, 0);
        }
        if at == n {
            Cookie { key: derive_key("cookie", text), params: ObfsParams::default() }
        } else {
            let token = vstd::slice::slice_subrange(text, 0, at);
            let tail = vstd::slice::slice_subrange(text, at + 3, n);
            Cookie { key: derive_key("cookie", token), params: ObfsParams::parse(tail) }
        }
    }

    /// The cookie with this key and these parameters.
    pub fn from_key(key: [u8; 32], params: ObfsParams) -> (r: Cookie)
        ensures
            r@ == (CookieView { key: key@, params }),
    {
        Cookie { key, params }
    }

    /// A cookie with a key drawn at random and the default parameters.
    pub fn random() -> (r: Cookie)
        ensures
            r@.params == ObfsParams::plain(),
            r@.key.len() == 32,
    {
        Cookie::from_key(random_key(), ObfsParams::default())
    }

    /// A cookie with a key drawn at random and the given parameters.
    pub fn random_with_params(params: ObfsParams) -> (r: Cookie)
        ensures
            r@.params == params,
            r@.key.len() == 32,
    {
        Cookie::from_key(random_key(), params)
    }

    /// The handshake key of one direction: derived from the master key in the
    /// context `server` for what the server sends, `client` for what the
    /// client sends.
    pub fn derive_key(&self, is_server: bool) -> (r: [u8; 32])
        ensures
            r@ == derived_key(role_context(is_server), self@.key),
    {
        if is_server {
            derive_key("server", self.key.as_slice())
        } else {
            derive_key("client", self.key.as_slice())
        }
    }

    /// The master key.
    pub fn key(&self) -> (r: &[u8; 32])
        ensures
            r@ == self@.key,
    {
        &self.key
    }

    /// How sessions under this cookie disguise their traffic.
    pub fn params(&self) -> (r: ObfsParams)
        ensures
            r == self@.params,
    {
        self.params
    }

    /// The text by which this cookie is shown: its key in hexadecimal, the
    /// delimiter `---`, and its parameter text.
    pub fn to_string(&self) -> (r: String)
        ensures
            r@ == shown(self@),
    {
        let mut r = hex_encode(self.key.as_slice());
        r.append("---");
        let json = self.params.to_json();
        r.append(json.as_str());
        r
    }
}

} // verus!
