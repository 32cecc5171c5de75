//! Who calls the runner: the token read from a request's `Authorization`
//! header, the check of its rights, and how refused requests are answered.

use vstd::prelude::*;
use crate::api::ErrorResponse;
use crate::keyed::{opt_text, str_eq};
use crate::permissions::{config_allows, ActionType, ServiceConfig};
use crate::text::{str_chars, str_to_string, string_from_chars};

verus! {

/// Whether `c` has the Unicode `White_Space` property (what
/// `char::is_whitespace` tells): tab to carriage return, space, next line,
/// no-break space, Ogham space mark, the spaces from en quad to hair
/// space, line and paragraph separators, the narrow no-break and medium
/// mathematical spaces, and the ideographic space.
pub open spec fn unicode_whitespace(c: char) -> bool {
    let n = c as u32;
    ||| 0x09 <= n <= 0x0D
    ||| n == 0x20
    ||| n == 0x85
    ||| n == 0xA0
    ||| n == 0x1680
    ||| 0x2000 <= n <= 0x200A
    ||| n == 0x2028
    ||| n == 0x2029
    ||| n == 0x202F
    ||| n == 0x205F
    ||| n == 0x3000
}

/// Whether `c` is white space (see `unicode_whitespace`).
fn is_whitespace(c: char) -> (r: bool)
    ensures
        r == unicode_whitespace(c),
{
    let n: u32 = c as u32;
    (0x09 <= n && n <= 0x0D) || n == 0x20 || n == 0x85 || n == 0xA0 || n == 0x1680
        || (0x2000 <= n && n <= 0x200A) || n == 0x2028 || n == 0x2029 || n == 0x202F || n == 0x205F
        || n == 0x3000
}

/// Why a request is refused for its credentials.
#[derive(Debug, Clone, PartialEq, Eq)]
pub enum Unauthorized {
    UnsupportedAuthorizationMethod(String),
    MethodIsNotSepcified,
    TokenIsNotSpecified,
    TokenIsUnauthorized,
}

/// A request that failed inside the runner.
#[derive(Debug, Clone, PartialEq, Eq)]
pub enum InternalServerError {
    Error(String),
}

/// Why a request was refused, as the web layer reports it.
#[derive(Debug, Clone, PartialEq, Eq)]
pub enum Rejection {
    Unauthorized(Unauthorized),
    InternalServerError(InternalServerError),
    NotFound,
    Other,
}

/// The first index from `i` on that is not white space (the end when
/// there is none).
pub open spec fn skip_space(s: Seq<char>, i: int) -> int
    decreases s.len() - i,
{
    if i < 0 || i >= s.len() || !unicode_whitespace(s[i]) {
        i
    } else {
        skip_space(s, i + 1)
    }
}

/// The first index from `i` on that is white space (the end when there
/// is none).
pub open spec fn word_end(s: Seq<char>, i: int) -> int
    decreases s.len() - i,
{
    if i < 0 || i >= s.len() || unicode_whitespace(s[i]) {
        i
    } else {
        word_end(s, i + 1)
    }
}

/// The next word from `i` on, as `str::split_whitespace` gives them, and
/// where it ends; nothing when only white space is left.
pub open spec fn next_word(s: Seq<char>, i: int) -> Option<(Seq<char>, int)> {
    let a = skip_space(s, i);
    if a >= s.len() {
        None
    } else {
        let b = word_end(s, a);
        Some((s.subrange(a, b), b))
    }
}

proof fn lemma_skip_space(s: Seq<char>, i: int)
    requires
        0 <= i <= s.len(),
    ensures
        i <= skip_space(s, i) <= s.len(),
        forall|k: int| i <= k < skip_space(s, i) ==> unicode_whitespace(#[trigger] s[k]),
        skip_space(s, i) < s.len() ==> !unicode_whitespace(s[skip_space(s, i)]),
    decreases s.len() - i,
{
    if i < s.len() && unicode_whitespace(s[i]) {
        lemma_skip_space(s, i + 1);
    }
}

proof fn lemma_word_end(s: Seq<char>, i: int)
    requires
        0 <= i <= s.len(),
    ensures
        i <= word_end(s, i) <= s.len(),
        forall|k: int| i <= k < word_end(s, i) ==> !unicode_whitespace(#[trigger] s[k]),
        word_end(s, i) < s.len() ==> unicode_whitespace(s[word_end(s, i)]),
    decreases s.len() - i,
{
    if i < s.len() && !unicode_whitespace(s[i]) {
        lemma_word_end(s, i + 1);
    }
}

proof fn lemma_skip_space_from(s: Seq<char>, i: int, j: int)
    requires
        0 <= i <= j <= s.len(),
        forall|k: int| i <= k < j ==> unicode_whitespace(#[trigger] s[k]),
    ensures
        skip_space(s, i) == skip_space(s, j),
    decreases j - i,
{
    if i < j {
        lemma_skip_space_from(s, i + 1, j);
    }
}

proof fn lemma_word_end_from(s: Seq<char>, i: int, j: int)
    requires
        0 <= i <= j <= s.len(),
        forall|k: int| i <= k < j ==> !unicode_whitespace(#[trigger] s[k]),
    ensures
        word_end(s, i) == word_end(s, j),
    decreases j - i,
{
    if i < j {
        lemma_word_end_from(s, i + 1, j);
    }
}

/// The next word of `cs` from `i` on (see `next_word`).
fn next_word_exec(cs: &Vec<char>, i: usize) -> (r: Option<(Vec<char>, usize)>)
    requires
        i <= cs@.len(),
    ensures
        match next_word(cs@, i as int) {
            Some((w, e)) => (r matches Some(x) && x.0@ == w && x.1 as int == e),
            None => r is None,
        },
{
    let n = cs.len();
    let mut a = i;
    while a < n && is_whitespace(cs[a])
        invariant
            i <= a <= n,
            n == cs@.len(),
            forall|k: int| i <= k < a ==> unicode_whitespace(#[trigger] cs@[k]),
        decreases n - a,
    {
        a = a + 1;
    }
    proof {
        lemma_skip_space_from(cs@, i as int, a as int);
    }
    if a >= n {
        return None;
    }
    let mut b = a;
    let mut w: Vec<char> = Vec::new();
    while b < n && !is_whitespace(cs[b])
        invariant
            a <= b <= n,
            n == cs@.len(),
            w@ == cs@.subrange(a as int, b as int),
            forall|k: int| a <= k < b ==> !unicode_whitespace(#[trigger] cs@[k]),
        decreases n - b,
    {
        w.push(cs[b]);
        assert(w@ =~= cs@.subrange(a as int, b + 1));
        b = b + 1;
    }
    proof {
        lemma_word_end_from(cs@, a as int, b as int);
    }
    Some((w, b))
}

/// Reads the `Authorization` header of a request: none means no token;
/// otherwise its first word must be the method `Api-Key` and its second
/// word is the token.
pub fn parse_authorization(header: Option<&str>) -> (r: Result<Option<String>, Unauthorized>)
    ensures
        match header {
            None => r == Ok::<Option<String>, Unauthorized>(None),
            Some(h) => match next_word(h@, 0) {
                None => r == Err::<Option<String>, Unauthorized>(Unauthorized::MethodIsNotSepcified),
                Some((m, e)) => if m != "Api-Key"@ {
                    r matches Err(Unauthorized::UnsupportedAuthorizationMethod(x)) && x@ == m
                } else {
                    match next_word(h@, e) {
                        None => r == Err::<Option<String>, Unauthorized>(Unauthorized::TokenIsNotSpecified),
                        Some((t, _)) => (r matches Ok(Some(x)) && x@ == t),
                    }
                },
            },
        },
{
    match header {
        None => Ok(None),
        Some(h) => {
            let cs = str_chars(h);
            match next_word_exec(&cs, 0) {
                None => Err(Unauthorized::MethodIsNotSepcified),
                Some((m, e)) => {
                    let method = string_from_chars(&m);
                    proof {
                        reveal_strlit("Api-Key");
                    }
                    if !str_eq(method.as_str(), "Api-Key") {
                        Err(Unauthorized::UnsupportedAuthorizationMethod(method))
                    } else {
                        proof {
                            lemma_skip_space(cs@, 0);
                            lemma_word_end(cs@, skip_space(cs@, 0));
                        }
                        match next_word_exec(&cs, e) {
                            None => Err(Unauthorized::TokenIsNotSpecified),
                            Some((t, _)) => Ok(Some(string_from_chars(&t))),
                        }
                    }
                },
            }
        },
    }
}

/// Whether a caller with `token` may do `action` on `project_id` (see
/// `ServiceConfig::check_allowed`); a refusal is `TokenIsUnauthorized`.
pub fn check_authorized(config: &ServiceConfig, token: Option<&str>, project_id: Option<&str>, action: ActionType) -> (r:
    Result<(), Unauthorized>)
    ensures
        if config_allows(config.tokens, opt_text(token), opt_text(project_id), action) {
            r is Ok
        } else {
            r == Err::<(), Unauthorized>(Unauthorized::TokenIsUnauthorized)
        },
{
    if !config.check_allowed(token, project_id, action) {
        Err(Unauthorized::TokenIsUnauthorized)
    } else {
        Ok(())
    }
}

/// The message of a refusal for credentials.
pub open spec fn unauthorized_message(u: Unauthorized) -> Seq<char> {
    match u {
        Unauthorized::UnsupportedAuthorizationMethod(m) => "Unsupported auth method "@ + m@,
        Unauthorized::MethodIsNotSepcified => "Auth method is not specified"@,
        Unauthorized::TokenIsNotSpecified => "Auth token is not specified"@,
        Unauthorized::TokenIsUnauthorized => "Specified token is unauthrized for this action"@,
    }
}

/// The answer to a refused request: its message and HTTP status (401 for
/// credentials, 404 for what is not there, 500 otherwise).
pub open spec fn rejection_answer(r: Rejection) -> (Seq<char>, u16) {
    match r {
        Rejection::Unauthorized(u) => (unauthorized_message(u), 401),
        Rejection::InternalServerError(InternalServerError::Error(e)) => (e@, 500),
        Rejection::NotFound => ("Not found"@, 404),
        Rejection::Other => ("Unknown error"@, 500),
    }
}

/// How a refused request is answered (see `rejection_answer`).
pub fn report_rejection(r: &Rejection) -> (answer: (ErrorResponse, u16))
    ensures
        (answer.0.message@, answer.1) == rejection_answer(*r),
{
    match r {
        Rejection::Unauthorized(auth_error) => {
            let message = match auth_error {
                Unauthorized::UnsupportedAuthorizationMethod(method) => {
                    let mut m = str_to_string("Unsupported auth method ");
                    m.append(method.as_str());
                    m
                },
                Unauthorized::MethodIsNotSepcified => str_to_string("Auth method is not specified"),
                Unauthorized::TokenIsNotSpecified => str_to_string("Auth token is not specified"),
                Unauthorized::TokenIsUnauthorized => str_to_string("Specified token is unauthrized for this action"),
            };
            (ErrorResponse { message }, 401)
        },
        Rejection::InternalServerError(InternalServerError::Error(err)) => (ErrorResponse { message: err.clone() }, 500),
        Rejection::NotFound => (ErrorResponse { message: str_to_string("Not found") }, 404),
        Rejection::Other => (ErrorResponse { message: str_to_string("Unknown error") }, 500),
    }
}

} // verus!
