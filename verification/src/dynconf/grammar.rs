//! The grammar of dynconf expressions and format strings, stated over
//! character sequences and positions in them.
//!
//! Each rule either succeeds with a value and the position after what it
//! read, fails with `Error` (the next alternative is tried) or fails with
//! `Failure` (a committed rule found malformed input; no alternative is
//! tried).

use vstd::prelude::*;
use crate::text::parse_unsigned_spec;

verus! {

/// How a rule fails.
#[derive(Debug, Clone, Copy, PartialEq, Eq)]
pub enum ParseErr {
    /// The rule does not apply here; an alternative may.
    Error,
    /// The input is malformed; parsing stops.
    Failure,
}

/// The kind of a file system path.
#[derive(Debug, Clone, Copy, PartialEq, Eq)]
pub enum LFsPathType {
    /// `/...`
    Absolute,
    /// `./...`
    Relative,
    /// `~/...`
    FromHome,
}

/// A literal value, as plain values.
pub enum SValue {
    String(Seq<char>),
    QuoteString(Seq<char>),
    Integer(i64),
    Boolean(bool),
    Null,
}

/// A segment of a path, as plain values.
pub enum SPathSegment {
    Expression(SExpr),
    String(Seq<char>),
}

/// A segment of a file system path, as plain values.
pub enum SFsSegment {
    String(Seq<char>),
    Expression(SExpr),
}

/// Where a path starts, as plain values.
pub enum SScope {
    Global,
    Expression(Box<SExpr>),
}

/// An expression, as plain values.
pub enum SExpr {
    Value(SValue),
    Path(Seq<SPathSegment>, Box<SScope>),
    FsPath(Seq<SFsSegment>, LFsPathType),
    FunctionCall(Seq<char>, Seq<SExpr>),
}

/// A piece of a format string, as plain values.
pub enum SFragment {
    Expression(SExpr),
    Raw(Seq<char>),
}

/// What a rule gives: a value and the position after it.
pub type PRes<T> = Result<(T, int), ParseErr>;

/// Whether a character is alphabetic or numeric in Unicode's sense.
pub uninterp spec fn unicode_alphanumeric(c: char) -> bool;

/// Calls `char::is_alphanumeric`, which tells whether `c` is alphabetic
/// or numeric in Unicode's sense; its result is named
/// `unicode_alphanumeric`.
#[verifier::external_body]
pub(crate) fn is_alphanumeric(c: char) -> (r: bool)
    ensures
        r == unicode_alphanumeric(c),
{
    c.is_alphanumeric()
}

/// Classes of characters that the grammar reads in runs.
#[derive(Debug, Clone, Copy, PartialEq, Eq)]
pub enum CharClass {
    /// Space, tab, line feed, carriage return.
    Ws,
    /// `0` to `9`.
    Digit,
    /// Anything but `"` and `\`.
    Unescaped,
    /// Anything but `'`.
    NotApostrophe,
    /// Alphanumeric, `_` or `-`.
    IdentRest,
    /// Alphanumeric, `.`, `-` or `_`.
    FsName,
    /// Anything but `$`.
    NotDollar,
}

/// Whether a character is in a class.
pub open spec fn in_class(c: char, k: CharClass) -> bool {
    match k {
        CharClass::Ws => c == ' ' || c == '\t' || c == '\n' || c == '\r',
        CharClass::Digit => '0' <= c && c <= '9',
        CharClass::Unescaped => c != '"' && c != '\\',
        CharClass::NotApostrophe => c != '\'',
        CharClass::IdentRest => unicode_alphanumeric(c) || c == '_' || c == '-',
        CharClass::FsName => unicode_alphanumeric(c) || c == '.' || c == '-' || c == '_',
        CharClass::NotDollar => c != '$',
    }
}

/// The end of the run of characters of class `k` starting at `p`.
pub open spec fn span_end(s: Seq<char>, p: int, k: CharClass) -> int
    decreases s.len() - p,
{
    if 0 <= p < s.len() && in_class(s[p], k) {
        span_end(s, p + 1, k)
    } else {
        p
    }
}

/// A run ends between where it starts and the end of the input, holds
/// characters of its class only, and stops before one that is not.
pub proof fn lemma_span_end(s: Seq<char>, p: int, k: CharClass)
    requires
        0 <= p <= s.len(),
    ensures
        p <= span_end(s, p, k) <= s.len(),
        forall|i: int| p <= i < span_end(s, p, k) ==> in_class(#[trigger] s[i], k),
        span_end(s, p, k) < s.len() ==> !in_class(s[span_end(s, p, k)], k),
    decreases s.len() - p,
{
    if p < s.len() && in_class(s[p], k) {
        lemma_span_end(s, p + 1, k);
    }
}

/// Whitespace skipped from `p`.
pub open spec fn ws_end(s: Seq<char>, p: int) -> int {
    span_end(s, p, CharClass::Ws)
}

/// Whether character `c` stands at `p`.
pub open spec fn char_at(s: Seq<char>, p: int, c: char) -> bool {
    0 <= p < s.len() && s[p] == c
}

/// Whether `t` stands at `p`.
pub open spec fn tag_at(s: Seq<char>, p: int, t: Seq<char>) -> bool {
    0 <= p && p + t.len() <= s.len() && s.subrange(p, p + t.len()) == t
}

/// An ASCII letter or `_`.
pub open spec fn ident_first(c: char) -> bool {
    ('a' <= c && c <= 'z') || ('A' <= c && c <= 'Z') || c == '_'
}

/// The end of an identifier at `p`: an ASCII letter or `_`, then
/// alphanumerics, `_` and `-`.
pub open spec fn sp_identifier(s: Seq<char>, p: int) -> Option<int> {
    if 0 <= p < s.len() && ident_first(s[p]) {
        Some(span_end(s, p + 1, CharClass::IdentRest))
    } else {
        None
    }
}

/// The end of a file name at `p`: alphanumerics, `.`, `-` and `_`.
pub open spec fn sp_fs_name(s: Seq<char>, p: int) -> Option<int> {
    if 0 <= p < s.len() && in_class(s[p], CharClass::FsName) {
        Some(span_end(s, p + 1, CharClass::FsName))
    } else {
        None
    }
}

/// An integer: an optional `-`, whitespace, then decimal digits whose
/// value fits in `i64`.
pub open spec fn sp_number(s: Seq<char>, p: int) -> PRes<SValue> {
    let neg = char_at(s, p, '-');
    let q = ws_end(s, if neg { p + 1 } else { p });
    let d = span_end(s, q, CharClass::Digit);
    if d == q {
        Err(ParseErr::Error)
    } else {
        match parse_unsigned_spec(s.subrange(q, d), 0x7fff_ffff_ffff_ffff) {
            Ok(v) => Ok((SValue::Integer((if neg { -v } else { v }) as i64), d)),
            Err(_) => Err(ParseErr::Error),
        }
    }
}

/// A character that may follow `\` in a quoted string.
pub open spec fn escapable(c: char) -> bool {
    c == '"' || c == 'r' || c == 'n' || c == '\\'
}

/// The end of the body of a quoted string that starts at `start`,
/// scanned from `i`: runs of ordinary characters and escapes, up to a
/// `"` or the end of the input. An empty body, a lone `\` at the end or
/// an unknown escape gives nothing.
pub open spec fn esc_end(s: Seq<char>, start: int, i: int) -> Option<int>
    decreases s.len() - i,
{
    if i >= s.len() || i < 0 {
        Some(s.len() as int)
    } else if in_class(s[i], CharClass::Unescaped) {
        proof {
            lemma_span_end(s, i, CharClass::Unescaped);
        }
        esc_end(s, start, span_end(s, i, CharClass::Unescaped))
    } else if s[i] == '\\' {
        if i + 1 >= s.len() {
            None
        } else if escapable(s[i + 1]) {
            esc_end(s, start, i + 2)
        } else {
            None
        }
    } else if i == start {
        None
    } else {
        Some(i)
    }
}

/// A quoted string with escapes; its value keeps the quotes and escapes
/// as written.
pub open spec fn sp_string_escaped(s: Seq<char>, p: int) -> PRes<SValue> {
    if !char_at(s, p, '"') {
        Err(ParseErr::Error)
    } else {
        match esc_end(s, p + 1, p + 1) {
            None => Err(ParseErr::Failure),
            Some(e) => if char_at(s, e, '"') {
                Ok((SValue::String(s.subrange(p, e + 1)), e + 1))
            } else {
                Err(ParseErr::Failure)
            },
        }
    }
}

/// A string in apostrophes, without escapes; its value is what stands
/// between them, which must not be empty.
pub open spec fn sp_string_raw(s: Seq<char>, p: int) -> PRes<SValue> {
    if !char_at(s, p, '\'') {
        Err(ParseErr::Error)
    } else {
        let j = span_end(s, p + 1, CharClass::NotApostrophe);
        if j == p + 1 {
            Err(ParseErr::Failure)
        } else if char_at(s, j, '\'') {
            Ok((SValue::QuoteString(s.subrange(p + 1, j)), j + 1))
        } else {
            Err(ParseErr::Failure)
        }
    }
}

/// A quoted string or a string in apostrophes.
pub open spec fn sp_string(s: Seq<char>, p: int) -> PRes<SValue> {
    match sp_string_escaped(s, p) {
        Err(ParseErr::Error) => sp_string_raw(s, p),
        r => r,
    }
}

/// `true` or `false`.
pub open spec fn sp_boolean(s: Seq<char>, p: int) -> PRes<SValue> {
    if tag_at(s, p, seq!['t', 'r', 'u', 'e']) {
        Ok((SValue::Boolean(true), p + 4))
    } else if tag_at(s, p, seq!['f', 'a', 'l', 's', 'e']) {
        Ok((SValue::Boolean(false), p + 5))
    } else {
        Err(ParseErr::Error)
    }
}

/// `null`.
pub open spec fn sp_null(s: Seq<char>, p: int) -> PRes<SValue> {
    if tag_at(s, p, seq!['n', 'u', 'l', 'l']) {
        Ok((SValue::Null, p + 4))
    } else {
        Err(ParseErr::Error)
    }
}

/// A literal: a number, a string, a boolean or `null`, tried in that
/// order.
pub open spec fn sp_lvalue(s: Seq<char>, p: int) -> PRes<SValue> {
    match sp_number(s, p) {
        Err(ParseErr::Error) => match sp_string(s, p) {
            Err(ParseErr::Error) => match sp_boolean(s, p) {
                Err(ParseErr::Error) => sp_null(s, p),
                r => r,
            },
            r => r,
        },
        r => r,
    }
}

/// `${ expression }`, with whitespace allowed inside the braces; after
/// `${` the rest must be well formed.
pub open spec fn sp_lexpression(s: Seq<char>, p: int) -> PRes<SExpr>
    decreases s.len() - p, 0int,
{
    if !(0 <= p && p + 2 <= s.len() && s[p] == '$' && s[p + 1] == '{') {
        Err(ParseErr::Error)
    } else {
        let q = ws_end(s, p + 2);
        proof {
            lemma_span_end(s, p + 2, CharClass::Ws);
        }
        match sp_inner(s, q) {
            Err(_) => Err(ParseErr::Failure),
            Ok((e, r)) => {
                let t = ws_end(s, r);
                if char_at(s, t, '}') {
                    Ok((e, t + 1))
                } else {
                    Err(ParseErr::Failure)
                }
            },
        }
    }
}

/// What may stand between `${` and `}`: a literal, a function call, a
/// path, a file system path or an expression, tried in that order.
pub open spec fn sp_inner(s: Seq<char>, p: int) -> PRes<SExpr>
    decreases s.len() - p, 4int,
{
    match sp_lvalue(s, p) {
        Ok((v, e)) => Ok((SExpr::Value(v), e)),
        Err(ParseErr::Failure) => Err(ParseErr::Failure),
        Err(ParseErr::Error) => match sp_function_call(s, p) {
            Err(ParseErr::Error) => match sp_epath(s, p) {
                Err(ParseErr::Error) => match sp_efs_path(s, p) {
                    Err(ParseErr::Error) => sp_lexpression(s, p),
                    r => r,
                },
                r => r,
            },
            r => r,
        },
    }
}

/// `name(args)`: after the `(` the rest must be well formed.
pub open spec fn sp_function_call(s: Seq<char>, p: int) -> PRes<SExpr>
    decreases s.len() - p, 3int,
{
    match sp_identifier(s, p) {
        None => Err(ParseErr::Error),
        Some(n) => {
            proof {
                lemma_span_end(s, p + 1, CharClass::IdentRest);
                lemma_span_end(s, n, CharClass::Ws);
            }
            let q = ws_end(s, n);
            if !char_at(s, q, '(') {
                Err(ParseErr::Error)
            } else {
                match sp_args(s, q + 1) {
                    Err(_) => Err(ParseErr::Failure),
                    Ok((args, e)) => {
                        let t = ws_end(s, e);
                        if char_at(s, t, ')') {
                            Ok((SExpr::FunctionCall(s.subrange(p, n), args), t + 1))
                        } else {
                            Err(ParseErr::Failure)
                        }
                    },
                }
            }
        },
    }
}

/// An argument: whitespace, then an expression in `${...}` or what may
/// stand inside one.
pub open spec fn sp_arg(s: Seq<char>, p: int) -> PRes<SExpr>
    decreases s.len() - p, 5int,
{
    if !(0 <= p <= s.len()) {
        Err(ParseErr::Error)
    } else {
        let q = ws_end(s, p);
        proof {
            lemma_span_end(s, p, CharClass::Ws);
        }
        match sp_lexpression(s, q) {
            Err(ParseErr::Error) => sp_inner(s, q),
            r => r,
        }
    }
}

/// Arguments separated by `,` (whitespace allowed before each); none
/// when the first does not apply.
pub open spec fn sp_args(s: Seq<char>, p: int) -> PRes<Seq<SExpr>>
    decreases s.len() - p, 6int,
{
    match sp_arg(s, p) {
        Err(ParseErr::Error) => Ok((Seq::empty(), p)),
        Err(ParseErr::Failure) => Err(ParseErr::Failure),
        Ok((a, e)) => if p < e <= s.len() {
            sp_args_rest(s, e, seq![a])
        } else {
            Err(ParseErr::Error)
        },
    }
}

/// More arguments after those read, each after a `,`; stops before a
/// `,` not followed by an argument.
pub open spec fn sp_args_rest(s: Seq<char>, i: int, acc: Seq<SExpr>) -> PRes<Seq<SExpr>>
    decreases s.len() - i, 6int,
{
    if !(0 <= i <= s.len()) {
        Err(ParseErr::Error)
    } else {
        let t = ws_end(s, i);
        proof {
            lemma_span_end(s, i, CharClass::Ws);
        }
        if !char_at(s, t, ',') {
            Ok((acc, i))
        } else {
            match sp_arg(s, t + 1) {
                Err(ParseErr::Error) => Ok((acc, i)),
                Err(ParseErr::Failure) => Err(ParseErr::Failure),
                Ok((a, e)) => if i < e <= s.len() {
                    sp_args_rest(s, e, acc.push(a))
                } else {
                    Err(ParseErr::Error)
                },
            }
        }
    }
}

/// A segment of a path: an identifier, or an expression.
pub open spec fn sp_path_segment(s: Seq<char>, p: int) -> PRes<SPathSegment>
    decreases s.len() - p, 1int,
{
    match sp_identifier(s, p) {
        Some(n) => Ok((SPathSegment::String(s.subrange(p, n)), n)),
        None => match sp_lexpression(s, p) {
            Ok((e, q)) => Ok((SPathSegment::Expression(e), q)),
            Err(x) => Err(x),
        },
    }
}

/// Path segments separated by `.`, at least one.
pub open spec fn sp_path_list(s: Seq<char>, p: int) -> PRes<Seq<SPathSegment>>
    decreases s.len() - p, 2int,
{
    match sp_path_segment(s, p) {
        Err(x) => Err(x),
        Ok((seg, e)) => if p < e <= s.len() {
            sp_path_rest(s, e, seq![seg])
        } else {
            Err(ParseErr::Error)
        },
    }
}

/// More path segments after those read, each after a `.`; stops before
/// a `.` not followed by a segment.
pub open spec fn sp_path_rest(s: Seq<char>, i: int, acc: Seq<SPathSegment>) -> PRes<Seq<SPathSegment>>
    decreases s.len() - i, 2int,
{
    if !char_at(s, i, '.') {
        Ok((acc, i))
    } else {
        match sp_path_segment(s, i + 1) {
            Err(ParseErr::Error) => Ok((acc, i)),
            Err(ParseErr::Failure) => Err(ParseErr::Failure),
            Ok((seg, e)) => if i < e <= s.len() {
                sp_path_rest(s, e, acc.push(seg))
            } else {
                Err(ParseErr::Error)
            },
        }
    }
}

/// A path into a value: an expression followed by `.` (the value it
/// gives is the start), or the global value when an identifier comes;
/// then the segments.
pub open spec fn sp_epath(s: Seq<char>, p: int) -> PRes<SExpr>
    decreases s.len() - p, 3int,
{
    let scoped = match sp_lexpression(s, p) {
        Ok((e, q)) => if p <= q && char_at(s, q, '.') {
            Ok((SScope::Expression(Box::new(e)), q + 1))
        } else {
            Err(ParseErr::Error)
        },
        Err(x) => Err(x),
    };
    let scope = match scoped {
        Err(ParseErr::Error) => if sp_identifier(s, p) is Some && 0 <= p <= s.len() {
            Ok((SScope::Global, p))
        } else {
            Err(ParseErr::Error)
        },
        r => r,
    };
    match scope {
        Err(x) => Err(x),
        Ok((sc, q)) => match sp_path_list(s, q) {
            Ok((segs, e)) => Ok((SExpr::Path(segs, Box::new(sc)), e)),
            Err(x) => Err(x),
        },
    }
}

/// A segment of a file system path: a file name, or an expression.
pub open spec fn sp_fs_segment(s: Seq<char>, p: int) -> PRes<SFsSegment>
    decreases s.len() - p, 1int,
{
    match sp_fs_name(s, p) {
        Some(n) => Ok((SFsSegment::String(s.subrange(p, n)), n)),
        None => match sp_lexpression(s, p) {
            Ok((e, q)) => Ok((SFsSegment::Expression(e), q)),
            Err(x) => Err(x),
        },
    }
}

/// File system path segments separated by `/`, at least one.
pub open spec fn sp_fs_list(s: Seq<char>, p: int) -> PRes<Seq<SFsSegment>>
    decreases s.len() - p, 2int,
{
    match sp_fs_segment(s, p) {
        Err(x) => Err(x),
        Ok((seg, e)) => if p < e <= s.len() {
            sp_fs_rest(s, e, seq![seg])
        } else {
            Err(ParseErr::Error)
        },
    }
}

/// More file system path segments after those read, each after a `/`.
pub open spec fn sp_fs_rest(s: Seq<char>, i: int, acc: Seq<SFsSegment>) -> PRes<Seq<SFsSegment>>
    decreases s.len() - i, 2int,
{
    if !char_at(s, i, '/') {
        Ok((acc, i))
    } else {
        match sp_fs_segment(s, i + 1) {
            Err(ParseErr::Error) => Ok((acc, i)),
            Err(ParseErr::Failure) => Err(ParseErr::Failure),
            Ok((seg, e)) => if i < e <= s.len() {
                sp_fs_rest(s, e, acc.push(seg))
            } else {
                Err(ParseErr::Error)
            },
        }
    }
}

/// The kind of a file system path and the position after its prefix.
pub open spec fn sp_path_type(s: Seq<char>, p: int) -> Option<(LFsPathType, int)> {
    if char_at(s, p, '/') {
        Some((LFsPathType::Absolute, p + 1))
    } else if char_at(s, p, '.') && char_at(s, p + 1, '/') {
        Some((LFsPathType::Relative, p + 2))
    } else if char_at(s, p, '~') && char_at(s, p + 1, '/') {
        Some((LFsPathType::FromHome, p + 2))
    } else {
        None
    }
}

/// A file system path: `/`, `./` or `~/`, then segments separated by
/// `/`; after the prefix the rest must be well formed.
pub open spec fn sp_efs_path(s: Seq<char>, p: int) -> PRes<SExpr>
    decreases s.len() - p, 3int,
{
    match sp_path_type(s, p) {
        None => Err(ParseErr::Error),
        Some((t, q)) => match sp_fs_list(s, q) {
            Ok((segs, e)) => Ok((SExpr::FsPath(segs, t), e)),
            Err(_) => Err(ParseErr::Failure),
        },
    }
}

/// A piece of a format string: an expression; else a run of characters
/// other than `$`; else `$${`, which stands for `${`; else a lone `$`.
pub open spec fn sp_fragment(s: Seq<char>, p: int) -> PRes<SFragment> {
    match sp_lexpression(s, p) {
        Ok((e, q)) => Ok((SFragment::Expression(e), q)),
        Err(ParseErr::Failure) => Err(ParseErr::Failure),
        Err(ParseErr::Error) => {
            let n = span_end(s, p, CharClass::NotDollar);
            if n > p {
                Ok((SFragment::Raw(s.subrange(p, n)), n))
            } else if char_at(s, p, '$') && char_at(s, p + 1, '$') && char_at(s, p + 2, '{') {
                Ok((SFragment::Raw(s.subrange(p + 1, p + 3)), p + 3))
            } else if char_at(s, p, '$') {
                Ok((SFragment::Raw(s.subrange(p, p + 1)), p + 1))
            } else {
                Err(ParseErr::Error)
            }
        },
    }
}

/// Pieces of a format string read one after another from `p`, until
/// none applies.
pub open spec fn sp_fragments(s: Seq<char>, p: int, acc: Seq<SFragment>) -> PRes<Seq<SFragment>>
    decreases s.len() - p,
{
    match sp_fragment(s, p) {
        Err(ParseErr::Error) => Ok((acc, p)),
        Err(ParseErr::Failure) => Err(ParseErr::Failure),
        Ok((f, e)) => if p < e <= s.len() {
            sp_fragments(s, e, acc.push(f))
        } else {
            Err(ParseErr::Error)
        },
    }
}

} // verus!
