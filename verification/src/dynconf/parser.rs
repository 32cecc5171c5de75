//! Parsing dynconf expressions and format strings (see `grammar` for the
//! rules each function follows). Parsed texts are slices of the input.

use vstd::prelude::*;
use crate::dynconf::grammar::{
    char_at, esc_end, in_class, is_alphanumeric, lemma_span_end, span_end, sp_args, sp_args_rest, sp_arg,
    sp_boolean, sp_efs_path, sp_epath, sp_fragment, sp_fragments, sp_fs_list, sp_fs_name, sp_fs_rest,
    sp_fs_segment, sp_function_call, sp_identifier, sp_inner, sp_lexpression, sp_lvalue, sp_null,
    sp_number, sp_path_list, sp_path_rest, sp_path_segment, sp_path_type, sp_string, sp_string_escaped,
    sp_string_raw, tag_at, CharClass, LFsPathType, PRes, ParseErr, SExpr, SFragment, SFsSegment,
    SPathSegment, SScope, SValue,
};
use crate::text::{parse_unsigned, str_chars};

verus! {

broadcast use vstd::seq_lib::group_seq_properties;

/// A literal value.
#[derive(Debug, PartialEq, Eq, Clone, Copy)]
pub enum LValue<'a> {
    /// A quoted string, quotes and escapes as written.
    String(&'a str),
    /// A string in apostrophes, without them.
    QuoteString(&'a str),
    Integer(i64),
    Boolean(bool),
    Null,
}

/// A segment of a path.
#[derive(Debug, PartialEq, Eq)]
pub enum LPathSegment<'a> {
    Expression(LExpression<'a>),
    String(&'a str),
}

/// A segment of a file system path.
#[derive(Debug, PartialEq, Eq)]
pub enum LFsPathSegment<'a> {
    String(&'a str),
    Expression(LExpression<'a>),
}

/// An expression.
#[derive(Debug, PartialEq, Eq)]
pub enum LExpression<'a> {
    Value(LValue<'a>),
    Path(Vec<LPathSegment<'a>>, Box<PathScope<'a>>),
    FsPath(Vec<LFsPathSegment<'a>>, LFsPathType),
    FunctionCall(&'a str, Vec<LExpression<'a>>),
}

/// Where a path starts: the global value, or the value of an
/// expression.
#[derive(Debug, PartialEq, Eq)]
pub enum PathScope<'a> {
    Global,
    Expression(LExpression<'a>),
}

/// A format string: text with expressions in it.
#[derive(Debug, PartialEq, Eq)]
pub struct LFormatString<'a>(pub Vec<LFormatStringFragment<'a>>);

/// A piece of a format string.
#[derive(Debug, PartialEq, Eq)]
pub enum LFormatStringFragment<'a> {
    Expression(LExpression<'a>),
    Raw(&'a str),
}

/// A literal as plain values.
pub open spec fn lvalue_view(v: LValue) -> SValue {
    match v {
        LValue::String(s) => SValue::String(s@),
        LValue::QuoteString(s) => SValue::QuoteString(s@),
        LValue::Integer(i) => SValue::Integer(i),
        LValue::Boolean(b) => SValue::Boolean(b),
        LValue::Null => SValue::Null,
    }
}

/// An expression as plain values.
pub open spec fn expr_view(e: LExpression) -> SExpr
    decreases e,
{
    match e {
        LExpression::Value(v) => SExpr::Value(lvalue_view(v)),
        LExpression::Path(segs, scope) => SExpr::Path(segs_view(segs@), Box::new(scope_view(*scope))),
        LExpression::FsPath(segs, t) => SExpr::FsPath(fs_segs_view(segs@), t),
        LExpression::FunctionCall(name, args) => SExpr::FunctionCall(name@, exprs_view(args@)),
    }
}

/// Where a path starts, as plain values.
pub open spec fn scope_view(sc: PathScope) -> SScope
    decreases sc,
{
    match sc {
        PathScope::Global => SScope::Global,
        PathScope::Expression(e) => SScope::Expression(Box::new(expr_view(e))),
    }
}

/// Expressions as plain values.
pub open spec fn exprs_view(es: Seq<LExpression>) -> Seq<SExpr>
    decreases es,
{
    if es.len() == 0 {
        Seq::empty()
    } else {
        seq![expr_view(es[0])] + exprs_view(es.drop_first())
    }
}

/// A path segment as plain values.
pub open spec fn seg_view(s: LPathSegment) -> SPathSegment
    decreases s,
{
    match s {
        LPathSegment::Expression(e) => SPathSegment::Expression(expr_view(e)),
        LPathSegment::String(t) => SPathSegment::String(t@),
    }
}

/// Path segments as plain values.
pub open spec fn segs_view(ss: Seq<LPathSegment>) -> Seq<SPathSegment>
    decreases ss,
{
    if ss.len() == 0 {
        Seq::empty()
    } else {
        seq![seg_view(ss[0])] + segs_view(ss.drop_first())
    }
}

/// A file system path segment as plain values.
pub open spec fn fs_seg_view(s: LFsPathSegment) -> SFsSegment
    decreases s,
{
    match s {
        LFsPathSegment::String(t) => SFsSegment::String(t@),
        LFsPathSegment::Expression(e) => SFsSegment::Expression(expr_view(e)),
    }
}

/// File system path segments as plain values.
pub open spec fn fs_segs_view(ss: Seq<LFsPathSegment>) -> Seq<SFsSegment>
    decreases ss,
{
    if ss.len() == 0 {
        Seq::empty()
    } else {
        seq![fs_seg_view(ss[0])] + fs_segs_view(ss.drop_first())
    }
}

/// A piece of a format string as plain values.
pub open spec fn fragment_view(f: LFormatStringFragment) -> SFragment {
    match f {
        LFormatStringFragment::Expression(e) => SFragment::Expression(expr_view(e)),
        LFormatStringFragment::Raw(t) => SFragment::Raw(t@),
    }
}

/// Pieces of a format string as plain values.
pub open spec fn fragments_view(fs: Seq<LFormatStringFragment>) -> Seq<SFragment> {
    fs.map_values(|f: LFormatStringFragment| fragment_view(f))
}

/// The view of a list with one more item.
pub proof fn lemma_exprs_view_push(es: Seq<LExpression>, e: LExpression)
    ensures
        exprs_view(es.push(e)) == exprs_view(es).push(expr_view(e)),
    decreases es.len(),
{
    if es.len() == 0 {
        assert(es.push(e).drop_first() =~= Seq::<LExpression>::empty());
        assert(exprs_view(es.push(e).drop_first()) == Seq::<SExpr>::empty());
        assert(exprs_view(es.push(e)) =~= seq![expr_view(e)]);
    } else {
        assert(es.push(e).drop_first() =~= es.drop_first().push(e));
        lemma_exprs_view_push(es.drop_first(), e);
        assert(exprs_view(es.push(e)) =~= exprs_view(es).push(expr_view(e)));
    }
}

/// The view of a list with one more item.
pub proof fn lemma_segs_view_push(ss: Seq<LPathSegment>, s: LPathSegment)
    ensures
        segs_view(ss.push(s)) == segs_view(ss).push(seg_view(s)),
    decreases ss.len(),
{
    if ss.len() == 0 {
        assert(ss.push(s).drop_first() =~= Seq::<LPathSegment>::empty());
        assert(segs_view(ss.push(s).drop_first()) == Seq::<SPathSegment>::empty());
        assert(segs_view(ss.push(s)) =~= seq![seg_view(s)]);
    } else {
        assert(ss.push(s).drop_first() =~= ss.drop_first().push(s));
        lemma_segs_view_push(ss.drop_first(), s);
        assert(segs_view(ss.push(s)) =~= segs_view(ss).push(seg_view(s)));
    }
}

/// The view of a list with one more item.
pub proof fn lemma_fs_segs_view_push(ss: Seq<LFsPathSegment>, s: LFsPathSegment)
    ensures
        fs_segs_view(ss.push(s)) == fs_segs_view(ss).push(fs_seg_view(s)),
    decreases ss.len(),
{
    if ss.len() == 0 {
        assert(ss.push(s).drop_first() =~= Seq::<LFsPathSegment>::empty());
        assert(fs_segs_view(ss.push(s).drop_first()) == Seq::<SFsSegment>::empty());
        assert(fs_segs_view(ss.push(s)) =~= seq![fs_seg_view(s)]);
    } else {
        assert(ss.push(s).drop_first() =~= ss.drop_first().push(s));
        lemma_fs_segs_view_push(ss.drop_first(), s);
        assert(fs_segs_view(ss.push(s)) =~= fs_segs_view(ss).push(fs_seg_view(s)));
    }
}


/// The view of a list of expressions, item by item.
pub proof fn lemma_exprs_view(es: Seq<LExpression>)
    ensures
        exprs_view(es).len() == es.len(),
        forall|i: int| 0 <= i < es.len() ==> #[trigger] exprs_view(es)[i] == expr_view(es[i]),
    decreases es.len(),
{
    if es.len() > 0 {
        lemma_exprs_view(es.drop_first());
        assert forall|i: int| 0 <= i < es.len() implies #[trigger] exprs_view(es)[i] == expr_view(es[i]) by {
            if i > 0 {
                assert(es[i] == es.drop_first()[i - 1]);
            }
        }
    }
}

/// The view of a list of path segments, item by item.
pub proof fn lemma_segs_view(ss: Seq<LPathSegment>)
    ensures
        segs_view(ss).len() == ss.len(),
        forall|i: int| 0 <= i < ss.len() ==> #[trigger] segs_view(ss)[i] == seg_view(ss[i]),
    decreases ss.len(),
{
    if ss.len() > 0 {
        lemma_segs_view(ss.drop_first());
        assert forall|i: int| 0 <= i < ss.len() implies #[trigger] segs_view(ss)[i] == seg_view(ss[i]) by {
            if i > 0 {
                assert(ss[i] == ss.drop_first()[i - 1]);
            }
        }
    }
}

/// The view of a list of file path segments, item by item.
pub proof fn lemma_fs_segs_view(ss: Seq<LFsPathSegment>)
    ensures
        fs_segs_view(ss).len() == ss.len(),
        forall|i: int| 0 <= i < ss.len() ==> #[trigger] fs_segs_view(ss)[i] == fs_seg_view(ss[i]),
    decreases ss.len(),
{
    if ss.len() > 0 {
        lemma_fs_segs_view(ss.drop_first());
        assert forall|i: int| 0 <= i < ss.len() implies #[trigger] fs_segs_view(ss)[i] == fs_seg_view(ss[i]) by {
            if i > 0 {
                assert(ss[i] == ss.drop_first()[i - 1]);
            }
        }
    }
}

fn in_class_exec(c: char, k: CharClass) -> (r: bool)
    ensures
        r == in_class(c, k),
{
    match k {
        CharClass::Ws => c == ' ' || c == '\t' || c == '\n' || c == '\r',
        CharClass::Digit => '0' <= c && c <= '9',
        CharClass::Unescaped => c != '"' && c != '\\',
        CharClass::NotApostrophe => c != '\'',
        CharClass::IdentRest => is_alphanumeric(c) || c == '_' || c == '-',
        CharClass::FsName => is_alphanumeric(c) || c == '.' || c == '-' || c == '_',
        CharClass::NotDollar => c != '$',
    }
}

fn span_end_exec(cs: &Vec<char>, p: usize, k: CharClass) -> (r: usize)
    requires
        p <= cs@.len(),
    ensures
        r == span_end(cs@, p as int, k),
        p <= r <= cs@.len(),
{
    let mut i = p;
    while i < cs.len() && in_class_exec(cs[i], k)
        invariant
            p <= i <= cs@.len(),
            span_end(cs@, p as int, k) == span_end(cs@, i as int, k),
        decreases cs.len() - i,
    {
        i = i + 1;
    }
    i
}

fn char_at_exec(cs: &Vec<char>, p: usize, c: char) -> (r: bool)
    ensures
        r == char_at(cs@, p as int, c),
{
    p < cs.len() && cs[p] == c
}

fn identifier_at(cs: &Vec<char>, p: usize) -> (r: Option<usize>)
    requires
        p <= cs@.len() < usize::MAX,
    ensures
        match r {
            Some(n) => sp_identifier(cs@, p as int) == Some(n as int) && p < n <= cs@.len(),
            None => sp_identifier(cs@, p as int) is None,
        },
{
    if p < cs.len() && (('a' <= cs[p] && cs[p] <= 'z') || ('A' <= cs[p] && cs[p] <= 'Z') || cs[p] == '_') {
        Some(span_end_exec(cs, p + 1, CharClass::IdentRest))
    } else {
        None
    }
}

fn fs_name_at(cs: &Vec<char>, p: usize) -> (r: Option<usize>)
    requires
        p <= cs@.len() < usize::MAX,
    ensures
        match r {
            Some(n) => sp_fs_name(cs@, p as int) == Some(n as int) && p < n <= cs@.len(),
            None => sp_fs_name(cs@, p as int) is None,
        },
{
    if p < cs.len() && in_class_exec(cs[p], CharClass::FsName) {
        Some(span_end_exec(cs, p + 1, CharClass::FsName))
    } else {
        None
    }
}

fn tag_at_exec(cs: &Vec<char>, p: usize, t: &Vec<char>) -> (r: bool)
    requires
        p <= cs@.len(),
    ensures
        r == tag_at(cs@, p as int, t@),
{
    if cs.len() - p < t.len() {
        return false;
    }
    let n = cs.len();
    let mut i: usize = 0;
    while i < t.len()
        invariant
            n == cs@.len(),
            p + t@.len() <= cs@.len(),
            i <= t@.len(),
            forall|j: int| 0 <= j < i ==> cs@[p + j] == t@[j],
        decreases t.len() - i,
    {
        if cs[p + i] != t[i] {
            assert(cs@.subrange(p as int, p + t@.len())[i as int] != t@[i as int]);
            return false;
        }
        i = i + 1;
    }
    assert(cs@.subrange(p as int, p + t@.len()) =~= t@);
    true
}

fn slice_chars(cs: &Vec<char>, a: usize, b: usize) -> (r: Vec<char>)
    requires
        a <= b <= cs@.len(),
    ensures
        r@ == cs@.subrange(a as int, b as int),
{
    let mut r: Vec<char> = Vec::new();
    let mut i = a;
    while i < b
        invariant
            a <= i <= b,
            b <= cs@.len(),
            r@ == cs@.subrange(a as int, i as int),
        decreases b - i,
    {
        r.push(cs[i]);
        assert(r@ =~= cs@.subrange(a as int, i + 1));
        i = i + 1;
    }
    r
}

/// The result of a rule on literals, against the grammar.
pub open spec fn value_result(r: Result<(LValue, usize), ParseErr>, g: PRes<SValue>, n: nat) -> bool {
    match r {
        Ok((v, e)) => g == Ok::<(SValue, int), ParseErr>((lvalue_view(v), e as int)) && e <= n,
        Err(x) => g == Err::<(SValue, int), ParseErr>(x),
    }
}

/// The result of a rule on expressions, against the grammar.
pub open spec fn expr_result(r: Result<(LExpression, usize), ParseErr>, g: PRes<SExpr>, n: nat) -> bool {
    match r {
        Ok((v, e)) => g == Ok::<(SExpr, int), ParseErr>((expr_view(v), e as int)) && e <= n,
        Err(x) => g == Err::<(SExpr, int), ParseErr>(x),
    }
}

fn number_at<'a>(input: &'a str, cs: &Vec<char>, p: usize) -> (r: Result<(LValue<'a>, usize), ParseErr>)
    requires
        cs@ == input@,
        p <= cs@.len() < usize::MAX,
    ensures
        value_result(r, sp_number(cs@, p as int), cs@.len()),
{
    let neg = char_at_exec(cs, p, '-');
    let q = span_end_exec(cs, if neg { p + 1 } else { p }, CharClass::Ws);
    let d = span_end_exec(cs, q, CharClass::Digit);
    if d == q {
        return Err(ParseErr::Error);
    }
    let digits = slice_chars(cs, q, d);
    match parse_unsigned(&digits, 0x7fff_ffff_ffff_ffff) {
        Ok(v) => {
            proof {
                let ds = digits@;
                if ds[0] == '+' {
                    crate::text::lemma_digits_value_bound(ds.drop_first(), 0, 0x7fff_ffff_ffff_ffff);
                } else {
                    crate::text::lemma_digits_value_bound(ds, 0, 0x7fff_ffff_ffff_ffff);
                }
            }
            let n: i64 = v as i64;
            Ok((LValue::Integer(if neg { -n } else { n }), d))
        },
        Err(_) => Err(ParseErr::Error),
    }
}

fn esc_end_exec(cs: &Vec<char>, start: usize, i0: usize) -> (r: Option<usize>)
    requires
        start <= i0 <= cs@.len() < usize::MAX,
    ensures
        match r {
            Some(e) => esc_end(cs@, start as int, i0 as int) == Some(e as int) && i0 <= e <= cs@.len(),
            None => esc_end(cs@, start as int, i0 as int) is None,
        },
{
    let mut i = i0;
    while i < cs.len()
        invariant
            start <= i0 <= i <= cs@.len() < usize::MAX,
            esc_end(cs@, start as int, i0 as int) == esc_end(cs@, start as int, i as int),
        decreases cs.len() - i,
    {
        let c = cs[i];
        if c != '"' && c != '\\' {
            proof {
                lemma_span_end(cs@, i as int, CharClass::Unescaped);
            }
            i = span_end_exec(cs, i, CharClass::Unescaped);
        } else if c == '\\' {
            if i + 1 >= cs.len() {
                assert(esc_end(cs@, start as int, i as int) is None);
                return None;
            }
            let n = cs[i + 1];
            if n == '"' || n == 'r' || n == 'n' || n == '\\' {
                i = i + 2;
            } else {
                assert(esc_end(cs@, start as int, i as int) is None);
                return None;
            }
        } else if i == start {
            return None;
        } else {
            return Some(i);
        }
    }
    Some(cs.len())
}

fn string_escaped_at<'a>(input: &'a str, cs: &Vec<char>, p: usize) -> (r: Result<(LValue<'a>, usize), ParseErr>)
    requires
        cs@ == input@,
        p <= cs@.len() < usize::MAX,
    ensures
        value_result(r, sp_string_escaped(cs@, p as int), cs@.len()),
{
    if !char_at_exec(cs, p, '"') {
        return Err(ParseErr::Error);
    }
    match esc_end_exec(cs, p + 1, p + 1) {
        None => Err(ParseErr::Failure),
        Some(e) => if char_at_exec(cs, e, '"') {
            assert(e < cs@.len());
            Ok((LValue::String(input.substring_char(p, e + 1)), e + 1))
        } else {
            Err(ParseErr::Failure)
        },
    }
}

fn string_raw_at<'a>(input: &'a str, cs: &Vec<char>, p: usize) -> (r: Result<(LValue<'a>, usize), ParseErr>)
    requires
        cs@ == input@,
        p <= cs@.len() < usize::MAX,
    ensures
        value_result(r, sp_string_raw(cs@, p as int), cs@.len()),
{
    if !char_at_exec(cs, p, '\'') {
        return Err(ParseErr::Error);
    }
    let j = span_end_exec(cs, p + 1, CharClass::NotApostrophe);
    if j == p + 1 {
        Err(ParseErr::Failure)
    } else if char_at_exec(cs, j, '\'') {
        Ok((LValue::QuoteString(input.substring_char(p + 1, j)), j + 1))
    } else {
        Err(ParseErr::Failure)
    }
}

fn string_at<'a>(input: &'a str, cs: &Vec<char>, p: usize) -> (r: Result<(LValue<'a>, usize), ParseErr>)
    requires
        cs@ == input@,
        p <= cs@.len() < usize::MAX,
    ensures
        value_result(r, sp_string(cs@, p as int), cs@.len()),
{
    match string_escaped_at(input, cs, p) {
        Err(ParseErr::Error) => string_raw_at(input, cs, p),
        r => r,
    }
}

fn boolean_at<'a>(cs: &Vec<char>, p: usize) -> (r: Result<(LValue<'a>, usize), ParseErr>)
    requires
        p <= cs@.len() < usize::MAX,
    ensures
        value_result(r, sp_boolean(cs@, p as int), cs@.len()),
{
    let t = vec!['t', 'r', 'u', 'e'];
    let f = vec!['f', 'a', 'l', 's', 'e'];
    assert(t@ =~= seq!['t', 'r', 'u', 'e']);
    assert(f@ =~= seq!['f', 'a', 'l', 's', 'e']);
    if tag_at_exec(cs, p, &t) {
        Ok((LValue::Boolean(true), p + 4))
    } else if tag_at_exec(cs, p, &f) {
        Ok((LValue::Boolean(false), p + 5))
    } else {
        Err(ParseErr::Error)
    }
}

fn null_at<'a>(cs: &Vec<char>, p: usize) -> (r: Result<(LValue<'a>, usize), ParseErr>)
    requires
        p <= cs@.len() < usize::MAX,
    ensures
        value_result(r, sp_null(cs@, p as int), cs@.len()),
{
    let t = vec!['n', 'u', 'l', 'l'];
    assert(t@ =~= seq!['n', 'u', 'l', 'l']);
    if tag_at_exec(cs, p, &t) {
        Ok((LValue::Null, p + 4))
    } else {
        Err(ParseErr::Error)
    }
}

fn lvalue_at<'a>(input: &'a str, cs: &Vec<char>, p: usize) -> (r: Result<(LValue<'a>, usize), ParseErr>)
    requires
        cs@ == input@,
        p <= cs@.len() < usize::MAX,
    ensures
        value_result(r, sp_lvalue(cs@, p as int), cs@.len()),
{
    match number_at(input, cs, p) {
        Err(ParseErr::Error) => match string_at(input, cs, p) {
            Err(ParseErr::Error) => match boolean_at(cs, p) {
                Err(ParseErr::Error) => null_at(cs, p),
                r => r,
            },
            r => r,
        },
        r => r,
    }
}


/// The result of a rule on path segments, against the grammar.
pub open spec fn seg_result(r: Result<(LPathSegment, usize), ParseErr>, g: PRes<SPathSegment>, n: nat) -> bool {
    match r {
        Ok((v, e)) => g == Ok::<(SPathSegment, int), ParseErr>((seg_view(v), e as int)) && e <= n,
        Err(x) => g == Err::<(SPathSegment, int), ParseErr>(x),
    }
}

/// The result of a rule on lists of path segments, against the grammar.
pub open spec fn segs_result(r: Result<(Vec<LPathSegment>, usize), ParseErr>, g: PRes<Seq<SPathSegment>>, n: nat) -> bool {
    match r {
        Ok((v, e)) => g == Ok::<(Seq<SPathSegment>, int), ParseErr>((segs_view(v@), e as int)) && e <= n,
        Err(x) => g == Err::<(Seq<SPathSegment>, int), ParseErr>(x),
    }
}

/// The result of a rule on file system path segments, against the
/// grammar.
pub open spec fn fs_seg_result(r: Result<(LFsPathSegment, usize), ParseErr>, g: PRes<SFsSegment>, n: nat) -> bool {
    match r {
        Ok((v, e)) => g == Ok::<(SFsSegment, int), ParseErr>((fs_seg_view(v), e as int)) && e <= n,
        Err(x) => g == Err::<(SFsSegment, int), ParseErr>(x),
    }
}

/// The result of a rule on lists of file system path segments, against
/// the grammar.
pub open spec fn fs_segs_result(r: Result<(Vec<LFsPathSegment>, usize), ParseErr>, g: PRes<Seq<SFsSegment>>, n: nat) -> bool {
    match r {
        Ok((v, e)) => g == Ok::<(Seq<SFsSegment>, int), ParseErr>((fs_segs_view(v@), e as int)) && e <= n,
        Err(x) => g == Err::<(Seq<SFsSegment>, int), ParseErr>(x),
    }
}

/// The result of a rule on lists of expressions, against the grammar.
pub open spec fn exprs_result(r: Result<(Vec<LExpression>, usize), ParseErr>, g: PRes<Seq<SExpr>>, n: nat) -> bool {
    match r {
        Ok((v, e)) => g == Ok::<(Seq<SExpr>, int), ParseErr>((exprs_view(v@), e as int)) && e <= n,
        Err(x) => g == Err::<(Seq<SExpr>, int), ParseErr>(x),
    }
}

fn lexpression_at<'a>(input: &'a str, cs: &Vec<char>, p: usize) -> (r: Result<(LExpression<'a>, usize), ParseErr>)
    requires
        cs@ == input@,
        p <= cs@.len() < usize::MAX,
    ensures
        expr_result(r, sp_lexpression(cs@, p as int), cs@.len()),
    decreases cs@.len() - p, 0int,
{
    if !(p < cs.len() && cs.len() - p >= 2 && cs[p] == '$' && cs[p + 1] == '{') {
        return Err(ParseErr::Error);
    }
    let q = span_end_exec(cs, p + 2, CharClass::Ws);
    match inner_at(input, cs, q) {
        Err(_) => Err(ParseErr::Failure),
        Ok((e, r)) => {
            let t = span_end_exec(cs, r, CharClass::Ws);
            if char_at_exec(cs, t, '}') {
                Ok((e, t + 1))
            } else {
                Err(ParseErr::Failure)
            }
        },
    }
}

fn inner_at<'a>(input: &'a str, cs: &Vec<char>, p: usize) -> (r: Result<(LExpression<'a>, usize), ParseErr>)
    requires
        cs@ == input@,
        p <= cs@.len() < usize::MAX,
    ensures
        expr_result(r, sp_inner(cs@, p as int), cs@.len()),
    decreases cs@.len() - p, 4int,
{
    match lvalue_at(input, cs, p) {
        Ok((v, e)) => Ok((LExpression::Value(v), e)),
        Err(ParseErr::Failure) => Err(ParseErr::Failure),
        Err(ParseErr::Error) => match function_call_at(input, cs, p) {
            Err(ParseErr::Error) => match epath_at(input, cs, p) {
                Err(ParseErr::Error) => match efs_path_at(input, cs, p) {
                    Err(ParseErr::Error) => lexpression_at(input, cs, p),
                    r => r,
                },
                r => r,
            },
            r => r,
        },
    }
}

fn function_call_at<'a>(input: &'a str, cs: &Vec<char>, p: usize) -> (r: Result<(LExpression<'a>, usize), ParseErr>)
    requires
        cs@ == input@,
        p <= cs@.len() < usize::MAX,
    ensures
        expr_result(r, sp_function_call(cs@, p as int), cs@.len()),
    decreases cs@.len() - p, 3int,
{
    let n = match identifier_at(cs, p) {
        None => { return Err(ParseErr::Error); },
        Some(n) => n,
    };
    let q = span_end_exec(cs, n, CharClass::Ws);
    if !char_at_exec(cs, q, '(') {
        return Err(ParseErr::Error);
    }
    match args_at(input, cs, q + 1) {
        Err(_) => Err(ParseErr::Failure),
        Ok((args, e)) => {
            let t = span_end_exec(cs, e, CharClass::Ws);
            if char_at_exec(cs, t, ')') {
                Ok((LExpression::FunctionCall(input.substring_char(p, n), args), t + 1))
            } else {
                Err(ParseErr::Failure)
            }
        },
    }
}

fn arg_at<'a>(input: &'a str, cs: &Vec<char>, p: usize) -> (r: Result<(LExpression<'a>, usize), ParseErr>)
    requires
        cs@ == input@,
        p <= cs@.len() < usize::MAX,
    ensures
        expr_result(r, sp_arg(cs@, p as int), cs@.len()),
    decreases cs@.len() - p, 5int,
{
    let q = span_end_exec(cs, p, CharClass::Ws);
    match lexpression_at(input, cs, q) {
        Err(ParseErr::Error) => inner_at(input, cs, q),
        r => r,
    }
}

fn args_at<'a>(input: &'a str, cs: &Vec<char>, p: usize) -> (r: Result<(Vec<LExpression<'a>>, usize), ParseErr>)
    requires
        cs@ == input@,
        p <= cs@.len() < usize::MAX,
    ensures
        exprs_result(r, sp_args(cs@, p as int), cs@.len()),
    decreases cs@.len() - p, 6int,
{
    match arg_at(input, cs, p) {
        Err(ParseErr::Error) => Ok((Vec::new(), p)),
        Err(ParseErr::Failure) => Err(ParseErr::Failure),
        Ok((a, e)) => if p < e {
            let mut acc: Vec<LExpression<'a>> = Vec::new();
            acc.push(a);
            proof {
                lemma_exprs_view_push(Seq::<LExpression>::empty(), a);
                assert(acc@ =~= Seq::<LExpression>::empty().push(a));
            }
            args_rest_at(input, cs, e, acc)
        } else {
            Err(ParseErr::Error)
        },
    }
}

fn args_rest_at<'a>(input: &'a str, cs: &Vec<char>, i: usize, acc: Vec<LExpression<'a>>) -> (r: Result<(Vec<LExpression<'a>>, usize), ParseErr>)
    requires
        cs@ == input@,
        i <= cs@.len() < usize::MAX,
    ensures
        exprs_result(r, sp_args_rest(cs@, i as int, exprs_view(acc@)), cs@.len()),
    decreases cs@.len() - i, 6int,
{
    let t = span_end_exec(cs, i, CharClass::Ws);
    if !char_at_exec(cs, t, ',') {
        return Ok((acc, i));
    }
    match arg_at(input, cs, t + 1) {
        Err(ParseErr::Error) => Ok((acc, i)),
        Err(ParseErr::Failure) => Err(ParseErr::Failure),
        Ok((a, e)) => if i < e {
            let mut acc = acc;
            let ghost before = acc@;
            acc.push(a);
            proof {
                lemma_exprs_view_push(before, a);
            }
            args_rest_at(input, cs, e, acc)
        } else {
            Err(ParseErr::Error)
        },
    }
}

fn path_segment_at<'a>(input: &'a str, cs: &Vec<char>, p: usize) -> (r: Result<(LPathSegment<'a>, usize), ParseErr>)
    requires
        cs@ == input@,
        p <= cs@.len() < usize::MAX,
    ensures
        seg_result(r, sp_path_segment(cs@, p as int), cs@.len()),
    decreases cs@.len() - p, 1int,
{
    match identifier_at(cs, p) {
        Some(n) => Ok((LPathSegment::String(input.substring_char(p, n)), n)),
        None => match lexpression_at(input, cs, p) {
            Ok((e, q)) => Ok((LPathSegment::Expression(e), q)),
            Err(x) => Err(x),
        },
    }
}

fn path_list_at<'a>(input: &'a str, cs: &Vec<char>, p: usize) -> (r: Result<(Vec<LPathSegment<'a>>, usize), ParseErr>)
    requires
        cs@ == input@,
        p <= cs@.len() < usize::MAX,
    ensures
        segs_result(r, sp_path_list(cs@, p as int), cs@.len()),
    decreases cs@.len() - p, 2int,
{
    match path_segment_at(input, cs, p) {
        Err(x) => Err(x),
        Ok((seg, e)) => if p < e {
            let mut acc: Vec<LPathSegment<'a>> = Vec::new();
            acc.push(seg);
            proof {
                lemma_segs_view_push(Seq::<LPathSegment>::empty(), seg);
                assert(acc@ =~= Seq::<LPathSegment>::empty().push(seg));
            }
            path_rest_at(input, cs, e, acc)
        } else {
            Err(ParseErr::Error)
        },
    }
}

fn path_rest_at<'a>(input: &'a str, cs: &Vec<char>, i: usize, acc: Vec<LPathSegment<'a>>) -> (r: Result<(Vec<LPathSegment<'a>>, usize), ParseErr>)
    requires
        cs@ == input@,
        i <= cs@.len() < usize::MAX,
    ensures
        segs_result(r, sp_path_rest(cs@, i as int, segs_view(acc@)), cs@.len()),
    decreases cs@.len() - i, 2int,
{
    if !char_at_exec(cs, i, '.') {
        return Ok((acc, i));
    }
    match path_segment_at(input, cs, i + 1) {
        Err(ParseErr::Error) => Ok((acc, i)),
        Err(ParseErr::Failure) => Err(ParseErr::Failure),
        Ok((seg, e)) => if i < e {
            let mut acc = acc;
            let ghost before = acc@;
            acc.push(seg);
            proof {
                lemma_segs_view_push(before, seg);
            }
            path_rest_at(input, cs, e, acc)
        } else {
            Err(ParseErr::Error)
        },
    }
}

fn epath_at<'a>(input: &'a str, cs: &Vec<char>, p: usize) -> (r: Result<(LExpression<'a>, usize), ParseErr>)
    requires
        cs@ == input@,
        p <= cs@.len() < usize::MAX,
    ensures
        expr_result(r, sp_epath(cs@, p as int), cs@.len()),
    decreases cs@.len() - p, 3int,
{
    let scoped: Result<(PathScope<'a>, usize), ParseErr> = match lexpression_at(input, cs, p) {
        Ok((e, q)) => if p <= q && char_at_exec(cs, q, '.') {
            Ok((PathScope::Expression(e), q + 1))
        } else {
            Err(ParseErr::Error)
        },
        Err(x) => Err(x),
    };
    let ghost gscoped = match sp_lexpression(cs@, p as int) {
        Ok((e, q)) => if p <= q && char_at(cs@, q, '.') {
            Ok((SScope::Expression(Box::new(e)), q + 1))
        } else {
            Err(ParseErr::Error)
        },
        Err(x) => Err(x),
    };
    assert(match scoped {
        Ok((sc, q)) => gscoped == Ok::<(SScope, int), ParseErr>((scope_view(sc), q as int)) && q <= cs@.len(),
        Err(x) => gscoped == Err::<(SScope, int), ParseErr>(x),
    });
    let scope: Result<(PathScope<'a>, usize), ParseErr> = match scoped {
        Err(ParseErr::Error) => if identifier_at(cs, p).is_some() {
            Ok((PathScope::Global, p))
        } else {
            Err(ParseErr::Error)
        },
        r => r,
    };
    match scope {
        Err(x) => Err(x),
        Ok((sc, q)) => match path_list_at(input, cs, q) {
            Ok((segs, e)) => Ok((LExpression::Path(segs, Box::new(sc)), e)),
            Err(x) => Err(x),
        },
    }
}

fn fs_segment_at<'a>(input: &'a str, cs: &Vec<char>, p: usize) -> (r: Result<(LFsPathSegment<'a>, usize), ParseErr>)
    requires
        cs@ == input@,
        p <= cs@.len() < usize::MAX,
    ensures
        fs_seg_result(r, sp_fs_segment(cs@, p as int), cs@.len()),
    decreases cs@.len() - p, 1int,
{
    match fs_name_at(cs, p) {
        Some(n) => Ok((LFsPathSegment::String(input.substring_char(p, n)), n)),
        None => match lexpression_at(input, cs, p) {
            Ok((e, q)) => Ok((LFsPathSegment::Expression(e), q)),
            Err(x) => Err(x),
        },
    }
}

fn fs_list_at<'a>(input: &'a str, cs: &Vec<char>, p: usize) -> (r: Result<(Vec<LFsPathSegment<'a>>, usize), ParseErr>)
    requires
        cs@ == input@,
        p <= cs@.len() < usize::MAX,
    ensures
        fs_segs_result(r, sp_fs_list(cs@, p as int), cs@.len()),
    decreases cs@.len() - p, 2int,
{
    match fs_segment_at(input, cs, p) {
        Err(x) => Err(x),
        Ok((seg, e)) => if p < e {
            let mut acc: Vec<LFsPathSegment<'a>> = Vec::new();
            acc.push(seg);
            proof {
                lemma_fs_segs_view_push(Seq::<LFsPathSegment>::empty(), seg);
                assert(acc@ =~= Seq::<LFsPathSegment>::empty().push(seg));
            }
            fs_rest_at(input, cs, e, acc)
        } else {
            Err(ParseErr::Error)
        },
    }
}

fn fs_rest_at<'a>(input: &'a str, cs: &Vec<char>, i: usize, acc: Vec<LFsPathSegment<'a>>) -> (r: Result<(Vec<LFsPathSegment<'a>>, usize), ParseErr>)
    requires
        cs@ == input@,
        i <= cs@.len() < usize::MAX,
    ensures
        fs_segs_result(r, sp_fs_rest(cs@, i as int, fs_segs_view(acc@)), cs@.len()),
    decreases cs@.len() - i, 2int,
{
    if !char_at_exec(cs, i, '/') {
        return Ok((acc, i));
    }
    match fs_segment_at(input, cs, i + 1) {
        Err(ParseErr::Error) => Ok((acc, i)),
        Err(ParseErr::Failure) => Err(ParseErr::Failure),
        Ok((seg, e)) => if i < e {
            let mut acc = acc;
            let ghost before = acc@;
            acc.push(seg);
            proof {
                lemma_fs_segs_view_push(before, seg);
            }
            fs_rest_at(input, cs, e, acc)
        } else {
            Err(ParseErr::Error)
        },
    }
}

fn efs_path_at<'a>(input: &'a str, cs: &Vec<char>, p: usize) -> (r: Result<(LExpression<'a>, usize), ParseErr>)
    requires
        cs@ == input@,
        p <= cs@.len() < usize::MAX,
    ensures
        expr_result(r, sp_efs_path(cs@, p as int), cs@.len()),
    decreases cs@.len() - p, 3int,
{
    let (t, q) = if char_at_exec(cs, p, '/') {
        (LFsPathType::Absolute, p + 1)
    } else if char_at_exec(cs, p, '.') && char_at_exec(cs, p + 1, '/') {
        (LFsPathType::Relative, p + 2)
    } else if char_at_exec(cs, p, '~') && char_at_exec(cs, p + 1, '/') {
        (LFsPathType::FromHome, p + 2)
    } else {
        return Err(ParseErr::Error);
    };
    assert(sp_path_type(cs@, p as int) == Some((t, q as int)));
    match fs_list_at(input, cs, q) {
        Ok((segs, e)) => Ok((LExpression::FsPath(segs, t), e)),
        Err(_) => Err(ParseErr::Failure),
    }
}


fn fragment_at<'a>(input: &'a str, cs: &Vec<char>, p: usize) -> (r: Result<(LFormatStringFragment<'a>, usize), ParseErr>)
    requires
        cs@ == input@,
        p <= cs@.len() < usize::MAX,
    ensures
        match r {
            Ok((f, e)) => sp_fragment(cs@, p as int) == Ok::<(SFragment, int), ParseErr>((fragment_view(f), e as int))
                && e <= cs@.len(),
            Err(x) => sp_fragment(cs@, p as int) == Err::<(SFragment, int), ParseErr>(x),
        },
{
    match lexpression_at(input, cs, p) {
        Ok((e, q)) => Ok((LFormatStringFragment::Expression(e), q)),
        Err(ParseErr::Failure) => Err(ParseErr::Failure),
        Err(ParseErr::Error) => {
            let n = span_end_exec(cs, p, CharClass::NotDollar);
            if n > p {
                Ok((LFormatStringFragment::Raw(input.substring_char(p, n)), n))
            } else if char_at_exec(cs, p, '$') && char_at_exec(cs, p + 1, '$') && char_at_exec(cs, p + 2, '{') {
                Ok((LFormatStringFragment::Raw(input.substring_char(p + 1, p + 3)), p + 3))
            } else if char_at_exec(cs, p, '$') {
                Ok((LFormatStringFragment::Raw(input.substring_char(p, p + 1)), p + 1))
            } else {
                Err(ParseErr::Error)
            }
        },
    }
}

fn fragments_at<'a>(input: &'a str, cs: &Vec<char>, p: usize) -> (r: Result<(Vec<LFormatStringFragment<'a>>, usize), ParseErr>)
    requires
        cs@ == input@,
        p <= cs@.len() < usize::MAX,
    ensures
        match r {
            Ok((fs, e)) => sp_fragments(cs@, p as int, Seq::empty()) == Ok::<(Seq<SFragment>, int), ParseErr>(
                (fragments_view(fs@), e as int),
            ) && e <= cs@.len(),
            Err(x) => sp_fragments(cs@, p as int, Seq::empty()) == Err::<(Seq<SFragment>, int), ParseErr>(x),
        },
{
    let mut acc: Vec<LFormatStringFragment<'a>> = Vec::new();
    let mut i = p;
    assert(fragments_view(acc@) =~= Seq::<SFragment>::empty());
    loop
        invariant
            cs@ == input@,
            p <= i <= cs@.len() < usize::MAX,
            sp_fragments(cs@, p as int, Seq::empty()) == sp_fragments(cs@, i as int, fragments_view(acc@)),
        decreases cs@.len() - i,
    {
        match fragment_at(input, cs, i) {
            Err(ParseErr::Error) => {
                return Ok((acc, i));
            },
            Err(ParseErr::Failure) => {
                return Err(ParseErr::Failure);
            },
            Ok((f, e)) => {
                if i < e {
                    let ghost before = acc@;
                    acc.push(f);
                    assert(fragments_view(acc@) =~= fragments_view(before).push(fragment_view(f)));
                    i = e;
                } else {
                    return Err(ParseErr::Error);
                }
            },
        }
    }
}

/// Reads an integer at the start of `input` (see `sp_number`); gives
/// the rest of the input and the value.
pub fn number<'a>(input: &'a str) -> (r: Result<(&'a str, LValue<'a>), ParseErr>)
    requires
        input@.len() < usize::MAX,
    ensures
        match r {
            Ok((rest, v)) => sp_number(input@, 0) matches Ok((g, q)) && g == lvalue_view(v)
                && 0 <= q <= input@.len() && rest@ == input@.subrange(q, input@.len() as int),
            Err(x) => sp_number(input@, 0) == Err::<(SValue, int), ParseErr>(x),
        },
{
    let cs = str_chars(input);
    match number_at(input, &cs, 0) {
        Ok((v, q)) => Ok((input.substring_char(q, cs.len()), v)),
        Err(x) => Err(x),
    }
}

/// Reads a quoted string or a string in apostrophes at the start of
/// `input` (see `sp_string`).
pub fn string<'a>(input: &'a str) -> (r: Result<(&'a str, LValue<'a>), ParseErr>)
    requires
        input@.len() < usize::MAX,
    ensures
        match r {
            Ok((rest, v)) => sp_string(input@, 0) matches Ok((g, q)) && g == lvalue_view(v)
                && 0 <= q <= input@.len() && rest@ == input@.subrange(q, input@.len() as int),
            Err(x) => sp_string(input@, 0) == Err::<(SValue, int), ParseErr>(x),
        },
{
    let cs = str_chars(input);
    match string_at(input, &cs, 0) {
        Ok((v, q)) => Ok((input.substring_char(q, cs.len()), v)),
        Err(x) => Err(x),
    }
}

/// Reads `true` or `false` at the start of `input`.
pub fn boolean<'a>(input: &'a str) -> (r: Result<(&'a str, LValue<'a>), ParseErr>)
    requires
        input@.len() < usize::MAX,
    ensures
        match r {
            Ok((rest, v)) => sp_boolean(input@, 0) matches Ok((g, q)) && g == lvalue_view(v)
                && 0 <= q <= input@.len() && rest@ == input@.subrange(q, input@.len() as int),
            Err(x) => sp_boolean(input@, 0) == Err::<(SValue, int), ParseErr>(x),
        },
{
    let cs = str_chars(input);
    match boolean_at(&cs, 0) {
        Ok((v, q)) => Ok((input.substring_char(q, cs.len()), v)),
        Err(x) => Err(x),
    }
}

/// Reads a literal at the start of `input` (see `sp_lvalue`).
pub fn lvalue<'a>(input: &'a str) -> (r: Result<(&'a str, LValue<'a>), ParseErr>)
    requires
        input@.len() < usize::MAX,
    ensures
        match r {
            Ok((rest, v)) => sp_lvalue(input@, 0) matches Ok((g, q)) && g == lvalue_view(v)
                && 0 <= q <= input@.len() && rest@ == input@.subrange(q, input@.len() as int),
            Err(x) => sp_lvalue(input@, 0) == Err::<(SValue, int), ParseErr>(x),
        },
{
    let cs = str_chars(input);
    match lvalue_at(input, &cs, 0) {
        Ok((v, q)) => Ok((input.substring_char(q, cs.len()), v)),
        Err(x) => Err(x),
    }
}

/// Reads a path segment at the start of `input`.
pub fn path_segment<'a>(input: &'a str) -> (r: Result<(&'a str, LPathSegment<'a>), ParseErr>)
    requires
        input@.len() < usize::MAX,
    ensures
        match r {
            Ok((rest, v)) => sp_path_segment(input@, 0) matches Ok((g, q)) && g == seg_view(v)
                && 0 <= q <= input@.len() && rest@ == input@.subrange(q, input@.len() as int),
            Err(x) => sp_path_segment(input@, 0) == Err::<(SPathSegment, int), ParseErr>(x),
        },
{
    let cs = str_chars(input);
    match path_segment_at(input, &cs, 0) {
        Ok((v, q)) => Ok((input.substring_char(q, cs.len()), v)),
        Err(x) => Err(x),
    }
}

/// Reads a path at the start of `input` (see `sp_epath`).
pub fn epath<'a>(input: &'a str) -> (r: Result<(&'a str, LExpression<'a>), ParseErr>)
    requires
        input@.len() < usize::MAX,
    ensures
        match r {
            Ok((rest, v)) => sp_epath(input@, 0) matches Ok((g, q)) && g == expr_view(v)
                && 0 <= q <= input@.len() && rest@ == input@.subrange(q, input@.len() as int),
            Err(x) => sp_epath(input@, 0) == Err::<(SExpr, int), ParseErr>(x),
        },
{
    let cs = str_chars(input);
    match epath_at(input, &cs, 0) {
        Ok((v, q)) => Ok((input.substring_char(q, cs.len()), v)),
        Err(x) => Err(x),
    }
}

/// Reads a file system path at the start of `input` (see
/// `sp_efs_path`).
pub fn efs_path<'a>(input: &'a str) -> (r: Result<(&'a str, LExpression<'a>), ParseErr>)
    requires
        input@.len() < usize::MAX,
    ensures
        match r {
            Ok((rest, v)) => sp_efs_path(input@, 0) matches Ok((g, q)) && g == expr_view(v)
                && 0 <= q <= input@.len() && rest@ == input@.subrange(q, input@.len() as int),
            Err(x) => sp_efs_path(input@, 0) == Err::<(SExpr, int), ParseErr>(x),
        },
{
    let cs = str_chars(input);
    match efs_path_at(input, &cs, 0) {
        Ok((v, q)) => Ok((input.substring_char(q, cs.len()), v)),
        Err(x) => Err(x),
    }
}

/// Reads a function call at the start of `input` (see
/// `sp_function_call`).
pub fn efunction_call<'a>(input: &'a str) -> (r: Result<(&'a str, LExpression<'a>), ParseErr>)
    requires
        input@.len() < usize::MAX,
    ensures
        match r {
            Ok((rest, v)) => sp_function_call(input@, 0) matches Ok((g, q)) && g == expr_view(v)
                && 0 <= q <= input@.len() && rest@ == input@.subrange(q, input@.len() as int),
            Err(x) => sp_function_call(input@, 0) == Err::<(SExpr, int), ParseErr>(x),
        },
{
    let cs = str_chars(input);
    match function_call_at(input, &cs, 0) {
        Ok((v, q)) => Ok((input.substring_char(q, cs.len()), v)),
        Err(x) => Err(x),
    }
}

/// Reads an expression in `${...}` at the start of `input` (see
/// `sp_lexpression`).
pub fn lexpression<'a>(input: &'a str) -> (r: Result<(&'a str, LExpression<'a>), ParseErr>)
    requires
        input@.len() < usize::MAX,
    ensures
        match r {
            Ok((rest, v)) => sp_lexpression(input@, 0) matches Ok((g, q)) && g == expr_view(v)
                && 0 <= q <= input@.len() && rest@ == input@.subrange(q, input@.len() as int),
            Err(x) => sp_lexpression(input@, 0) == Err::<(SExpr, int), ParseErr>(x),
        },
{
    let cs = str_chars(input);
    match lexpression_at(input, &cs, 0) {
        Ok((v, q)) => Ok((input.substring_char(q, cs.len()), v)),
        Err(x) => Err(x),
    }
}

/// Reads what may stand inside `${...}` at the start of `input` (see
/// `sp_inner`).
pub fn inner_expression<'a>(input: &'a str) -> (r: Result<(&'a str, LExpression<'a>), ParseErr>)
    requires
        input@.len() < usize::MAX,
    ensures
        match r {
            Ok((rest, v)) => sp_inner(input@, 0) matches Ok((g, q)) && g == expr_view(v)
                && 0 <= q <= input@.len() && rest@ == input@.subrange(q, input@.len() as int),
            Err(x) => sp_inner(input@, 0) == Err::<(SExpr, int), ParseErr>(x),
        },
{
    let cs = str_chars(input);
    match inner_at(input, &cs, 0) {
        Ok((v, q)) => Ok((input.substring_char(q, cs.len()), v)),
        Err(x) => Err(x),
    }
}

/// Reads a format string from the start of `input` (see
/// `sp_fragments`).
pub fn lformat_string<'a>(input: &'a str) -> (r: Result<(&'a str, LFormatString<'a>), ParseErr>)
    requires
        input@.len() < usize::MAX,
    ensures
        match r {
            Ok((rest, v)) => sp_fragments(input@, 0, Seq::empty()) matches Ok((g, q))
                && g == fragments_view(v.0@) && 0 <= q <= input@.len() && rest@ == input@.subrange(q, input@.len() as int),
            Err(x) => sp_fragments(input@, 0, Seq::empty()) == Err::<(Seq<SFragment>, int), ParseErr>(x),
        },
{
    let cs = str_chars(input);
    match fragments_at(input, &cs, 0) {
        Ok((v, q)) => Ok((input.substring_char(q, cs.len()), LFormatString(v))),
        Err(x) => Err(x),
    }
}

} // verus!
