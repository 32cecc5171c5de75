//! Evaluating parsed expressions and format strings in a state.
//!
//! The value of an expression is stated by `eval_spec`, except where it
//! depends on a YAML file that `load` reads: there `eval_spec` gives
//! nothing, and only the shape of the state is promised.

use vstd::prelude::*;
use crate::dynconf::grammar::{LFsPathType, SExpr, SFragment, SFsSegment, SPathSegment, SScope, SValue};
use crate::dynconf::parser::{
    expr_view, exprs_view, fragment_view, fragments_view, fs_seg_view, fs_segs_view, lvalue_view,
    seg_view, segs_view, LExpression, LFormatString, LFormatStringFragment, LFsPathSegment,
    LPathSegment, LValue, PathScope, lemma_exprs_view, lemma_fs_segs_view, lemma_segs_view,
};
use crate::dynconf::state::{lookup_dir, lookup_function, lookup_global, Builtin, ContentView, State, StateView};
use crate::dynconf::value::{
    dict_get, dict_view, dyn_view, items_view, lemma_dict_view, lemma_dict_view_push,
    lemma_items_view_push, tree_keys, tree_text, tree_type, DynTree, Value, ValueError, ValueType,
};
use crate::keyed::{find_entry, key_index, keys_of, lemma_key_index};
use crate::text::str_to_string;

verus! {

#[verifier::external_type_specification]
#[verifier::external_body]
pub struct ExUnescapeError(snailquote::UnescapeError);

/// The text a shell-quoted string stands for, if it is well formed.
pub uninterp spec fn shell_unescaped(s: Seq<char>) -> Option<Seq<char>>;

/// Calls `snailquote::unescape`, which reads a string written with
/// shell quoting and escapes; its result is named `shell_unescaped`.
#[verifier::external_body]
fn snail_unescape(s: &str) -> (r: Result<String, snailquote::UnescapeError>)
    ensures
        match r {
            Ok(t) => shell_unescaped(s@) == Some(t@),
            Err(_) => shell_unescaped(s@) is None,
        },
{
    snailquote::unescape(s)
}

/// The directory a path is in, if it has one.
pub uninterp spec fn path_parent(p: Seq<char>) -> Option<Seq<char>>;

/// Calls `std::path::Path::parent`, which gives the path without its
/// last component (none for a root or an empty path); its result is
/// named `path_parent`.
#[verifier::external_body]
fn parent_dir(p: &str) -> (r: Option<String>)
    ensures
        match r {
            Some(d) => path_parent(p@) == Some(d@),
            None => path_parent(p@) is None,
        },
{
    std::path::Path::new(p).parent().map(|d| d.to_string_lossy().to_string())
}

/// Why an expression could not be evaluated.
#[derive(Debug, Clone, PartialEq, Eq)]
pub enum EvalError {
    /// A quoted string is not well formed.
    Unescape(String),
    /// A path segment computed a value that is not a string.
    KeyNotString(ValueType),
    /// A path starts at the global value, which is not set.
    GlobalNotSet,
    /// A path goes into a value that is not a dictionary.
    NotAnObject(ValueType),
    /// A path goes through a key that is not there.
    NoKey(String),
    /// A value has no text.
    Value(ValueError),
    /// A relative file path with no current directory.
    CurrentDirNotSet,
    /// A file path from the home directory, which is not known.
    HomeNotSet,
    /// A call of a function that is not registered.
    NoSuchFunction(String),
    /// `dict` called with an odd number of arguments.
    OddArguments,
    /// `load` called with other than one argument.
    LoadArguments,
    /// `load` called with a path that has no directory.
    NoParent(String),
    /// Reading a file for `load` failed.
    Load(String),
}

/// Why an expression could not be evaluated, as plain values.
pub enum EvalFault {
    Unescape(Seq<char>),
    KeyNotString(ValueType),
    GlobalNotSet,
    NotAnObject(ValueType),
    NoKey(Seq<char>),
    Value(ValueError),
    CurrentDirNotSet,
    HomeNotSet,
    NoSuchFunction(Seq<char>),
    OddArguments,
    LoadArguments,
    NoParent(Seq<char>),
    Load,
}

impl View for EvalError {
    type V = EvalFault;

    open spec fn view(&self) -> EvalFault {
        match self {
            EvalError::Unescape(s) => EvalFault::Unescape(s@),
            EvalError::KeyNotString(t) => EvalFault::KeyNotString(*t),
            EvalError::GlobalNotSet => EvalFault::GlobalNotSet,
            EvalError::NotAnObject(t) => EvalFault::NotAnObject(*t),
            EvalError::NoKey(k) => EvalFault::NoKey(k@),
            EvalError::Value(e) => EvalFault::Value(*e),
            EvalError::CurrentDirNotSet => EvalFault::CurrentDirNotSet,
            EvalError::HomeNotSet => EvalFault::HomeNotSet,
            EvalError::NoSuchFunction(n) => EvalFault::NoSuchFunction(n@),
            EvalError::OddArguments => EvalFault::OddArguments,
            EvalError::LoadArguments => EvalFault::LoadArguments,
            EvalError::NoParent(p) => EvalFault::NoParent(p@),
            EvalError::Load(_) => EvalFault::Load,
        }
    }
}

/// Reads the YAML files that `load` asks for.
pub trait YamlFiles {
    /// Whether these files, having just been asked for the file at `path`,
    /// answered `r`; a reader that says nothing here may answer anything.
    open spec fn answered(&self, path: Seq<char>, r: Result<Value, EvalError>) -> bool {
        true
    }

    /// The value of the YAML file at `path`.
    fn load_yaml(&mut self, path: &str) -> (r: Result<Value, EvalError>)
        ensures
            final(self).answered(path@, r),
    ;
}

/// The state `st` with the current directory of its innermost scope set
/// to `d`.
pub open spec fn with_current_dir(st: StateView, d: Seq<char>) -> StateView {
    StateView {
        scopes: st.scopes.update(st.scopes.len() - 1, ContentView { current_dir: Some(d), ..st.scopes.last() }),
        home: st.home,
    }
}

/// Where `x` is a call of `load` whose single argument evaluates in `st`
/// without reading a file to the text of a path `f` that has a parent
/// directory `d`: the pair `(f, d)`. Evaluating such a call sets the
/// current directory to `d` and reads file `f`.
pub open spec fn load_call(x: SExpr, st: StateView) -> Option<(Seq<char>, Seq<char>)> {
    match x {
        SExpr::FunctionCall(name, args) => if lookup_function(st.scopes, name) == Some(Builtin::LoadYaml) && args.len() == 1 {
            match eval_spec(args[0], st) {
                Some(Ok(v)) => match tree_text(v) {
                    Ok(f) => match path_parent(f) {
                        Some(d) => Some((f, d)),
                        None => None,
                    },
                    Err(_) => None,
                },
                _ => None,
            }
        } else {
            None
        },
        _ => None,
    }
}

/// `base` with a path pushed onto it, as `PathBuf::push` does on Unix:
/// an absolute path replaces it; otherwise a separator goes between them
/// unless `base` is empty or ends in one.
pub open spec fn push_spec(base: Seq<char>, p: Seq<char>) -> Seq<char> {
    if p.len() > 0 && p[0] == '/' {
        p
    } else if base.len() > 0 && base.last() != '/' {
        base + seq!['/'] + p
    } else {
        base + p
    }
}

/// Paths pushed one by one onto an empty path.
pub open spec fn collect_spec(parts: Seq<Seq<char>>) -> Seq<char>
    decreases parts.len(),
{
    if parts.len() == 0 {
        Seq::empty()
    } else {
        push_spec(collect_spec(parts.drop_last()), parts.last())
    }
}

/// The value of a literal: a quoted string stands for its unescaped
/// text.
pub open spec fn value_spec(v: SValue) -> Result<DynTree, EvalFault> {
    match v {
        SValue::String(s) => match shell_unescaped(s) {
            Some(t) => Ok(DynTree::Text(t)),
            None => Err(EvalFault::Unescape(s)),
        },
        SValue::QuoteString(s) => Ok(DynTree::Text(s)),
        SValue::Integer(i) => Ok(DynTree::Integer(i)),
        SValue::Boolean(b) => Ok(DynTree::Boolean(b)),
        SValue::Null => Ok(DynTree::Null),
    }
}

/// The value at a path of keys into a value.
pub open spec fn get_by_path_spec(v: DynTree, keys: Seq<Seq<char>>) -> Result<DynTree, EvalFault>
    decreases keys.len(),
{
    if keys.len() == 0 {
        Ok(v)
    } else {
        match v {
            DynTree::Dict(es) => match dict_get(es, keys[0]) {
                Some(c) => get_by_path_spec(c, keys.drop_first()),
                None => Err(EvalFault::NoKey(keys[0])),
            },
            _ => Err(EvalFault::NotAnObject(tree_type(v))),
        }
    }
}

/// Dictionary entries with `key` written to `v`: the first entry of the
/// key is replaced, or an entry is appended.
pub open spec fn tree_insert(es: Seq<(Seq<char>, DynTree)>, key: Seq<char>, v: DynTree) -> Seq<(Seq<char>, DynTree)> {
    let i = key_index(tree_keys(es), key);
    if i >= 0 {
        es.update(i, (key, v))
    } else {
        es.push((key, v))
    }
}

/// The value of an expression in a state, or nothing when it depends on
/// a file that `load` reads.
pub open spec fn eval_spec(e: SExpr, st: StateView) -> Option<Result<DynTree, EvalFault>>
    decreases e, 0int,
{
    match e {
        SExpr::Value(v) => Some(value_spec(v)),
        SExpr::Path(segs, scope) => match eval_keys(segs, st, segs.len() as int) {
            None => None,
            Some(Err(f)) => Some(Err(f)),
            Some(Ok(keys)) => match *scope {
                SScope::Global => match lookup_global(st.scopes) {
                    None => Some(Err(EvalFault::GlobalNotSet)),
                    Some(g) => Some(get_by_path_spec(g, keys)),
                },
                SScope::Expression(b) => match eval_spec(*b, st) {
                    None => None,
                    Some(Err(f)) => Some(Err(f)),
                    Some(Ok(v)) => Some(get_by_path_spec(v, keys)),
                },
            },
        },
        SExpr::FsPath(segs, t) => match eval_fs(segs, st, segs.len() as int) {
            None => None,
            Some(Err(f)) => Some(Err(f)),
            Some(Ok(parts)) => {
                let rel = collect_spec(parts);
                match t {
                    LFsPathType::Absolute => Some(Ok(DynTree::Text(rel))),
                    LFsPathType::Relative => match lookup_dir(st.scopes) {
                        None => Some(Err(EvalFault::CurrentDirNotSet)),
                        Some(d) => Some(Ok(DynTree::Text(push_spec(d, rel)))),
                    },
                    LFsPathType::FromHome => match st.home {
                        None => Some(Err(EvalFault::HomeNotSet)),
                        Some(h) => Some(Ok(DynTree::Text(push_spec(h, rel)))),
                    },
                }
            },
        },
        SExpr::FunctionCall(name, args) => match lookup_function(st.scopes, name) {
            None => Some(Err(EvalFault::NoSuchFunction(name))),
            Some(Builtin::List) => match eval_list(args, st, args.len() as int) {
                None => None,
                Some(Err(f)) => Some(Err(f)),
                Some(Ok(vs)) => Some(Ok(DynTree::Array(vs))),
            },
            Some(Builtin::Dict) => if args.len() % 2 != 0 {
                Some(Err(EvalFault::OddArguments))
            } else {
                match eval_pairs(args, st, (args.len() / 2) as int, Seq::empty()) {
                    None => None,
                    Some(Err(f)) => Some(Err(f)),
                    Some(Ok(es)) => Some(Ok(DynTree::Dict(es))),
                }
            },
            Some(Builtin::LoadYaml) => if args.len() != 1 {
                Some(Err(EvalFault::LoadArguments))
            } else {
                match eval_spec(args[0], st) {
                    None => None,
                    Some(Err(f)) => Some(Err(f)),
                    Some(Ok(v)) => match tree_text(v) {
                        Err(ve) => Some(Err(EvalFault::Value(ve))),
                        Ok(f) => match path_parent(f) {
                            None => Some(Err(EvalFault::NoParent(f))),
                            Some(_) => None,
                        },
                    },
                }
            },
        },
    }
}

/// Where `x` is a path whose keys evaluate in `st` without reading a file
/// and whose scope is a call of `load` as `load_call` describes: the file,
/// its directory and the keys. Evaluating such a path sets the current
/// directory to the file's, reads the file, and reads the keys in what it
/// gave.
pub open spec fn load_path_call(x: SExpr, st: StateView) -> Option<(Seq<char>, Seq<char>, Seq<Seq<char>>)> {
    match x {
        SExpr::Path(segs, scope) => match eval_keys(segs, st, segs.len() as int) {
            Some(Ok(keys)) => match *scope {
                SScope::Expression(b) => match load_call(*b, st) {
                    Some((f, d)) => Some((f, d, keys)),
                    None => None,
                },
                _ => None,
            },
            _ => None,
        },
        _ => None,
    }
}

/// The keys of the first `n` path segments, evaluated in order; a
/// segment's expression must give a string.
pub open spec fn eval_keys(segs: Seq<SPathSegment>, st: StateView, n: int) -> Option<Result<Seq<Seq<char>>, EvalFault>>
    decreases segs, n,
{
    if n <= 0 || n > segs.len() {
        Some(Ok(Seq::empty()))
    } else {
        match eval_keys(segs, st, n - 1) {
            None => None,
            Some(Err(f)) => Some(Err(f)),
            Some(Ok(keys)) => match segs[n - 1] {
                SPathSegment::String(s) => Some(Ok(keys.push(s))),
                SPathSegment::Expression(e) => match eval_spec(e, st) {
                    None => None,
                    Some(Err(f)) => Some(Err(f)),
                    Some(Ok(DynTree::Text(k))) => Some(Ok(keys.push(k))),
                    Some(Ok(v)) => Some(Err(EvalFault::KeyNotString(tree_type(v)))),
                },
            },
        }
    }
}

/// The texts of the first `n` file path segments, evaluated in order.
pub open spec fn eval_fs(segs: Seq<SFsSegment>, st: StateView, n: int) -> Option<Result<Seq<Seq<char>>, EvalFault>>
    decreases segs, n,
{
    if n <= 0 || n > segs.len() {
        Some(Ok(Seq::empty()))
    } else {
        match eval_fs(segs, st, n - 1) {
            None => None,
            Some(Err(f)) => Some(Err(f)),
            Some(Ok(parts)) => match segs[n - 1] {
                SFsSegment::String(s) => Some(Ok(parts.push(s))),
                SFsSegment::Expression(e) => match eval_spec(e, st) {
                    None => None,
                    Some(Err(f)) => Some(Err(f)),
                    Some(Ok(v)) => match tree_text(v) {
                        Ok(t) => Some(Ok(parts.push(t))),
                        Err(ve) => Some(Err(EvalFault::Value(ve))),
                    },
                },
            },
        }
    }
}

/// The values of the first `n` arguments, evaluated in order.
pub open spec fn eval_list(args: Seq<SExpr>, st: StateView, n: int) -> Option<Result<Seq<DynTree>, EvalFault>>
    decreases args, n,
{
    if n <= 0 || n > args.len() {
        Some(Ok(Seq::empty()))
    } else {
        match eval_list(args, st, n - 1) {
            None => None,
            Some(Err(f)) => Some(Err(f)),
            Some(Ok(vs)) => match eval_spec(args[n - 1], st) {
                None => None,
                Some(Err(f)) => Some(Err(f)),
                Some(Ok(v)) => Some(Ok(vs.push(v))),
            },
        }
    }
}

/// The pairs of arguments below pair `m`, from the last to the first,
/// written into `acc`: each key is evaluated and made text, then its
/// value is evaluated.
pub open spec fn eval_pairs(args: Seq<SExpr>, st: StateView, m: int, acc: Seq<(Seq<char>, DynTree)>) -> Option<
    Result<Seq<(Seq<char>, DynTree)>, EvalFault>,
>
    decreases args, m,
{
    if m <= 0 || 2 * m > args.len() {
        Some(Ok(acc))
    } else {
        match eval_spec(args[2 * m - 2], st) {
            None => None,
            Some(Err(f)) => Some(Err(f)),
            Some(Ok(kv)) => match tree_text(kv) {
                Err(ve) => Some(Err(EvalFault::Value(ve))),
                Ok(key) => match eval_spec(args[2 * m - 1], st) {
                    None => None,
                    Some(Err(f)) => Some(Err(f)),
                    Some(Ok(v)) => eval_pairs(args, st, m - 1, tree_insert(acc, key, v)),
                },
            },
        }
    }
}

/// The text of a format string: its raw pieces, and the texts of its
/// expressions' values, in order.
pub open spec fn eval_format(frags: Seq<SFragment>, st: StateView, n: int) -> Option<Result<Seq<char>, EvalFault>>
    decreases n,
{
    if n <= 0 || n > frags.len() {
        Some(Ok(Seq::empty()))
    } else {
        match eval_format(frags, st, n - 1) {
            None => None,
            Some(Err(f)) => Some(Err(f)),
            Some(Ok(t)) => match frags[n - 1] {
                SFragment::Raw(s) => Some(Ok(t + s)),
                SFragment::Expression(e) => match eval_spec(e, st) {
                    None => None,
                    Some(Err(f)) => Some(Err(f)),
                    Some(Ok(v)) => match tree_text(v) {
                        Ok(s) => Some(Ok(t + s)),
                        Err(ve) => Some(Err(EvalFault::Value(ve))),
                    },
                },
            },
        }
    }
}


/// Whether an evaluation result is the one stated.
pub open spec fn result_matches(r: Result<Value, EvalError>, res: Result<DynTree, EvalFault>) -> bool {
    match res {
        Ok(t) => r matches Ok(v) && v@ == t,
        Err(f) => r matches Err(e) && e@ == f,
    }
}

/// The shape of a state that evaluation keeps: its number of scopes and
/// its home directory.
pub open spec fn same_shape(a: StateView, b: StateView) -> bool {
    a.scopes.len() == b.scopes.len() && a.home == b.home
}

/// The texts of a list of strings.
pub open spec fn texts_of(v: Seq<String>) -> Seq<Seq<char>> {
    v.map_values(|s: String| s@)
}

proof fn lemma_keys_prefix(segs: Seq<SPathSegment>, st: StateView, i: int, n: int)
    requires
        0 <= i <= n <= segs.len(),
        !(eval_keys(segs, st, i) matches Some(Ok(_))),
    ensures
        eval_keys(segs, st, n) == eval_keys(segs, st, i),
    decreases n - i,
{
    if n > i {
        lemma_keys_prefix(segs, st, i, n - 1);
    }
}

proof fn lemma_fs_prefix(segs: Seq<SFsSegment>, st: StateView, i: int, n: int)
    requires
        0 <= i <= n <= segs.len(),
        !(eval_fs(segs, st, i) matches Some(Ok(_))),
    ensures
        eval_fs(segs, st, n) == eval_fs(segs, st, i),
    decreases n - i,
{
    if n > i {
        lemma_fs_prefix(segs, st, i, n - 1);
    }
}

proof fn lemma_list_prefix(args: Seq<SExpr>, st: StateView, i: int, n: int)
    requires
        0 <= i <= n <= args.len(),
        !(eval_list(args, st, i) matches Some(Ok(_))),
    ensures
        eval_list(args, st, n) == eval_list(args, st, i),
    decreases n - i,
{
    if n > i {
        lemma_list_prefix(args, st, i, n - 1);
    }
}

proof fn lemma_format_prefix(frags: Seq<SFragment>, st: StateView, i: int, n: int)
    requires
        0 <= i <= n <= frags.len(),
        !(eval_format(frags, st, i) matches Some(Ok(_))),
    ensures
        eval_format(frags, st, n) == eval_format(frags, st, i),
    decreases n - i,
{
    if n > i {
        lemma_format_prefix(frags, st, i, n - 1);
    }
}

/// The value of a literal (see `value_spec`).
pub fn eval_value(v: &LValue) -> (r: Result<Value, EvalError>)
    ensures
        result_matches(r, value_spec(lvalue_view(*v))),
{
    match v {
        LValue::String(s) => match snail_unescape(s) {
            Ok(t) => Ok(Value::String(t)),
            Err(_) => Err(EvalError::Unescape(str_to_string(s))),
        },
        LValue::QuoteString(s) => Ok(Value::String(str_to_string(s))),
        LValue::Integer(i) => Ok(Value::Integer(*i)),
        LValue::Boolean(b) => Ok(Value::Boolean(*b)),
        LValue::Null => Ok(Value::Null),
    }
}

/// The value at a path of keys into a value (see `get_by_path_spec`).
pub fn get_by_path(scope: &Value, path: &Vec<String>) -> (r: Result<Value, EvalError>)
    ensures
        result_matches(r, get_by_path_spec(scope@, texts_of(path@))),
{
    let mut cur: &Value = scope;
    let ghost keys = texts_of(path@);
    let mut i: usize = 0;
    assert(keys.skip(0) =~= keys);
    while i < path.len()
        invariant
            i <= path@.len(),
            keys == texts_of(path@),
            get_by_path_spec(scope@, keys) == get_by_path_spec(cur@, keys.skip(i as int)),
        decreases path.len() - i,
    {
        proof {
            assert(keys.skip(i as int)[0] == path@[i as int]@);
            assert(keys.skip(i as int).drop_first() =~= keys.skip(i + 1));
        }
        match cur {
            Value::Dict(es) => {
                proof {
                    lemma_dict_view(es@);
                    assert(tree_keys(dict_view(es@)) =~= keys_of(es@));
                    lemma_key_index(keys_of(es@), path@[i as int]@);
                }
                match find_entry(es, path[i].as_str()) {
                    Some(j) => {
                        cur = &es[j].1;
                    },
                    None => {
                        return Err(EvalError::NoKey(path[i].clone()));
                    },
                }
            },
            _ => {
                return Err(EvalError::NotAnObject(cur.typename()));
            },
        }
        i = i + 1;
    }
    assert(keys.skip(path@.len() as int) =~= Seq::<Seq<char>>::empty());
    Ok(cur.deep_clone())
}

fn text_of(v: Value) -> (r: Result<String, EvalError>)
    ensures
        match tree_text(v@) {
            Ok(t) => r matches Ok(s) && s@ == t,
            Err(ve) => r matches Err(e) && e@ == EvalFault::Value(ve),
        },
{
    match v.try_to_string() {
        Ok(s) => Ok(s),
        Err(ve) => Err(EvalError::Value(ve)),
    }
}

pub(crate) fn push_path(base: &mut String, p: &str)
    ensures
        final(base)@ == push_spec(old(base)@, p@),
{
    let n = p.unicode_len();
    if n > 0 && p.get_char(0) == '/' {
        *base = str_to_string(p);
    } else {
        let m = base.as_str().unicode_len();
        if m > 0 && base.as_str().get_char(m - 1) != '/' {
            crate::text::string_push(base, '/');
        }
        base.append(p);
    }
}

fn eval_keys_exec<Y: YamlFiles>(segs: &Vec<LPathSegment>, state: &mut State, files: &mut Y) -> (r: Result<Vec<String>, EvalError>)
    ensures
        same_shape(old(state)@, final(state)@),
        eval_keys(segs_view(segs@), old(state)@, segs@.len() as int) matches Some(res) ==> final(state)@ == old(state)@
            && match res {
                Ok(ks) => r matches Ok(out) && texts_of(out@) == ks,
                Err(f) => r matches Err(e) && e@ == f,
            },
    decreases segs, 1int,
{
    let ghost st0 = state@;
    let ghost sv = segs_view(segs@);
    proof {
        lemma_segs_view(segs@);
    }
    let mut out: Vec<String> = Vec::new();
    let mut i: usize = 0;
    assert(texts_of(out@) =~= Seq::<Seq<char>>::empty());
    while i < segs.len()
        invariant
            i <= segs@.len(),
            sv == segs_view(segs@),
            sv.len() == segs@.len(),
            forall|j: int| 0 <= j < segs@.len() ==> #[trigger] sv[j] == seg_view(segs@[j]),
            st0 == old(state)@,
            same_shape(st0, state@),
            match eval_keys(sv, st0, i as int) {
                Some(Ok(ks)) => state@ == st0 && texts_of(out@) == ks,
                Some(Err(_)) => false,
                None => true,
            },
        decreases segs.len() - i,
    {
        proof {
            assert(decreases_to!(*segs => segs[i as int]));
        }
        let step: Result<String, EvalError> = match &segs[i] {
            LPathSegment::String(s) => Ok(str_to_string(s)),
            LPathSegment::Expression(e) => {
                proof {
                    assert(decreases_to!(segs[i as int] => *e));
                }
                match eval_expression(e, state, files) {
                    Ok(Value::String(k)) => Ok(k),
                    Ok(v) => Err(EvalError::KeyNotString(v.typename())),
                    Err(x) => Err(x),
                }
            },
        };
        match step {
            Ok(k) => {
                let ghost before = out@;
                out.push(k);
                assert(texts_of(out@) =~= texts_of(before).push(k@));
            },
            Err(x) => {
                proof {
                    if !(eval_keys(sv, st0, i + 1) matches Some(Ok(_))) {
                        lemma_keys_prefix(sv, st0, i + 1, sv.len() as int);
                    }
                }
                return Err(x);
            },
        }
        i = i + 1;
    }
    Ok(out)
}

fn eval_fs_exec<Y: YamlFiles>(segs: &Vec<LFsPathSegment>, state: &mut State, files: &mut Y) -> (r: Result<Vec<String>, EvalError>)
    ensures
        same_shape(old(state)@, final(state)@),
        eval_fs(fs_segs_view(segs@), old(state)@, segs@.len() as int) matches Some(res) ==> final(state)@ == old(state)@
            && match res {
                Ok(ps) => r matches Ok(out) && texts_of(out@) == ps,
                Err(f) => r matches Err(e) && e@ == f,
            },
    decreases segs, 1int,
{
    let ghost st0 = state@;
    let ghost sv = fs_segs_view(segs@);
    proof {
        lemma_fs_segs_view(segs@);
    }
    let mut out: Vec<String> = Vec::new();
    let mut i: usize = 0;
    assert(texts_of(out@) =~= Seq::<Seq<char>>::empty());
    while i < segs.len()
        invariant
            i <= segs@.len(),
            sv == fs_segs_view(segs@),
            sv.len() == segs@.len(),
            forall|j: int| 0 <= j < segs@.len() ==> #[trigger] sv[j] == fs_seg_view(segs@[j]),
            st0 == old(state)@,
            same_shape(st0, state@),
            match eval_fs(sv, st0, i as int) {
                Some(Ok(ps)) => state@ == st0 && texts_of(out@) == ps,
                Some(Err(_)) => false,
                None => true,
            },
        decreases segs.len() - i,
    {
        proof {
            assert(decreases_to!(*segs => segs[i as int]));
        }
        let step: Result<String, EvalError> = match &segs[i] {
            LFsPathSegment::String(s) => Ok(str_to_string(s)),
            LFsPathSegment::Expression(e) => {
                proof {
                    assert(decreases_to!(segs[i as int] => *e));
                }
                match eval_expression(e, state, files) {
                    Ok(v) => text_of(v),
                    Err(x) => Err(x),
                }
            },
        };
        match step {
            Ok(k) => {
                let ghost before = out@;
                out.push(k);
                assert(texts_of(out@) =~= texts_of(before).push(k@));
            },
            Err(x) => {
                proof {
                    if !(eval_fs(sv, st0, i + 1) matches Some(Ok(_))) {
                        lemma_fs_prefix(sv, st0, i + 1, sv.len() as int);
                    }
                }
                return Err(x);
            },
        }
        i = i + 1;
    }
    Ok(out)
}

fn eval_list_exec<Y: YamlFiles>(args: &Vec<LExpression>, state: &mut State, files: &mut Y) -> (r: Result<Vec<Value>, EvalError>)
    ensures
        same_shape(old(state)@, final(state)@),
        eval_list(exprs_view(args@), old(state)@, args@.len() as int) matches Some(res) ==> final(state)@ == old(state)@
            && match res {
                Ok(vs) => r matches Ok(out) && items_view(out@) == vs,
                Err(f) => r matches Err(e) && e@ == f,
            },
    decreases args, 1int,
{
    let ghost st0 = state@;
    let ghost av = exprs_view(args@);
    proof {
        lemma_exprs_view(args@);
    }
    let mut out: Vec<Value> = Vec::new();
    let mut i: usize = 0;
    assert(items_view(out@) =~= Seq::<DynTree>::empty());
    while i < args.len()
        invariant
            i <= args@.len(),
            av == exprs_view(args@),
            av.len() == args@.len(),
            forall|j: int| 0 <= j < args@.len() ==> #[trigger] av[j] == expr_view(args@[j]),
            st0 == old(state)@,
            same_shape(st0, state@),
            match eval_list(av, st0, i as int) {
                Some(Ok(vs)) => state@ == st0 && items_view(out@) == vs,
                Some(Err(_)) => false,
                None => true,
            },
        decreases args.len() - i,
    {
        proof {
            assert(decreases_to!(*args => args[i as int]));
        }
        match eval_expression(&args[i], state, files) {
            Ok(v) => {
                let ghost before = out@;
                out.push(v);
                proof {
                    lemma_items_view_push(before, v);
                }
            },
            Err(x) => {
                proof {
                    if !(eval_list(av, st0, i + 1) matches Some(Ok(_))) {
                        lemma_list_prefix(av, st0, i + 1, av.len() as int);
                    }
                }
                return Err(x);
            },
        }
        i = i + 1;
    }
    Ok(out)
}

pub(crate) fn dict_insert(es: &mut Vec<(String, Value)>, k: String, v: Value)
    ensures
        dict_view(final(es)@) == tree_insert(dict_view(old(es)@), k@, v@),
{
    proof {
        lemma_dict_view(es@);
        assert(tree_keys(dict_view(es@)) =~= keys_of(es@));
    }
    match find_entry(es, k.as_str()) {
        Some(j) => {
            let ghost before = es@;
            es.set(j, (k, v));
            proof {
                lemma_dict_view(es@);
                assert(dict_view(es@) =~= dict_view(before).update(j as int, (k@, v@)));
            }
        },
        None => {
            let ghost before = es@;
            es.push((k, v));
            proof {
                lemma_dict_view_push(before, (k, v));
            }
        },
    }
}

fn eval_pairs_exec<Y: YamlFiles>(args: &Vec<LExpression>, state: &mut State, files: &mut Y) -> (r: Result<Vec<(String, Value)>, EvalError>)
    ensures
        same_shape(old(state)@, final(state)@),
        eval_pairs(exprs_view(args@), old(state)@, (args@.len() / 2) as int, Seq::empty()) matches Some(res)
            ==> final(state)@ == old(state)@ && match res {
                Ok(es) => r matches Ok(out) && dict_view(out@) == es,
                Err(f) => r matches Err(e) && e@ == f,
            },
    decreases args, 1int,
{
    let ghost st0 = state@;
    let ghost av = exprs_view(args@);
    proof {
        lemma_exprs_view(args@);
    }
    let mut out: Vec<(String, Value)> = Vec::new();
    let n = args.len();
    let mut m: usize = args.len() / 2;
    assert(dict_view(out@) =~= Seq::<(Seq<char>, DynTree)>::empty());
    while m > 0
        invariant
            n == args@.len(),
            m <= args@.len() / 2,
            av == exprs_view(args@),
            av.len() == args@.len(),
            forall|j: int| 0 <= j < args@.len() ==> #[trigger] av[j] == expr_view(args@[j]),
            st0 == old(state)@,
            same_shape(st0, state@),
            eval_pairs(av, st0, (args@.len() / 2) as int, Seq::empty()) matches Some(_) ==> state@ == st0
                && eval_pairs(av, st0, (args@.len() / 2) as int, Seq::empty()) == eval_pairs(av, st0, m as int, dict_view(out@)),
        decreases m,
    {
        proof {
            assert(decreases_to!(*args => args[2 * m - 2]));
            assert(decreases_to!(*args => args[2 * m - 1]));
        }
        let kv = match eval_expression(&args[2 * m - 2], state, files) {
            Ok(kv) => kv,
            Err(x) => { return Err(x); },
        };
        let key = match text_of(kv) {
            Ok(k) => k,
            Err(x) => { return Err(x); },
        };
        let v = match eval_expression(&args[2 * m - 1], state, files) {
            Ok(v) => v,
            Err(x) => { return Err(x); },
        };
        dict_insert(&mut out, key, v);
        m = m - 1;
    }
    Ok(out)
}

/// The value of an expression in a state (see `eval_spec`). Evaluation
/// keeps the number of scopes and the home directory; where the value
/// is stated, the state is left as it was.
pub fn eval_expression<Y: YamlFiles>(e: &LExpression, state: &mut State, files: &mut Y) -> (r: Result<Value, EvalError>)
    ensures
        same_shape(old(state)@, final(state)@),
        eval_spec(expr_view(*e), old(state)@) matches Some(res) ==> final(state)@ == old(state)@ && result_matches(r, res),
        load_call(expr_view(*e), old(state)@) matches Some((f, d)) ==> final(state)@ == with_current_dir(old(state)@, d)
            && final(files).answered(f, r),
        load_path_call(expr_view(*e), old(state)@) matches Some((f, d, keys)) ==> final(state)@ == with_current_dir(
            old(state)@,
            d,
        ) && exists|a: Result<Value, EvalError>| #[trigger] final(files).answered(f, a) && match a {
            Ok(v) => result_matches(r, get_by_path_spec(v@, keys)),
            Err(e) => r == Err::<Value, EvalError>(e),
        },
    decreases e, 0int,
{
    match e {
        LExpression::Value(v) => eval_value(v),
        LExpression::Path(segs, scope) => {
            proof {
                lemma_segs_view(segs@);
            }
            let ghost st0 = state@;
            let keys = match eval_keys_exec(segs, state, files) {
                Ok(k) => k,
                Err(x) => { return Err(x); },
            };
            match &**scope {
                PathScope::Global => match state.get_global() {
                    None => Err(EvalError::GlobalNotSet),
                    Some(g) => get_by_path(g, &keys),
                },
                PathScope::Expression(inner) => {
                    let out = eval_expression(inner, state, files);
                    let ghost answer = out;
                    proof {
                        if let Some((f, d, ks)) = load_path_call(expr_view(*e), st0) {
                            assert(state@ == with_current_dir(st0, d));
                            assert(files.answered(f, answer));
                            assert(ks == texts_of(keys@));
                        }
                    }
                    let v = match out {
                        Ok(v) => v,
                        Err(x) => { return Err(x); },
                    };
                    let res = get_by_path(&v, &keys);
                    proof {
                        assert(answer == Ok::<Value, EvalError>(v));
                    }
                    res
                },
            }
        },
        LExpression::FsPath(segs, t) => {
            proof {
                lemma_fs_segs_view(segs@);
            }
            let parts = match eval_fs_exec(segs, state, files) {
                Ok(p) => p,
                Err(x) => { return Err(x); },
            };
            let mut rel = String::new();
            let mut i: usize = 0;
            assert(texts_of(parts@).take(0) =~= Seq::<Seq<char>>::empty());
            while i < parts.len()
                invariant
                    i <= parts@.len(),
                    rel@ == collect_spec(texts_of(parts@).take(i as int)),
                decreases parts.len() - i,
            {
                proof {
                    let ps = texts_of(parts@);
                    assert(ps.take(i + 1).drop_last() =~= ps.take(i as int));
                    assert(ps.take(i + 1).last() == parts@[i as int]@);
                }
                push_path(&mut rel, parts[i].as_str());
                i = i + 1;
            }
            assert(texts_of(parts@).take(parts@.len() as int) =~= texts_of(parts@));
            match t {
                LFsPathType::Absolute => Ok(Value::String(rel)),
                LFsPathType::Relative => match state.get_current_dir() {
                    None => Err(EvalError::CurrentDirNotSet),
                    Some(d) => {
                        let mut p = d;
                        push_path(&mut p, rel.as_str());
                        Ok(Value::String(p))
                    },
                },
                LFsPathType::FromHome => match state.get_home() {
                    None => Err(EvalError::HomeNotSet),
                    Some(h) => {
                        let mut p = h;
                        push_path(&mut p, rel.as_str());
                        Ok(Value::String(p))
                    },
                },
            }
        },
        LExpression::FunctionCall(name, args) => {
            proof {
                lemma_exprs_view(args@);
            }
            let function = state.get_function(name);
            match function {
                None => Err(EvalError::NoSuchFunction(str_to_string(name))),
                Some(Builtin::List) => match eval_list_exec(args, state, files) {
                    Ok(vs) => Ok(Value::Array(vs)),
                    Err(x) => Err(x),
                },
                Some(Builtin::Dict) => {
                    if args.len() % 2 != 0 {
                        return Err(EvalError::OddArguments);
                    }
                    match eval_pairs_exec(args, state, files) {
                        Ok(es) => Ok(Value::Dict(es)),
                        Err(x) => Err(x),
                    }
                },
                Some(Builtin::LoadYaml) => {
                    if args.len() != 1 {
                        return Err(EvalError::LoadArguments);
                    }
                    proof {
                        lemma_exprs_view(args@);
                        assert(decreases_to!(*args => args[0]));
                    }
                    let v = match eval_expression(&args[0], state, files) {
                        Ok(v) => v,
                        Err(x) => { return Err(x); },
                    };
                    let filename = match text_of(v) {
                        Ok(f) => f,
                        Err(x) => { return Err(x); },
                    };
                    let dir = match parent_dir(filename.as_str()) {
                        Some(d) => d,
                        None => { return Err(EvalError::NoParent(filename)); },
                    };
                    state.set_current_dir(dir);
                    files.load_yaml(filename.as_str())
                },
            }
        },
    }
}

/// The text of a format string in a state (see `eval_format`); where
/// the text is stated, the state is left as it was.
pub fn eval_format_string<Y: YamlFiles>(f: &LFormatString, state: &mut State, files: &mut Y) -> (r: Result<Value, EvalError>)
    ensures
        same_shape(old(state)@, final(state)@),
        r matches Ok(v) ==> v is String,
        eval_format(fragments_view(f.0@), old(state)@, f.0@.len() as int) matches Some(res)
            ==> final(state)@ == old(state)@ && match res {
                Ok(t) => r matches Ok(Value::String(s)) && s@ == t,
                Err(fl) => r matches Err(e) && e@ == fl,
            },
{
    let ghost st0 = state@;
    let ghost fv = fragments_view(f.0@);
    let mut res = String::new();
    let mut i: usize = 0;
    while i < f.0.len()
        invariant
            i <= f.0@.len(),
            fv == fragments_view(f.0@),
            st0 == old(state)@,
            same_shape(st0, state@),
            match eval_format(fv, st0, i as int) {
                Some(Ok(t)) => state@ == st0 && res@ == t,
                Some(Err(_)) => false,
                None => true,
            },
        decreases f.0.len() - i,
    {
        assert(fv[i as int] == fragment_view(f.0@[i as int]));
        let step: Result<String, EvalError> = match &f.0[i] {
            LFormatStringFragment::Raw(s) => Ok(str_to_string(s)),
            LFormatStringFragment::Expression(e) => match eval_expression(e, state, files) {
                Ok(v) => text_of(v),
                Err(x) => Err(x),
            },
        };
        match step {
            Ok(t) => {
                res.append(t.as_str());
            },
            Err(x) => {
                proof {
                    if !(eval_format(fv, st0, i + 1) matches Some(Ok(_))) {
                        lemma_format_prefix(fv, st0, i + 1, fv.len() as int);
                    }
                }
                return Err(x);
            },
        }
        i = i + 1;
    }
    Ok(Value::String(res))
}


/// Something that evaluates to a value in a state.
pub trait Evaluate {
    /// The value, reading files through `files` for `load`.
    fn eval<Y: YamlFiles>(self, state: &mut State, files: &mut Y) -> Result<Value, EvalError>;
}

impl<'a> Evaluate for LValue<'a> {
    fn eval<Y: YamlFiles>(self, state: &mut State, files: &mut Y) -> (r: Result<Value, EvalError>)
        ensures
            final(state)@ == old(state)@,
            result_matches(r, value_spec(lvalue_view(self))),
    {
        eval_value(&self)
    }
}

impl<'a> Evaluate for LExpression<'a> {
    fn eval<Y: YamlFiles>(self, state: &mut State, files: &mut Y) -> (r: Result<Value, EvalError>)
        ensures
            same_shape(old(state)@, final(state)@),
            eval_spec(expr_view(self), old(state)@) matches Some(res) ==> final(state)@ == old(state)@ && result_matches(r, res),
    {
        eval_expression(&self, state, files)
    }
}

impl<'a> Evaluate for LFormatString<'a> {
    fn eval<Y: YamlFiles>(self, state: &mut State, files: &mut Y) -> (r: Result<Value, EvalError>)
        ensures
            same_shape(old(state)@, final(state)@),
            eval_format(fragments_view(self.0@), old(state)@, self.0@.len() as int) matches Some(res)
                ==> final(state)@ == old(state)@ && match res {
                    Ok(t) => r matches Ok(Value::String(s)) && s@ == t,
                    Err(fl) => r matches Err(e) && e@ == fl,
                },
    {
        eval_format_string(&self, state, files)
    }
}

} // verus!
