//! Values that are computed when a configuration is loaded: texts written
//! as format strings, and whole value trees whose texts are expressions.

use vstd::prelude::*;
use crate::dynconf::eval::{
    dict_insert, tree_insert, eval_expression, eval_format, eval_format_string, eval_spec, get_by_path_spec, load_call, load_path_call,
    result_matches, EvalError, EvalFault, YamlFiles,
};
use crate::dynconf::grammar::{sp_fragments, sp_lexpression};
use crate::dynconf::parser::{expr_view, fragments_view};
use crate::dynconf::state::{global_or_null, lookup_global, ContentView, State, StateView};
use crate::dynconf::value::{
    dict_get, tree_keys, dict_view, items_view, lemma_dict_view, lemma_dict_view_push, lemma_items_view, lemma_items_view_push, DynTree,
    Value,
};
use crate::keyed::{find_entry, table_get, table_has, table_insert};
use crate::text::str_to_string;
use crate::dynconf::{eval_string, format_outcome, parse_expr, parse_string, DynError};

verus! {

/// The state seen inside a new innermost scope of `st`.
pub open spec fn scoped(st: StateView) -> StateView {
    StateView {
        scopes: st.scopes.push(ContentView { functions: Seq::empty(), global: None, current_dir: None }),
        home: st.home,
    }
}

/// Whether every text in a value is shorter than the largest `usize`.
pub open spec fn texts_fit(t: DynTree) -> bool
    decreases t,
{
    match t {
        DynTree::Text(s) => s.len() < usize::MAX,
        DynTree::Array(vs) => forall|i: int| 0 <= i < vs.len() ==> texts_fit(#[trigger] vs[i]),
        DynTree::Dict(es) => forall|i: int| 0 <= i < es.len() ==> texts_fit(#[trigger] es[i].1),
        _ => true,
    }
}

/// What a text found in a value evaluates to: the value of the text read
/// as a whole expression where it is one; else the text of the text read
/// as a whole format string where it is one; else the text itself.
/// Nothing where the outcome depends on a file that `load` reads.
pub open spec fn deep_text(s: Seq<char>, st: StateView) -> Option<Result<DynTree, EvalFault>> {
    let as_expr = sp_lexpression(s, 0);
    let as_format = sp_fragments(s, 0, Seq::empty());
    if as_expr is Ok && as_expr->Ok_0.1 == s.len() {
        eval_spec(as_expr->Ok_0.0, st)
    } else if as_format is Ok && as_format->Ok_0.1 == s.len() {
        let g = as_format->Ok_0.0;
        match eval_format(g, st, g.len() as int) {
            None => None,
            Some(Err(f)) => Some(Err(f)),
            Some(Ok(t)) => Some(Ok(DynTree::Text(t))),
        }
    } else {
        Some(Ok(DynTree::Text(s)))
    }
}

/// A value with each of its texts evaluated in a new scope of `st` (see
/// `deep_text`), lists item by item and dictionaries entry by entry, in
/// order; the first failure decides the error.
pub open spec fn deep_spec(t: DynTree, st: StateView) -> Option<Result<DynTree, EvalFault>>
    decreases t, 0int,
{
    match t {
        DynTree::Text(s) => deep_text(s, scoped(st)),
        DynTree::Array(vs) => match deep_items(vs, st, vs.len() as int) {
            None => None,
            Some(Err(f)) => Some(Err(f)),
            Some(Ok(out)) => Some(Ok(DynTree::Array(out))),
        },
        DynTree::Dict(es) => match deep_entries(es, st, es.len() as int) {
            None => None,
            Some(Err(f)) => Some(Err(f)),
            Some(Ok(out)) => Some(Ok(DynTree::Dict(out))),
        },
        _ => Some(Ok(t)),
    }
}

/// The first `n` items, each evaluated as `deep_spec` says.
pub open spec fn deep_items(vs: Seq<DynTree>, st: StateView, n: int) -> Option<Result<Seq<DynTree>, EvalFault>>
    decreases vs, n,
{
    if n <= 0 || n > vs.len() {
        Some(Ok(Seq::empty()))
    } else {
        match deep_items(vs, st, n - 1) {
            None => None,
            Some(Err(f)) => Some(Err(f)),
            Some(Ok(out)) => match deep_spec(vs[n - 1], st) {
                None => None,
                Some(Err(f)) => Some(Err(f)),
                Some(Ok(v)) => Some(Ok(out.push(v))),
            },
        }
    }
}

/// The first `n` entries, each value evaluated as `deep_spec` says, each
/// key kept.
pub open spec fn deep_entries(es: Seq<(Seq<char>, DynTree)>, st: StateView, n: int) -> Option<
    Result<Seq<(Seq<char>, DynTree)>, EvalFault>,
>
    decreases es, n,
{
    if n <= 0 || n > es.len() {
        Some(Ok(Seq::empty()))
    } else {
        match deep_entries(es, st, n - 1) {
            None => None,
            Some(Err(f)) => Some(Err(f)),
            Some(Ok(out)) => match deep_spec(es[n - 1].1, st) {
                None => None,
                Some(Err(f)) => Some(Err(f)),
                Some(Ok(v)) => Some(Ok(out.push((es[n - 1].0, v)))),
            },
        }
    }
}

/// Whether a value holds no text anywhere.
pub open spec fn textless(t: DynTree) -> bool
    decreases t,
{
    match t {
        DynTree::Text(_) => false,
        DynTree::Array(vs) => forall|i: int| 0 <= i < vs.len() ==> textless(#[trigger] vs[i]),
        DynTree::Dict(es) => forall|i: int| 0 <= i < es.len() ==> textless(#[trigger] es[i].1),
        _ => true,
    }
}

/// Evaluating the texts of a value that holds none gives the value back,
/// in any state.
pub proof fn lemma_deep_textless(t: DynTree, st: StateView)
    requires
        textless(t),
    ensures
        deep_spec(t, st) == Some(Ok::<DynTree, EvalFault>(t)),
    decreases t, 0int,
{
    match t {
        DynTree::Array(vs) => {
            lemma_deep_items_textless(vs, st, vs.len() as int);
            assert(vs.take(vs.len() as int) =~= vs);
        },
        DynTree::Dict(es) => {
            lemma_deep_entries_textless(es, st, es.len() as int);
            assert(es.take(es.len() as int) =~= es);
        },
        _ => {},
    }
}

proof fn lemma_deep_items_textless(vs: Seq<DynTree>, st: StateView, n: int)
    requires
        0 <= n <= vs.len(),
        forall|i: int| 0 <= i < vs.len() ==> textless(#[trigger] vs[i]),
    ensures
        deep_items(vs, st, n) == Some(Ok::<Seq<DynTree>, EvalFault>(vs.take(n))),
    decreases vs, n,
{
    if n > 0 {
        lemma_deep_items_textless(vs, st, n - 1);
        assert(decreases_to!(vs => vs[n - 1]));
        lemma_deep_textless(vs[n - 1], st);
        assert(vs.take(n) =~= vs.take(n - 1).push(vs[n - 1]));
    } else {
        assert(vs.take(0) =~= Seq::<DynTree>::empty());
    }
}

proof fn lemma_deep_entries_textless(es: Seq<(Seq<char>, DynTree)>, st: StateView, n: int)
    requires
        0 <= n <= es.len(),
        forall|i: int| 0 <= i < es.len() ==> textless(#[trigger] es[i].1),
    ensures
        deep_entries(es, st, n) == Some(Ok::<Seq<(Seq<char>, DynTree)>, EvalFault>(es.take(n))),
    decreases es, n,
{
    if n > 0 {
        lemma_deep_entries_textless(es, st, n - 1);
        assert(decreases_to!(es => es[n - 1]));
        assert(decreases_to!(es[n - 1] => es[n - 1].1));
        lemma_deep_textless(es[n - 1].1, st);
        assert(es.take(n) =~= es.take(n - 1).push((es[n - 1].0, es[n - 1].1)));
    } else {
        assert(es.take(0) =~= Seq::<(Seq<char>, DynTree)>::empty());
    }
}

proof fn lemma_items_prefix(vs: Seq<DynTree>, st: StateView, i: int, n: int)
    requires
        0 <= i <= n <= vs.len(),
        !(deep_items(vs, st, i) matches Some(Ok(_))),
    ensures
        deep_items(vs, st, n) == deep_items(vs, st, i),
    decreases n - i,
{
    if n > i {
        lemma_items_prefix(vs, st, i, n - 1);
    }
}

proof fn lemma_entries_prefix(es: Seq<(Seq<char>, DynTree)>, st: StateView, i: int, n: int)
    requires
        0 <= i <= n <= es.len(),
        !(deep_entries(es, st, i) matches Some(Ok(_))),
    ensures
        deep_entries(es, st, n) == deep_entries(es, st, i),
    decreases n - i,
{
    if n > i {
        lemma_entries_prefix(es, st, i, n - 1);
    }
}

/// Where a text found in a value is wholly an expression that reads a
/// file as `load_call` or `load_path_call` describe, in state `st`: what
/// evaluating it reads and gives, `files` being the reader after it.
pub open spec fn text_load_answered<Y: YamlFiles>(s: Seq<char>, st: StateView, files: Y, r: Result<Value, EvalError>) -> bool {
    match sp_lexpression(s, 0) {
        Ok((g, q)) => q == s.len() ==> {
            &&& load_call(g, st) matches Some((f, _)) ==> files.answered(f, r)
            &&& load_path_call(g, st) matches Some((f, _, keys)) ==> exists|a: Result<Value, EvalError>|
                #[trigger] files.answered(f, a) && match a {
                    Ok(v) => result_matches(r, get_by_path_spec(v@, keys)),
                    Err(e) => r == Err::<Value, EvalError>(e),
                }
        },
        Err(_) => true,
    }
}

/// Evaluates a text found in a value (see `deep_text`) in a new scope of
/// `state`.
fn deep_eval_text<Y: YamlFiles>(s: &String, state: &State, files: &mut Y) -> (r: Result<Value, EvalError>)
    requires
        s@.len() < usize::MAX,
    ensures
        deep_text(s@, scoped(state@)) matches Some(res) ==> result_matches(r, res),
        text_load_answered(s@, scoped(state@), *final(files), r),
{
    let mut scope = state.scope();
    assert(scope@ == scoped(state@));
    match parse_expr(s.as_str()) {
        Ok(expr) => eval_expression(&expr, &mut scope, files),
        Err(_) => match parse_string(s.as_str()) {
            Ok(f) => {
                proof {
                    assert(fragments_view(f.0@).len() == f.0@.len());
                }
                let out = eval_format_string(&f, &mut scope, files);
                proof {
                    if out is Ok {
                        assert(out->Ok_0 is String);
                    }
                }
                out
            },
            Err(_) => Ok(Value::String(s.clone())),
        },
    }
}

/// Evaluates every text in a value, each in a new scope of `state` (see
/// `deep_spec`); `load` reads files through `files`.
pub fn deep_eval<Y: YamlFiles>(value: &Value, state: &State, files: &mut Y) -> (r: Result<Value, EvalError>)
    requires
        texts_fit(value@),
    ensures
        deep_spec(value@, state@) matches Some(res) ==> result_matches(r, res),
        value@ matches DynTree::Text(s) ==> text_load_answered(s, scoped(state@), *final(files), r),
    decreases value, 1int,
{
    match value {
        Value::String(s) => deep_eval_text(s, state, files),
        Value::Array(vs) => {
            proof {
                lemma_items_view(vs@);
                assert forall|i: int| 0 <= i < vs@.len() implies texts_fit(#[trigger] vs@[i]@) by {
                    assert(items_view(vs@)[i] == vs@[i]@);
                }
            }
            match deep_eval_items(vs, state, files) {
                Ok(out) => Ok(Value::Array(out)),
                Err(e) => Err(e),
            }
        },
        Value::Dict(es) => {
            proof {
                lemma_dict_view(es@);
                assert forall|i: int| 0 <= i < es@.len() implies texts_fit(#[trigger] es@[i].1@) by {
                    assert(dict_view(es@)[i].1 == es@[i].1@);
                }
            }
            match deep_eval_entries(es, state, files) {
                Ok(out) => Ok(Value::Dict(out)),
                Err(e) => Err(e),
            }
        },
        Value::Boolean(b) => Ok(Value::Boolean(*b)),
        Value::Integer(i) => Ok(Value::Integer(*i)),
        Value::Null => Ok(Value::Null),
    }
}

fn deep_eval_items<Y: YamlFiles>(vs: &Vec<Value>, state: &State, files: &mut Y) -> (r: Result<Vec<Value>, EvalError>)
    requires
        forall|i: int| 0 <= i < vs@.len() ==> texts_fit(#[trigger] vs@[i]@),
    ensures
        deep_items(items_view(vs@), state@, vs@.len() as int) matches Some(res) ==> match res {
            Ok(t) => (r matches Ok(out) && items_view(out@) == t),
            Err(f) => (r matches Err(e) && e@ == f),
        },
    decreases vs, 0int,
{
    let ghost iv = items_view(vs@);
    proof {
        lemma_items_view(vs@);
    }
    let mut out: Vec<Value> = Vec::new();
    let mut i: usize = 0;
    assert(items_view(out@) =~= Seq::<DynTree>::empty());
    while i < vs.len()
        invariant
            i <= vs@.len(),
            iv == items_view(vs@),
            iv.len() == vs@.len(),
            forall|j: int| 0 <= j < vs@.len() ==> #[trigger] iv[j] == vs@[j]@,
            forall|j: int| 0 <= j < vs@.len() ==> texts_fit(#[trigger] vs@[j]@),
            match deep_items(iv, state@, i as int) {
                Some(Ok(t)) => items_view(out@) == t,
                Some(Err(_)) => false,
                None => true,
            },
        decreases vs.len() - i,
    {
        proof {
            assert(decreases_to!(*vs => vs[i as int]));
            assert(texts_fit(vs@[i as int]@));
        }
        match deep_eval(&vs[i], state, files) {
            Ok(v) => {
                let ghost before = out@;
                out.push(v);
                proof {
                    lemma_items_view_push(before, v);
                }
            },
            Err(x) => {
                proof {
                    if !(deep_items(iv, state@, i + 1) matches Some(Ok(_))) {
                        lemma_items_prefix(iv, state@, i + 1, iv.len() as int);
                    }
                }
                return Err(x);
            },
        }
        i = i + 1;
    }
    Ok(out)
}

fn deep_eval_entries<Y: YamlFiles>(es: &Vec<(String, Value)>, state: &State, files: &mut Y) -> (r: Result<
    Vec<(String, Value)>,
    EvalError,
>)
    requires
        forall|i: int| 0 <= i < es@.len() ==> texts_fit(#[trigger] es@[i].1@),
    ensures
        deep_entries(dict_view(es@), state@, es@.len() as int) matches Some(res) ==> match res {
            Ok(t) => (r matches Ok(out) && dict_view(out@) == t),
            Err(f) => (r matches Err(e) && e@ == f),
        },
    decreases es, 0int,
{
    let ghost dv = dict_view(es@);
    proof {
        lemma_dict_view(es@);
    }
    let mut out: Vec<(String, Value)> = Vec::new();
    let mut i: usize = 0;
    assert(dict_view(out@) =~= Seq::<(Seq<char>, DynTree)>::empty());
    while i < es.len()
        invariant
            i <= es@.len(),
            dv == dict_view(es@),
            dv.len() == es@.len(),
            forall|j: int| 0 <= j < es@.len() ==> #[trigger] dv[j] == (es@[j].0@, es@[j].1@),
            forall|j: int| 0 <= j < es@.len() ==> texts_fit(#[trigger] es@[j].1@),
            match deep_entries(dv, state@, i as int) {
                Some(Ok(t)) => dict_view(out@) == t,
                Some(Err(_)) => false,
                None => true,
            },
        decreases es.len() - i,
    {
        proof {
            assert(decreases_to!(*es => es[i as int]));
            assert(decreases_to!(es[i as int] => es[i as int].1));
            assert(texts_fit(es@[i as int].1@));
        }
        match deep_eval(&es[i].1, state, files) {
            Ok(v) => {
                let ghost before = out@;
                let k = es[i].0.clone();
                out.push((k, v));
                proof {
                    lemma_dict_view_push(before, (k, v));
                }
            },
            Err(x) => {
                proof {
                    if !(deep_entries(dv, state@, i + 1) matches Some(Ok(_))) {
                        lemma_entries_prefix(dv, state@, i + 1, dv.len() as int);
                    }
                }
                return Err(x);
            },
        }
        i = i + 1;
    }
    Ok(out)
}

/// Something that a configuration holds and that becomes its final value
/// once loaded in a state.
pub trait DynValue: Sized {
    /// What loading gives.
    type Target;

    /// Whether the value can be loaded: every text in it is shorter than
    /// the largest `usize`.
    spec fn loadable(&self) -> bool;

    /// Whether loading this value in state `before` may give `r` and leave
    /// state `after`; a kind of value that says nothing here may give
    /// anything.
    open spec fn loads_to(&self, before: StateView, after: StateView, r: Result<Self::Target, DynError>) -> bool {
        true
    }

    /// The loaded value; `load` reads files through `files`.
    fn load<Y: YamlFiles>(self, state: &mut State, files: &mut Y) -> (r: Result<Self::Target, DynError>)
        requires
            self.loadable(),
        ensures
            self.loads_to(old(state)@, final(state)@, r),
    ;
}

/// A text written as a format string, evaluated in a new scope when
/// loaded.
#[derive(Debug, Clone, PartialEq, Eq)]
pub struct DynString {
    pub value: String,
}

/// A file path written as a format string, evaluated in a new scope when
/// loaded.
#[derive(Debug, Clone, PartialEq, Eq)]
pub struct DynPath {
    pub value: String,
}

/// One item, or a list of them.
#[derive(Debug, Clone, PartialEq, Eq)]
pub enum OneOrMany<T> {
    Many(Vec<T>),
    One(T),
}

impl DynValue for DynString {
    type Target = String;

    open spec fn loadable(&self) -> bool {
        self.value@.len() < usize::MAX
    }

    open spec fn loads_to(&self, before: StateView, after: StateView, r: Result<String, DynError>) -> bool {
        after == before && format_outcome(self.value@, scoped(before), r)
    }

    fn load<Y: YamlFiles>(self, state: &mut State, files: &mut Y) -> (r: Result<String, DynError>)
        ensures
            final(state)@ == old(state)@,
            format_outcome(self.value@, scoped(old(state)@), r),
    {
        let mut scope = state.scope();
        eval_string(&mut scope, self.value.as_str(), files)
    }
}

impl DynValue for DynPath {
    type Target = String;

    open spec fn loadable(&self) -> bool {
        self.value@.len() < usize::MAX
    }

    open spec fn loads_to(&self, before: StateView, after: StateView, r: Result<String, DynError>) -> bool {
        after == before && format_outcome(self.value@, scoped(before), r)
    }

    fn load<Y: YamlFiles>(self, state: &mut State, files: &mut Y) -> (r: Result<String, DynError>)
        ensures
            final(state)@ == old(state)@,
            format_outcome(self.value@, scoped(old(state)@), r),
    {
        let mut scope = state.scope();
        eval_string(&mut scope, self.value.as_str(), files)
    }
}

impl DynValue for bool {
    type Target = bool;

    open spec fn loadable(&self) -> bool {
        true
    }

    open spec fn loads_to(&self, before: StateView, after: StateView, r: Result<bool, DynError>) -> bool {
        after == before && r == Ok::<bool, DynError>(*self)
    }

    fn load<Y: YamlFiles>(self, state: &mut State, files: &mut Y) -> (r: Result<bool, DynError>)
        ensures
            final(state)@ == old(state)@,
            r == Ok::<bool, DynError>(self),
    {
        Ok(self)
    }
}

impl<T: DynValue> DynValue for Option<T> {
    type Target = Option<T::Target>;

    open spec fn loadable(&self) -> bool {
        self matches Some(v) ==> v.loadable()
    }

    open spec fn loads_to(&self, before: StateView, after: StateView, r: Result<Option<T::Target>, DynError>) -> bool {
        match *self {
            None => after == before && r matches Ok(None),
            Some(v) => match r {
                Ok(Some(x)) => v.loads_to(before, after, Ok(x)),
                Ok(None) => false,
                Err(e) => v.loads_to(before, after, Err(e)),
            },
        }
    }

    fn load<Y: YamlFiles>(self, state: &mut State, files: &mut Y) -> (r: Result<Option<T::Target>, DynError>)
        ensures
            self is None ==> r matches Ok(None),
            self is Some ==> !(r matches Ok(None)),
    {
        match self {
            Some(v) => match v.load(state, files) {
                Ok(t) => Ok(Some(t)),
                Err(e) => Err(e),
            },
            None => Ok(None),
        }
    }
}

/// Whether the first `i` items load in turn, item `j` taking state
/// `sts[j]` to `sts[j + 1]` and giving `outs[j]`.
pub open spec fn run_loads<T: DynValue>(items: Seq<T>, sts: Seq<StateView>, outs: Seq<T::Target>, i: int) -> bool {
    &&& 0 <= i <= items.len()
    &&& sts.len() == i + 1
    &&& outs.len() == i
    &&& forall|j: int| #![trigger outs[j]] 0 <= j < i ==> items[j].loads_to(sts[j], sts[j + 1], Ok(outs[j]))
}

/// Whether all the items of a list load in turn, from state `before` to
/// state `after`, giving `outs`.
pub open spec fn list_ok<T: DynValue>(items: Seq<T>, before: StateView, after: StateView, outs: Seq<T::Target>) -> bool {
    exists|sts: Seq<StateView>|
        #[trigger] run_loads(items, sts, outs, items.len() as int) && sts[0] == before && sts.last() == after
}

/// Whether, from state `before`, the items of a list load in turn until
/// one fails with `e`, leaving state `after`.
pub open spec fn list_err<T: DynValue>(items: Seq<T>, before: StateView, after: StateView, e: DynError) -> bool {
    exists|i: int, sts: Seq<StateView>, outs: Seq<T::Target>|
        #[trigger] run_loads(items, sts, outs, i) && i < items.len() && sts[0] == before
            && items[i].loads_to(sts[i], after, Err(e))
}

/// What loading a list in state `before` gives, leaving state `after`:
/// every item loaded in turn, in order, or the error of the first item
/// that fails after all those before it loaded.
pub open spec fn list_loads_to<T: DynValue>(items: Seq<T>, before: StateView, after: StateView, r: Result<Seq<T::Target>, DynError>) -> bool {
    match r {
        Ok(out) => list_ok(items, before, after, out),
        Err(e) => list_err(items, before, after, e),
    }
}

proof fn lemma_list_ok<T: DynValue>(items: Seq<T>, sts: Seq<StateView>, outs: Seq<T::Target>, before: StateView, after: StateView)
    requires
        run_loads(items, sts, outs, items.len() as int),
        sts[0] == before,
        sts.last() == after,
    ensures
        list_ok(items, before, after, outs),
{
}

/// A result's values as a sequence.
pub open spec fn seq_result<X, E>(r: Result<Vec<X>, E>) -> Result<Seq<X>, E> {
    match r {
        Ok(v) => Ok(v@),
        Err(e) => Err(e),
    }
}

/// Loads the items of a list in order; the first failure decides the
/// error.
fn load_all<T: DynValue, Y: YamlFiles>(items: Vec<T>, state: &mut State, files: &mut Y) -> (r: Result<Vec<T::Target>, DynError>)
    requires
        forall|i: int| 0 <= i < items@.len() ==> (#[trigger] items@[i]).loadable(),
    ensures
        list_loads_to(items@, old(state)@, final(state)@, seq_result(r)),
        r matches Ok(out) ==> out@.len() == items@.len(),
        items@.len() == 0 ==> (r matches Ok(out) && out@.len() == 0) && final(state)@ == old(state)@,
{
    let ghost all = items@;
    let mut rest = items;
    let mut out: Vec<T::Target> = Vec::new();
    let ghost n = rest@.len();
    let ghost mut sts: Seq<StateView> = seq![state@];
    while rest.len() > 0
        invariant
            out@.len() + rest@.len() == n,
            n == items@.len(),
            all == items@,
            rest@ == all.subrange(out@.len() as int, n as int),
            n == 0 ==> state@ == old(state)@,
            forall|i: int| 0 <= i < all.len() ==> (#[trigger] all[i]).loadable(),
            run_loads(all, sts, out@, out@.len() as int),
            sts[0] == old(state)@,
            sts.last() == state@,
        decreases rest@.len(),
    {
        let ghost done = out@.len() as int;
        let v = rest.remove(0);
        assert(v == all[done]);
        assert(rest@ =~= all.subrange(done + 1, n as int));
        let ghost pre = state@;
        match v.load(state, files) {
            Ok(t) => {
                let ghost prev = out@;
                out.push(t);
                proof {
                    sts = sts.push(state@);
                    assert forall|j: int| #![trigger out@[j]] 0 <= j < done + 1 implies all[j].loads_to(sts[j], sts[j + 1], Ok(out@[j])) by {
                        if j < done {
                            assert(out@[j] == prev[j]);
                            assert(prev[j] == prev[j]);
                        }
                    }
                }
            },
            Err(e) => {
                proof {
                    assert(run_loads(all, sts, out@, done));
                    assert(list_err(all, old(state)@, state@, e));
                }
                return Err(e);
            },
        }
    }
    proof {
        lemma_list_ok(all, sts, out@, old(state)@, state@);
    }
    Ok(out)
}

impl<T: DynValue> DynValue for Vec<T> {
    type Target = Vec<T::Target>;

    open spec fn loadable(&self) -> bool {
        forall|i: int| 0 <= i < self@.len() ==> (#[trigger] self@[i]).loadable()
    }

    open spec fn loads_to(&self, before: StateView, after: StateView, r: Result<Vec<T::Target>, DynError>) -> bool {
        list_loads_to(self@, before, after, seq_result(r))
    }

    fn load<Y: YamlFiles>(self, state: &mut State, files: &mut Y) -> (r: Result<Vec<T::Target>, DynError>)
        ensures
            r matches Ok(out) ==> out@.len() == self@.len(),
            self@.len() == 0 ==> (r matches Ok(out) && out@.len() == 0) && final(state)@ == old(state)@,
    {
        load_all(self, state, files)
    }
}

impl<T: DynValue> DynValue for OneOrMany<T> {
    type Target = Vec<T::Target>;

    open spec fn loadable(&self) -> bool {
        match self {
            OneOrMany::One(v) => v.loadable(),
            OneOrMany::Many(vs) => forall|i: int| 0 <= i < vs@.len() ==> (#[trigger] vs@[i]).loadable(),
        }
    }

    open spec fn loads_to(&self, before: StateView, after: StateView, r: Result<Vec<T::Target>, DynError>) -> bool {
        match *self {
            OneOrMany::One(v) => match r {
                Ok(out) => out@.len() == 1 && v.loads_to(before, after, Ok(out@[0])),
                Err(e) => v.loads_to(before, after, Err(e)),
            },
            OneOrMany::Many(vs) => list_loads_to(vs@, before, after, seq_result(r)),
        }
    }

    fn load<Y: YamlFiles>(self, state: &mut State, files: &mut Y) -> (r: Result<Vec<T::Target>, DynError>)
        ensures
            r matches Ok(out) ==> out@.len() == match self {
                OneOrMany::One(_) => 1,
                OneOrMany::Many(vs) => vs@.len(),
            },
            self matches OneOrMany::Many(vs) && vs@.len() == 0 ==> (r matches Ok(out) && out@.len() == 0)
                && final(state)@ == old(state)@,
    {
        match self {
            OneOrMany::One(v) => match v.load(state, files) {
                Ok(t) => {
                    let mut out: Vec<T::Target> = Vec::new();
                    out.push(t);
                    Ok(out)
                },
                Err(e) => Err(e),
            },
            OneOrMany::Many(vs) => load_all(vs, state, files),
        }
    }
}

/// The global value with `_id` set to `id`: a dictionary gets the entry,
/// nothing becomes a dictionary of only that entry, and any other value
/// stays as it is.
pub open spec fn with_id(g: DynTree, id: DynTree) -> DynTree {
    match g {
        DynTree::Null => DynTree::Dict(seq![("_id"@, id)]),
        DynTree::Dict(es) => DynTree::Dict(tree_insert(es, "_id"@, id)),
        _ => g,
    }
}

/// The global value with `_id` set back to `id` where it is a
/// dictionary; any other value stays as it is.
pub open spec fn with_id_restored(g: DynTree, id: DynTree) -> DynTree {
    match g {
        DynTree::Dict(es) => DynTree::Dict(tree_insert(es, "_id"@, id)),
        _ => g,
    }
}

fn set_id(g: Value, id: Value) -> (r: Value)
    ensures
        r@ == with_id(g@, id@),
{
    proof {
        reveal_strlit("_id");
    }
    match g {
        Value::Null => {
            let mut es: Vec<(String, Value)> = Vec::new();
            let k = str_to_string("_id");
            es.push((k, id));
            proof {
                lemma_dict_view(es@);
                assert(dict_view(es@) =~= seq![("_id"@, id@)]);
            }
            Value::Dict(es)
        },
        Value::Dict(es) => {
            let mut es = es;
            dict_insert(&mut es, str_to_string("_id"), id);
            Value::Dict(es)
        },
        other => other,
    }
}

fn restore_id(g: Value, id: Value) -> (r: Value)
    ensures
        r@ == with_id_restored(g@, id@),
{
    proof {
        reveal_strlit("_id");
    }
    match g {
        Value::Dict(es) => {
            let mut es = es;
            dict_insert(&mut es, str_to_string("_id"), id);
            Value::Dict(es)
        },
        other => other,
    }
}

/// The `_id` entry of the global value seen from the innermost scope,
/// where that value is a dictionary holding one.
fn current_id(state: &State) -> (r: Option<Value>)
    ensures
        match lookup_global(state@.scopes) {
            Some(DynTree::Dict(es)) => match dict_get(es, "_id"@) {
                Some(t) => (r matches Some(v) && v@ == t),
                None => r is None,
            },
            _ => r is None,
        },
{
    match state.get_global() {
        Some(Value::Dict(es)) => {
            proof {
                reveal_strlit("_id");
            }
            proof {
                lemma_dict_view(es@);
                assert(tree_keys(dict_view(es@)) =~= crate::keyed::keys_of(es@));
            }
            match find_entry(es, "_id") {
                Some(j) => Some(es[j].1.deep_clone()),
                None => None,
            }
        },
        _ => None,
    }
}

/// The state `after` is `before` with the global value of its innermost
/// scope replaced by `g` (what `State::mutate_global` does when its
/// function succeeds with `g`).
pub open spec fn global_set(before: StateView, after: StateView, g: DynTree) -> bool {
    &&& after.home == before.home
    &&& after.scopes.len() == before.scopes.len()
    &&& after.scopes.drop_last() == before.scopes.drop_last()
    &&& after.scopes.last().functions == before.scopes.last().functions
    &&& after.scopes.last().current_dir == before.scopes.last().current_dir
    &&& after.scopes.last().global == Some(g)
}

/// The `_id` entry of the global value seen from the innermost scope of
/// `st`, where that value is a dictionary holding one.
pub open spec fn current_id_of(st: StateView) -> Option<DynTree> {
    match lookup_global(st.scopes) {
        Some(DynTree::Dict(es)) => dict_get(es, "_id"@),
        _ => None,
    }
}

/// The state in which entry `key` of a table is loaded, out of the state
/// `st` before it: the global value gets `_id` set to the key.
pub open spec fn id_set(st: StateView, pre: StateView, key: Seq<char>) -> bool {
    global_set(st, pre, with_id(global_or_null(st.scopes), DynTree::Text(key)))
}

/// Whether the first `i` entries of a table load in turn: entry `j` is
/// loaded in state `pres[j]`, which is `sts[j]` with `_id` set to its key,
/// leaves state `sts[j + 1]` and gives `outs[j]`.
pub open spec fn run_entries<T: DynValue>(
    items: Seq<(String, T)>,
    sts: Seq<StateView>,
    pres: Seq<StateView>,
    outs: Seq<T::Target>,
    i: int,
) -> bool {
    &&& 0 <= i <= items.len()
    &&& sts.len() == i + 1
    &&& pres.len() == i
    &&& outs.len() == i
    &&& forall|j: int| #![trigger pres[j]] 0 <= j < i ==> id_set(sts[j], pres[j], items[j].0@)
        && items[j].1.loads_to(pres[j], sts[j + 1], Ok(outs[j]))
}

/// The table that the loaded values make, each under its entry's key in
/// order (a later entry of a key replaces an earlier one).
pub open spec fn loaded_table<T: DynValue>(items: Seq<(String, T)>, outs: Seq<T::Target>) -> Map<Seq<char>, T::Target>
    decreases outs.len(),
{
    if outs.len() == 0 {
        Map::empty()
    } else {
        loaded_table(items, outs.drop_last()).insert(items[outs.len() - 1].0@, outs.last())
    }
}

/// A table of values as a map from key to the value of its first entry.
pub open spec fn table_map<X>(es: Seq<(String, X)>) -> Map<Seq<char>, X> {
    Map::new(|k: Seq<char>| table_get(es, k) is Some, |k: Seq<char>| table_get(es, k)->0)
}

/// The state after the table is loaded from state `last`: the `_id` seen
/// before loading, if any, is set back.
pub open spec fn id_restored(last: StateView, after: StateView, prev: Option<DynTree>) -> bool {
    match prev {
        Some(p) => global_set(last, after, with_id_restored(global_or_null(last.scopes), p)),
        None => after == last,
    }
}

/// Whether every entry of a table loads in turn from state `before`
/// (see `run_entries`), the `_id` seen before is then set back, leaving
/// state `after`, and the loaded values make the table `out`.
pub open spec fn table_ok<T: DynValue>(items: Seq<(String, T)>, before: StateView, after: StateView, out: Map<Seq<char>, T::Target>) -> bool {
    exists|sts: Seq<StateView>, pres: Seq<StateView>, outs: Seq<T::Target>|
        #[trigger] run_entries(items, sts, pres, outs, items.len() as int) && sts[0] == before
            && id_restored(sts.last(), after, current_id_of(before)) && out == loaded_table(items, outs)
}

/// Whether, from state `before`, the entries of a table load in turn
/// until one fails with `e`, leaving state `after`.
pub open spec fn table_err<T: DynValue>(items: Seq<(String, T)>, before: StateView, after: StateView, e: DynError) -> bool {
    exists|i: int, sts: Seq<StateView>, pres: Seq<StateView>, outs: Seq<T::Target>|
        #[trigger] run_entries(items, sts, pres, outs, i) && i < items.len() && sts[0] == before
            && exists|pre: StateView| #[trigger] id_set(sts[i], pre, items[i].0@) && items[i].1.loads_to(pre, after, Err(e))
}

proof fn lemma_table_ok<T: DynValue>(
    items: Seq<(String, T)>,
    sts: Seq<StateView>,
    pres: Seq<StateView>,
    outs: Seq<T::Target>,
    before: StateView,
    after: StateView,
)
    requires
        run_entries(items, sts, pres, outs, items.len() as int),
        sts[0] == before,
        id_restored(sts.last(), after, current_id_of(before)),
    ensures
        table_ok(items, before, after, loaded_table(items, outs)),
{
}

proof fn lemma_table_err<T: DynValue>(
    items: Seq<(String, T)>,
    sts: Seq<StateView>,
    pres: Seq<StateView>,
    outs: Seq<T::Target>,
    i: int,
    pre: StateView,
    before: StateView,
    after: StateView,
    e: DynError,
)
    requires
        run_entries(items, sts, pres, outs, i),
        i < items.len(),
        sts[0] == before,
        id_set(sts[i], pre, items[i].0@),
        items[i].1.loads_to(pre, after, Err(e)),
    ensures
        table_err(items, before, after, e),
{
}

/// A table of values by key is loaded entry by entry, in order: while an
/// entry loads, the global value's `_id` is its key (a missing global
/// value becomes a dictionary holding only `_id`). The `_id` seen before
/// is set back afterwards when there was one. The first failure decides
/// the error; the `_id` of the failing entry then stays.
impl<T: DynValue> DynValue for Vec<(String, T)> {
    type Target = Vec<(String, T::Target)>;

    open spec fn loadable(&self) -> bool {
        forall|i: int| 0 <= i < self@.len() ==> (#[trigger] self@[i]).1.loadable()
    }

    open spec fn loads_to(&self, before: StateView, after: StateView, r: Result<Vec<(String, T::Target)>, DynError>) -> bool {
        match r {
            Ok(out) => table_ok(self@, before, after, table_map(out@)),
            Err(e) => table_err(self@, before, after, e),
        }
    }

    fn load<Y: YamlFiles>(self, state: &mut State, files: &mut Y) -> (r: Result<Vec<(String, T::Target)>, DynError>)
        ensures
            r matches Ok(out) ==> forall|k: Seq<char>| #[trigger] table_has(out@, k) == table_has(self@, k),
            self@.len() == 0 ==> (r matches Ok(out) && out@.len() == 0),
    {
        let ghost start = state@;
        let prev_id = current_id(state);
        let mut rest = self;
        let ghost all = rest@;
        let ghost n = rest@.len();
        let ghost mut sts: Seq<StateView> = seq![state@];
        let ghost mut pres: Seq<StateView> = Seq::empty();
        let ghost mut outs: Seq<T::Target> = Seq::empty();
        let mut res: Vec<(String, T::Target)> = Vec::new();
        proof {
            assert(table_map(res@) =~= loaded_table(all, outs));
        }
        while rest.len() > 0
            invariant
                n == all.len(),
                rest@.len() <= n,
                rest@ == all.subrange(n - rest@.len(), n as int),
                n == self@.len(),
                all == self@,
                n == 0 ==> res@.len() == 0,
                start == old(state)@,
                forall|i: int| 0 <= i < all.len() ==> (#[trigger] all[i]).1.loadable(),
                forall|k: Seq<char>| #[trigger] table_has(res@, k) == table_has(all.take(n - rest@.len()), k),
                run_entries(all, sts, pres, outs, n - rest@.len()),
                sts[0] == start,
                sts.last() == state@,
                table_map(res@) == loaded_table(all, outs),
            decreases rest@.len(),
        {
            let ghost done = n - rest@.len();
            let ghost before = rest@;
            let ghost st_i = state@;
            let (key, value) = rest.remove(0);
            assert(before[0] == all[done]);
            assert(rest@ =~= all.subrange(n - rest@.len(), n as int));
            let id = Value::String(key.clone());
            let set = state.mutate_global(move |g: Value| -> (r: Result<Value, DynError>)
                ensures
                    r matches Ok(x) && x@ == with_id(g@, id@),
                { Ok(set_id(g, id)) });
            match set {
                Ok(()) => {},
                Err(e) => {
                    return Err(e);
                },
            }
            let ghost pre = state@;
            assert(id_set(st_i, pre, all[done].0@));
            match value.load(state, files) {
                Ok(t) => {
                    let ghost prior = res@;
                    let ghost tv = t;
                    table_insert(&mut res, key, t);
                    proof {
                        assert(all.take(done + 1) =~= all.take(done).push(all[done]));
                        assert forall|k: Seq<char>| #[trigger] table_has(res@, k) == table_has(all.take(done + 1), k) by {
                            crate::keyed::lemma_key_index_push(crate::keyed::keys_of(all.take(done)), all[done].0@, k);
                            crate::keyed::lemma_keys_of_push(all.take(done), all[done]);
                            crate::keyed::lemma_key_index(crate::keyed::keys_of(all.take(done)), k);
                            crate::keyed::lemma_key_index(crate::keyed::keys_of(all.take(done + 1)), k);
                        }
                        let ghost ppres = pres;
                        let ghost pouts = outs;
                        sts = sts.push(state@);
                        pres = pres.push(pre);
                        outs = outs.push(tv);
                        assert forall|j: int| #![trigger pres[j]] 0 <= j < done + 1 implies id_set(sts[j], pres[j], all[j].0@)
                            && all[j].1.loads_to(pres[j], sts[j + 1], Ok(outs[j])) by {
                            if j < done {
                                assert(outs[j] == pouts[j]);
                                assert(ppres[j] == ppres[j]);
                            }
                        }
                        assert(run_entries(all, sts, pres, outs, done + 1));
                        assert(outs.drop_last() =~= pouts);
                        assert(table_map(res@) =~= table_map(prior).insert(all[done].0@, tv));
                        assert(table_map(res@) =~= loaded_table(all, outs));
                    }
                },
                Err(e) => {
                    proof {
                        lemma_table_err(all, sts, pres, outs, done, pre, start, state@, e);
                    }
                    return Err(e);
                },
            }
        }
        assert(all.take(n as int) =~= all);
        let ghost last = state@;
        match prev_id {
            Some(p) => {
                let back = state.mutate_global(move |g: Value| -> (r: Result<Value, DynError>)
                    ensures
                        r matches Ok(x) && x@ == with_id_restored(g@, p@),
                    { Ok(restore_id(g, p)) });
                match back {
                    Ok(()) => {},
                    Err(e) => {
                        return Err(e);
                    },
                }
            },
            None => {},
        }
        proof {
            assert(id_restored(last, state@, current_id_of(start)));
            lemma_table_ok(all, sts, pres, outs, start, state@);
        }
        Ok(res)
    }
}

} // verus!
