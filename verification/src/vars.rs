//! Variables: a tree of values addressed by paths, and `${...}`
//! substitution of those values into text.

use vstd::prelude::*;
use crate::text::{
    bool_text, bool_to_string, int_decimal, int_to_string, parse_unsigned, parse_unsigned_spec,
    str_chars, str_to_string, string_from_chars, string_push, IntParseError,
};

verus! {

/// Why a text could not be substituted.
#[derive(Debug)]
pub enum SubstitutionError {
    /// A `${` without its `}`, or a `[` without its `]`.
    MissingClosingBracket,
    /// Looking up a variable failed.
    VarsError(VarsError),
    /// An index between `[` and `]` is not a number.
    ParseIndexError(IntParseError),
}

/// Why a variable could not be read or written.
#[derive(Debug)]
pub enum VarsError {
    NotAnObject { key: String },
    NoSuchKey { key: String },
    OutOfBounds { index: usize },
    NotAList { index: usize },
    NotAString,
    NotABool,
    InvalidSet,
    SetIndex,
    AppendKey,
    InvalidMerge(String, String),
    GetCustomVarNotImplemented,
}

/// A variable: an object (keys in insertion order, the first entry of a
/// key being the one that counts), a list, or a scalar.
#[derive(Debug)]
pub enum Value {
    Object(Vec<(String, Value)>),
    List(Vec<Value>),
    String(String),
    Bool(bool),
    Integer(i64),
    Null,
}

/// One step of a path: an object key or a list index.
#[derive(Debug, Clone)]
pub enum PathItem {
    Key(String),
    Index(usize),
}

/// A path into a variable tree.
#[derive(Debug, Clone)]
pub struct Path {
    pub items: Vec<PathItem>,
}

/// Model of a path step.
pub enum Step {
    Key(Seq<char>),
    Index(usize),
}

impl View for PathItem {
    type V = Step;

    open spec fn view(&self) -> Step {
        match self {
            PathItem::Key(k) => Step::Key(k@),
            PathItem::Index(i) => Step::Index(*i),
        }
    }
}

/// Model of a sequence of path items.
pub open spec fn steps_view(items: Seq<PathItem>) -> Seq<Step> {
    items.map_values(|it: PathItem| it@)
}

impl View for Path {
    type V = Seq<Step>;

    open spec fn view(&self) -> Seq<Step> {
        steps_view(self.items@)
    }
}

/// Model of a `VarsError`.
pub enum VarsFault {
    NotAnObject(Seq<char>),
    NoSuchKey(Seq<char>),
    OutOfBounds(usize),
    NotAList(usize),
    NotAString,
    NotABool,
    InvalidSet,
    SetIndex,
    AppendKey,
    InvalidMerge(Seq<char>, Seq<char>),
    GetCustomVarNotImplemented,
}

impl View for VarsError {
    type V = VarsFault;

    open spec fn view(&self) -> VarsFault {
        match self {
            VarsError::NotAnObject { key } => VarsFault::NotAnObject(key@),
            VarsError::NoSuchKey { key } => VarsFault::NoSuchKey(key@),
            VarsError::OutOfBounds { index } => VarsFault::OutOfBounds(*index),
            VarsError::NotAList { index } => VarsFault::NotAList(*index),
            VarsError::NotAString => VarsFault::NotAString,
            VarsError::NotABool => VarsFault::NotABool,
            VarsError::InvalidSet => VarsFault::InvalidSet,
            VarsError::SetIndex => VarsFault::SetIndex,
            VarsError::AppendKey => VarsFault::AppendKey,
            VarsError::InvalidMerge(a, b) => VarsFault::InvalidMerge(a@, b@),
            VarsError::GetCustomVarNotImplemented => VarsFault::GetCustomVarNotImplemented,
        }
    }
}

/// Model of a `SubstitutionError`.
pub enum SubstFault {
    MissingClosingBracket,
    Vars(VarsFault),
    ParseIndex(IntParseError),
}

impl View for SubstitutionError {
    type V = SubstFault;

    open spec fn view(&self) -> SubstFault {
        match self {
            SubstitutionError::MissingClosingBracket => SubstFault::MissingClosingBracket,
            SubstitutionError::VarsError(e) => SubstFault::Vars(e@),
            SubstitutionError::ParseIndexError(e) => SubstFault::ParseIndex(*e),
        }
    }
}

/// The mathematical model of a `Value`: strings as character sequences,
/// objects as sequences of (key, value) entries.
pub enum VarTree {
    Object(Seq<(Seq<char>, VarTree)>),
    List(Seq<VarTree>),
    Text(Seq<char>),
    Bool(bool),
    Integer(i64),
    Null,
}

/// Model of the entries of an object.
pub open spec fn entries_view(es: Seq<(String, Value)>) -> Seq<(Seq<char>, VarTree)>
    decreases es,
{
    if es.len() == 0 {
        Seq::empty()
    } else {
        seq![(es[0].0@, value_view(es[0].1))] + entries_view(es.drop_first())
    }
}

/// Model of the items of a list.
pub open spec fn list_view(vs: Seq<Value>) -> Seq<VarTree>
    decreases vs,
{
    if vs.len() == 0 {
        Seq::empty()
    } else {
        seq![value_view(vs[0])] + list_view(vs.drop_first())
    }
}

/// Model of a value.
pub open spec fn value_view(v: Value) -> VarTree
    decreases v,
{
    match v {
        Value::Object(es) => VarTree::Object(entries_view(es@)),
        Value::List(vs) => VarTree::List(list_view(vs@)),
        Value::String(s) => VarTree::Text(s@),
        Value::Bool(b) => VarTree::Bool(b),
        Value::Integer(i) => VarTree::Integer(i),
        Value::Null => VarTree::Null,
    }
}

impl View for Value {
    type V = VarTree;

    open spec fn view(&self) -> VarTree {
        value_view(*self)
    }
}

/// The model of the entries has one entry per entry, each the model of it.
pub proof fn lemma_entries_view(es: Seq<(String, Value)>)
    ensures
        entries_view(es).len() == es.len(),
        forall|i: int| 0 <= i < es.len() ==> #[trigger] entries_view(es)[i] == (es[i].0@, value_view(es[i].1)),
    decreases es.len(),
{
    if es.len() > 0 {
        lemma_entries_view(es.drop_first());
        assert forall|i: int| 0 <= i < es.len() implies #[trigger] entries_view(es)[i] == (es[i].0@, value_view(es[i].1)) by {
            if i > 0 {
                assert(es[i] == es.drop_first()[i - 1]);
            }
        }
    }
}

/// The model of the items has one item per item, each the model of it.
pub proof fn lemma_list_view(vs: Seq<Value>)
    ensures
        list_view(vs).len() == vs.len(),
        forall|i: int| 0 <= i < vs.len() ==> #[trigger] list_view(vs)[i] == value_view(vs[i]),
    decreases vs.len(),
{
    if vs.len() > 0 {
        lemma_list_view(vs.drop_first());
        assert forall|i: int| 0 <= i < vs.len() implies #[trigger] list_view(vs)[i] == value_view(vs[i]) by {
            if i > 0 {
                assert(vs[i] == vs.drop_first()[i - 1]);
            }
        }
    }
}

/// Index of the first entry whose key is `key`, or -1 when there is none.
pub open spec fn first_key_index(entries: Seq<(Seq<char>, VarTree)>, key: Seq<char>) -> int
    decreases entries.len(),
{
    if entries.len() == 0 {
        -1
    } else if entries[0].0 == key {
        0
    } else {
        let r = first_key_index(entries.drop_first(), key);
        if r < 0 {
            -1
        } else {
            r + 1
        }
    }
}

/// `first_key_index` is the least index holding the key, or -1 when no
/// entry holds it.
pub proof fn lemma_first_key_index(entries: Seq<(Seq<char>, VarTree)>, key: Seq<char>)
    ensures
        -1 <= first_key_index(entries, key) < entries.len(),
        first_key_index(entries, key) >= 0 ==> entries[first_key_index(entries, key)].0 == key,
        forall|j: int|
            0 <= j < entries.len() && (j < first_key_index(entries, key) || first_key_index(
                entries,
                key,
            ) < 0) ==> entries[j].0 != key,
    decreases entries.len(),
{
    if entries.len() > 0 {
        lemma_first_key_index(entries.drop_first(), key);
        assert forall|j: int|
            0 <= j < entries.len() && (j < first_key_index(entries, key) || first_key_index(
                entries,
                key,
            ) < 0) implies entries[j].0 != key by {
            if j > 0 {
                assert(entries[j] == entries.drop_first()[j - 1]);
            }
        }
    }
}

/// An index `i` such that no entry before it holds `key` and entry `i`
/// holds it is `first_key_index`; with no entry holding it, that is -1.
pub proof fn lemma_first_key_index_unique(entries: Seq<(Seq<char>, VarTree)>, key: Seq<char>, i: int)
    requires
        0 <= i <= entries.len(),
        forall|j: int| 0 <= j < i ==> entries[j].0 != key,
        i < entries.len() ==> entries[i].0 == key,
    ensures
        first_key_index(entries, key) == (if i < entries.len() {
            i
        } else {
            -1
        }),
{
    lemma_first_key_index(entries, key);
}

/// The value of `key` in an object, if present.
pub open spec fn object_get(entries: Seq<(Seq<char>, VarTree)>, key: Seq<char>) -> Option<VarTree> {
    let i = first_key_index(entries, key);
    if i < 0 {
        None
    } else {
        Some(entries[i].1)
    }
}

/// The value that `items` leads to from `v`, or the error met on the way.
pub open spec fn spec_get(v: VarTree, items: Seq<Step>) -> Result<VarTree, VarsFault>
    decreases items.len(),
{
    if items.len() == 0 {
        Ok(v)
    } else {
        match items[0] {
            Step::Key(key) => match v {
                VarTree::Object(entries) => match object_get(entries, key) {
                    Some(child) => spec_get(child, items.drop_first()),
                    None => Err(VarsFault::NoSuchKey(key)),
                },
                _ => Err(VarsFault::NotAnObject(key)),
            },
            Step::Index(index) => match v {
                VarTree::List(values) => if index < values.len() {
                    spec_get(values[index as int], items.drop_first())
                } else {
                    Err(VarsFault::OutOfBounds(index))
                },
                _ => Err(VarsFault::NotAList(index)),
            },
        }
    }
}

/// The text of a scalar value: strings as they are, booleans as
/// `true`/`false`, integers in decimal; other values have none.
pub open spec fn value_text(v: VarTree) -> Option<Seq<char>> {
    match v {
        VarTree::Text(s) => Some(s),
        VarTree::Bool(b) => Some(bool_text(b)),
        VarTree::Integer(i) => Some(int_decimal(i as int)),
        _ => None,
    }
}

/// The text of the value that `items` leads to.
pub open spec fn spec_get_string(v: VarTree, items: Seq<Step>) -> Result<Seq<char>, VarsFault> {
    match spec_get(v, items) {
        Ok(x) => match value_text(x) {
            Some(t) => Ok(t),
            None => Err(VarsFault::NotAString),
        },
        Err(e) => Err(e),
    }
}


/// `n` copies of `Null`.
pub open spec fn nulls(n: nat) -> Seq<VarTree> {
    Seq::new(n, |i: int| VarTree::Null)
}

/// The list `vs` grown with `Null`s so that index `index` exists.
pub open spec fn extend_to(vs: Seq<VarTree>, index: nat) -> Seq<VarTree> {
    if index < vs.len() {
        vs
    } else {
        vs + nulls((index + 1 - vs.len()) as nat)
    }
}

/// The tree after writing `x` at `items`, or the error met on the way.
/// Missing keys are added, lists grow with `Null`s up to the index, and a
/// `Null` met on the way becomes an object or a list as the next step
/// needs; a step into any other scalar fails.
pub open spec fn spec_assign(v: VarTree, items: Seq<Step>, x: VarTree) -> Result<VarTree, VarsFault>
    decreases items.len(),
{
    if items.len() == 0 {
        Ok(x)
    } else {
        match items[0] {
            Step::Key(key) => {
                let entries = match v {
                    VarTree::Object(es) => Some(es),
                    VarTree::Null => Some(Seq::<(Seq<char>, VarTree)>::empty()),
                    _ => None,
                };
                match entries {
                    Some(es) => {
                        let i = first_key_index(es, key);
                        let child = if i < 0 { VarTree::Null } else { es[i].1 };
                        match spec_assign(child, items.drop_first(), x) {
                            Ok(nc) => Ok(VarTree::Object(if i < 0 {
                                es.push((key, nc))
                            } else {
                                es.update(i, (key, nc))
                            })),
                            Err(e) => Err(e),
                        }
                    },
                    None => Err(VarsFault::NotAnObject(key)),
                }
            },
            Step::Index(index) => {
                let values = match v {
                    VarTree::List(vs) => Some(vs),
                    VarTree::Null => Some(Seq::<VarTree>::empty()),
                    _ => None,
                };
                match values {
                    Some(vs) => {
                        let ext = extend_to(vs, index as nat);
                        match spec_assign(ext[index as int], items.drop_first(), x) {
                            Ok(nc) => Ok(VarTree::List(ext.update(index as int, nc))),
                            Err(e) => Err(e),
                        }
                    },
                    None => Err(VarsFault::NotAList(index)),
                }
            },
        }
    }
}

/// Every index of the path is below `usize::MAX` (a list must be able to
/// hold one more element than the index).
pub open spec fn indices_bounded(items: Seq<Step>) -> bool {
    forall|j: int| 0 <= j < items.len() ==> match #[trigger] items[j] {
        Step::Index(n) => n < usize::MAX,
        Step::Key(_) => true,
    }
}

/// Writing below a `Null` never fails.
pub proof fn lemma_assign_into_null(items: Seq<Step>, x: VarTree)
    ensures
        spec_assign(VarTree::Null, items, x) is Ok,
    decreases items.len(),
{
    if items.len() > 0 {
        lemma_assign_into_null(items.drop_first(), x);
        match items[0] {
            Step::Key(key) => {
                let es = Seq::<(Seq<char>, VarTree)>::empty();
                assert(first_key_index(es, key) == -1);
            },
            Step::Index(index) => {
                let ext = extend_to(Seq::<VarTree>::empty(), index as nat);
                assert(ext[index as int] == VarTree::Null);
            },
        }
    }
}

/// Reading a path right after writing `x` there gives `x` back.
pub proof fn lemma_get_after_assign(v: VarTree, items: Seq<Step>, x: VarTree)
    requires
        spec_assign(v, items, x) is Ok,
    ensures
        spec_get(spec_assign(v, items, x)->Ok_0, items) == Ok::<VarTree, VarsFault>(x),
    decreases items.len(),
{
    if items.len() > 0 {
        match items[0] {
            Step::Key(key) => {
                let es = match v {
                    VarTree::Object(es) => es,
                    _ => Seq::<(Seq<char>, VarTree)>::empty(),
                };
                let i = first_key_index(es, key);
                lemma_first_key_index(es, key);
                let child = if i < 0 { VarTree::Null } else { es[i].1 };
                lemma_get_after_assign(child, items.drop_first(), x);
                let nc = spec_assign(child, items.drop_first(), x)->Ok_0;
                let nes = if i < 0 { es.push((key, nc)) } else { es.update(i, (key, nc)) };
                if i < 0 {
                    lemma_first_key_index_unique(nes, key, es.len() as int);
                } else {
                    lemma_first_key_index_unique(nes, key, i);
                }
            },
            Step::Index(index) => {
                let vs = match v {
                    VarTree::List(vs) => vs,
                    _ => Seq::<VarTree>::empty(),
                };
                let ext = extend_to(vs, index as nat);
                lemma_get_after_assign(ext[index as int], items.drop_first(), x);
            },
        }
    }
}


/// What is written through the reference that `get_mut` lends out is what
/// `get` then reads at the same path.
pub proof fn lemma_get_after_put(v: VarTree, items: Seq<Step>, x: VarTree)
    requires
        spec_get(v, items) is Ok,
    ensures
        spec_get(spec_put(v, items, x), items) == Ok::<VarTree, VarsFault>(x),
    decreases items.len(),
{
    if items.len() > 0 {
        match items[0] {
            Step::Key(key) => {
                if let VarTree::Object(es) = v {
                    let i = first_key_index(es, key);
                    lemma_first_key_index(es, key);
                    lemma_get_after_put(es[i].1, items.drop_first(), x);
                    let nes = es.update(i, (es[i].0, spec_put(es[i].1, items.drop_first(), x)));
                    lemma_first_key_index_unique(nes, key, i);
                }
            },
            Step::Index(index) => {
                if let VarTree::List(vs) = v {
                    lemma_get_after_put(vs[index as int], items.drop_first(), x);
                }
            },
        }
    }
}


/// Whether neither of two paths is a prefix of the other: they differ at
/// some step both have.
pub open spec fn paths_diverge(p: Seq<Step>, q: Seq<Step>) -> bool
    decreases p.len(),
{
    p.len() > 0 && q.len() > 0 && (p[0] != q[0] || paths_diverge(p.drop_first(), q.drop_first()))
}

/// Writing the entry of one key leaves what another key reads as it was.
proof fn lemma_object_get_other(es: Seq<(Seq<char>, VarTree)>, k: Seq<char>, nc: VarTree, q: Seq<char>)
    requires
        k != q,
    ensures
        ({
            let i = first_key_index(es, k);
            let nes = if i < 0 { es.push((k, nc)) } else { es.update(i, (k, nc)) };
            object_get(nes, q) == object_get(es, q)
        }),
{
    let i: int = first_key_index(es, k);
    lemma_first_key_index(es, k);
    lemma_first_key_index(es, q);
    let nes = if i < 0 { es.push((k, nc)) } else { es.update(i, (k, nc)) };
    let iq: int = first_key_index(es, q);
    if iq >= 0 {
        assert forall|j: int| 0 <= j < iq implies nes[j].0 != q by {
            if j != i {
                assert(nes[j] == es[j]);
            }
        }
        assert(nes[iq] == es[iq]);
        lemma_first_key_index_unique(nes, q, iq);
    } else {
        assert forall|j: int| 0 <= j < nes.len() implies nes[j].0 != q by {
            if j < es.len() && j != i {
                assert(nes[j] == es[j]);
            }
        }
        lemma_first_key_index_unique(nes, q, nes.len() as int);
    }
}

/// Writing at one path leaves what any path diverging from it reads as it
/// was: only the value at the written path and the nodes on the way to it
/// change.
pub proof fn lemma_assign_elsewhere(v: VarTree, p: Seq<Step>, x: VarTree, q: Seq<Step>)
    requires
        spec_assign(v, p, x) is Ok,
        paths_diverge(p, q),
        spec_get(v, q) is Ok,
    ensures
        spec_get(spec_assign(v, p, x)->Ok_0, q) == spec_get(v, q),
    decreases p.len(),
{
    match p[0] {
        Step::Key(k) => {
            if let VarTree::Object(es) = v {
                if let Step::Key(kq) = q[0] {
                    let i: int = first_key_index(es, k);
                    lemma_first_key_index(es, k);
                    let child = if i < 0 { VarTree::Null } else { es[i].1 };
                    let nc = spec_assign(child, p.drop_first(), x)->Ok_0;
                    let nes = if i < 0 { es.push((k, nc)) } else { es.update(i, (k, nc)) };
                    if kq != k {
                        lemma_object_get_other(es, k, nc, kq);
                    } else {
                        lemma_assign_elsewhere(child, p.drop_first(), x, q.drop_first());
                        lemma_first_key_index_unique(nes, k, i);
                    }
                }
            }
        },
        Step::Index(n) => {
            if let VarTree::List(vs) = v {
                if let Step::Index(m) = q[0] {
                    let ext = extend_to(vs, n as nat);
                    assert(ext[m as int] == vs[m as int]);
                    if m == n {
                        lemma_assign_elsewhere(ext[n as int], p.drop_first(), x, q.drop_first());
                    }
                }
            }
        },
    }
}

/// The error of stepping with `st` into a value `w` that cannot hold such
/// a step: a key into anything but an object (or `Null`), an index into
/// anything but a list (or `Null`).
pub open spec fn step_fault(w: VarTree, st: Step) -> Option<VarsFault> {
    match st {
        Step::Key(k) => match w {
            VarTree::Object(_) | VarTree::Null => None,
            _ => Some(VarsFault::NotAnObject(k)),
        },
        Step::Index(n) => match w {
            VarTree::List(_) | VarTree::Null => None,
            _ => Some(VarsFault::NotAList(n)),
        },
    }
}

/// Whether the value that the first `j` steps of `p` read in `v` cannot
/// take step `j` of `p`.
pub open spec fn blocked_at(v: VarTree, p: Seq<Step>, j: int) -> bool {
    0 <= j < p.len() && (spec_get(v, p.take(j)) matches Ok(w) && step_fault(w, p[j]) is Some)
}

/// The fault of `blocked_at` where it holds.
pub open spec fn blocked_fault(v: VarTree, p: Seq<Step>, j: int) -> VarsFault {
    step_fault(spec_get(v, p.take(j))->Ok_0, p[j])->0
}

/// Writing at a path fails exactly where the existing tree, read along
/// the path, reaches a value that cannot take the next step (a scalar
/// where a key or an index is asked for), and the error is that step's.
/// Missing keys, short lists and `Null`s on the way never make it fail.
pub proof fn lemma_assign_fails(v: VarTree, p: Seq<Step>, x: VarTree)
    ensures
        spec_assign(v, p, x) is Err <==> exists|j: int| #[trigger] blocked_at(v, p, j),
        forall|j: int| #[trigger] blocked_at(v, p, j)
            ==> spec_assign(v, p, x) == Err::<VarTree, VarsFault>(blocked_fault(v, p, j)),
    decreases p.len(),
{
    if p.len() == 0 {
        assert forall|j: int| !#[trigger] blocked_at(v, p, j) by {}
    } else {
        let rest = p.drop_first();
        assert(p.take(0) =~= Seq::<Step>::empty());
        assert forall|j: int| 0 < j <= p.len() implies #[trigger] p.take(j).drop_first() == rest.take(j - 1) && p.take(j)[0] == p[0] by {
            assert(p.take(j).drop_first() =~= rest.take(j - 1));
        }
        // The child that the first step reads or creates, if `v` can take it.
        let child: Option<VarTree> = match p[0] {
            Step::Key(k) => match v {
                VarTree::Object(es) => Some(if first_key_index(es, k) < 0 { VarTree::Null } else { es[first_key_index(es, k)].1 }),
                VarTree::Null => Some(VarTree::Null),
                _ => None,
            },
            Step::Index(n) => match v {
                VarTree::List(vs) => Some(extend_to(vs, n as nat)[n as int]),
                VarTree::Null => Some(VarTree::Null),
                _ => None,
            },
        };
        match child {
            None => {
                assert(blocked_at(v, p, 0));
                assert forall|j: int| #[trigger] blocked_at(v, p, j) implies j == 0 by {
                    if j > 0 {
                        assert(spec_get(v, p.take(j)) is Err);
                    }
                }
            },
            Some(c) => {
                assert(!blocked_at(v, p, 0));
                lemma_assign_fails(c, rest, x);
                // Where the child is read by `get` too, blocking moves one step down.
                let read: bool = match p[0] {
                    Step::Key(k) => match v {
                        VarTree::Object(es) => first_key_index(es, k) >= 0,
                        _ => false,
                    },
                    Step::Index(n) => match v {
                        VarTree::List(vs) => n < vs.len(),
                        _ => false,
                    },
                };
                if let Step::Key(k) = p[0] {
                    if let VarTree::Object(es) = v {
                        lemma_first_key_index(es, k);
                    }
                }
                if read {
                    assert forall|j: int| 0 < j <= p.len() implies #[trigger] spec_get(v, p.take(j)) == spec_get(c, rest.take(j - 1)) by {
                        assert(p.take(j).drop_first() == rest.take(j - 1));
                    }
                    assert forall|j: int| #[trigger] blocked_at(v, p, j) <==> (j > 0 && blocked_at(c, rest, j - 1)) by {
                        if j > 0 && j <= p.len() {
                            assert(spec_get(v, p.take(j)) == spec_get(c, rest.take(j - 1)));
                            if j < p.len() {
                                assert(p[j] == rest[j - 1]);
                            }
                        }
                    }
                    if exists|j: int| #[trigger] blocked_at(c, rest, j) {
                        let j: int = choose|j: int| #[trigger] blocked_at(c, rest, j);
                        assert(blocked_at(v, p, j + 1));
                    }
                    assert forall|j: int| #[trigger] blocked_at(v, p, j)
                        implies spec_assign(v, p, x) == Err::<VarTree, VarsFault>(blocked_fault(v, p, j)) by {
                        assert(blocked_at(c, rest, j - 1));
                        assert(spec_get(v, p.take(j)) == spec_get(c, rest.take(j - 1)));
                        assert(p[j] == rest[j - 1]);
                    }
                } else {
                    assert(c == VarTree::Null);
                    lemma_assign_into_null(rest, x);
                    assert forall|j: int| !#[trigger] blocked_at(v, p, j) by {
                        if 0 < j < p.len() {
                            assert(spec_get(v, p.take(j)) is Err);
                        }
                    }
                }
            },
        }
    }
}

/// Whether every object in a tree has each of its keys once.
pub open spec fn keys_distinct(v: VarTree) -> bool
    decreases v,
{
    match v {
        VarTree::Object(es) => es.map_values(|e: (Seq<char>, VarTree)| e.0).no_duplicates()
            && forall|i: int| 0 <= i < es.len() ==> keys_distinct(#[trigger] es[i].1),
        VarTree::List(vs) => forall|i: int| 0 <= i < vs.len() ==> keys_distinct(#[trigger] vs[i]),
        _ => true,
    }
}

/// Writing a tree whose objects have distinct keys into one whose objects
/// have distinct keys keeps them distinct: a key is only added where it
/// is missing.
pub proof fn lemma_assign_keys_distinct(v: VarTree, p: Seq<Step>, x: VarTree)
    requires
        keys_distinct(v),
        keys_distinct(x),
        spec_assign(v, p, x) is Ok,
    ensures
        keys_distinct(spec_assign(v, p, x)->Ok_0),
    decreases p.len(),
{
    if p.len() > 0 {
        match p[0] {
            Step::Key(k) => {
                let es = match v {
                    VarTree::Object(es) => es,
                    _ => Seq::<(Seq<char>, VarTree)>::empty(),
                };
                let i: int = first_key_index(es, k);
                lemma_first_key_index(es, k);
                let child = if i < 0 { VarTree::Null } else { es[i].1 };
                lemma_assign_keys_distinct(child, p.drop_first(), x);
                let nc = spec_assign(child, p.drop_first(), x)->Ok_0;
                let nes = if i < 0 { es.push((k, nc)) } else { es.update(i, (k, nc)) };
                let ks = es.map_values(|e: (Seq<char>, VarTree)| e.0);
                let nks = nes.map_values(|e: (Seq<char>, VarTree)| e.0);
                if i < 0 {
                    assert(nks =~= ks.push(k));
                    assert forall|a: int, b: int| 0 <= a < b < nks.len() implies nks[a] != nks[b] by {
                        if b == ks.len() {
                            assert(nks[a] == es[a].0);
                        } else {
                            assert(nks[a] == ks[a] && nks[b] == ks[b]);
                        }
                    }
                } else {
                    assert(nks =~= ks.update(i, k));
                    assert(ks[i] == k);
                    assert(nks =~= ks);
                }
                assert forall|j: int| 0 <= j < nes.len() implies keys_distinct(#[trigger] nes[j].1) by {
                    if j != i && j < es.len() {
                        assert(nes[j] == es[j]);
                    }
                }
            },
            Step::Index(n) => {
                let vs = match v {
                    VarTree::List(vs) => vs,
                    _ => Seq::<VarTree>::empty(),
                };
                let ext = extend_to(vs, n as nat);
                assert forall|j: int| 0 <= j < ext.len() implies keys_distinct(#[trigger] ext[j]) by {
                    if j >= vs.len() {
                        assert(ext[j] == VarTree::Null);
                    }
                }
                lemma_assign_keys_distinct(ext[n as int], p.drop_first(), x);
                let nc = spec_assign(ext[n as int], p.drop_first(), x)->Ok_0;
                let nvs = ext.update(n as int, nc);
                assert forall|j: int| 0 <= j < nvs.len() implies keys_distinct(#[trigger] nvs[j]) by {
                    if j != n {
                        assert(nvs[j] == ext[j]);
                    }
                }
            },
        }
    }
}

/// Merging two trees whose objects have distinct keys gives such a tree.
pub proof fn lemma_merge_keys_distinct(a: VarTree, b: VarTree)
    requires
        keys_distinct(a),
        keys_distinct(b),
        spec_merge(a, b) is Ok,
    ensures
        keys_distinct(spec_merge(a, b)->Ok_0),
    decreases b,
{
    if !(a is Null) && !(b is Null) {
        match a {
            VarTree::Object(l) => match b {
                VarTree::Object(r) => {
                    assert forall|i: int| 0 <= i < r.len() implies keys_distinct(#[trigger] r[i].1) by {}
                    lemma_merge_entries_keys_distinct(l, r);
                },
                _ => {},
            },
            VarTree::List(l) => match b {
                VarTree::List(r) => {
                    assert forall|i: int| 0 <= i < (l + r).len() implies keys_distinct(#[trigger] (l + r)[i]) by {
                        if i >= l.len() {
                            assert((l + r)[i] == r[i - l.len()]);
                        }
                    }
                },
                _ => {},
            },
            _ => {},
        }
    }
}

proof fn lemma_merge_entries_keys_distinct(l: Seq<(Seq<char>, VarTree)>, r: Seq<(Seq<char>, VarTree)>)
    requires
        keys_distinct(VarTree::Object(l)),
        forall|i: int| 0 <= i < r.len() ==> keys_distinct(#[trigger] r[i].1),
        spec_merge_entries(l, r) is Ok,
    ensures
        keys_distinct(spec_merge_entries(l, r)->Ok_0),
    decreases r,
{
    if r.len() > 0 {
        let k = r[0].0;
        let i: int = first_key_index(l, k);
        lemma_first_key_index(l, k);
        let rest = r.drop_first();
        assert forall|j: int| 0 <= j < rest.len() implies keys_distinct(#[trigger] rest[j].1) by {
            assert(rest[j] == r[j + 1]);
        }
        let ks = l.map_values(|e: (Seq<char>, VarTree)| e.0);
        if i < 0 {
            let nl = l.push((k, r[0].1));
            let nks = nl.map_values(|e: (Seq<char>, VarTree)| e.0);
            assert(nks =~= ks.push(k));
            assert forall|a: int, b: int| 0 <= a < b < nks.len() implies nks[a] != nks[b] by {
                if b == ks.len() {
                    assert(nks[a] == l[a].0);
                } else {
                    assert(nks[a] == ks[a] && nks[b] == ks[b]);
                }
            }
            assert forall|j: int| 0 <= j < nl.len() implies keys_distinct(#[trigger] nl[j].1) by {
                if j < l.len() {
                    assert(nl[j] == l[j]);
                }
            }
            lemma_merge_entries_keys_distinct(nl, rest);
        } else {
            lemma_merge_keys_distinct(l[i].1, r[0].1);
            let m = spec_merge(l[i].1, r[0].1)->Ok_0;
            let nl = l.update(i, (k, m));
            let nks = nl.map_values(|e: (Seq<char>, VarTree)| e.0);
            assert(ks[i] == k);
            assert(nks =~= ks);
            assert forall|j: int| 0 <= j < nl.len() implies keys_distinct(#[trigger] nl[j].1) by {
                if j != i {
                    assert(nl[j] == l[j]);
                }
            }
            lemma_merge_entries_keys_distinct(nl, rest);
        }
    }
}

/// Writing back through `get_mut` the value it lent out leaves the tree
/// as it was: borrowing alone changes nothing.
pub proof fn lemma_put_read_back(v: VarTree, items: Seq<Step>)
    requires
        spec_get(v, items) is Ok,
    ensures
        spec_put(v, items, spec_get(v, items)->Ok_0) == v,
    decreases items.len(),
{
    if items.len() > 0 {
        match items[0] {
            Step::Key(key) => {
                if let VarTree::Object(es) = v {
                    let i: int = first_key_index(es, key);
                    lemma_first_key_index(es, key);
                    lemma_put_read_back(es[i].1, items.drop_first());
                    assert(es.update(i, (es[i].0, es[i].1)) =~= es);
                }
            },
            Step::Index(index) => {
                if let VarTree::List(vs) = v {
                    lemma_put_read_back(vs[index as int], items.drop_first());
                    assert(vs.update(index as int, vs[index as int]) =~= vs);
                }
            },
        }
    }
}

/// A text with no `$` in it is its own substitution, whatever the
/// variables.
pub proof fn lemma_substitute_plain(vars: VarTree, text: Seq<char>)
    requires
        !text.contains('$'),
    ensures
        spec_substitute(vars, text) == Ok::<Seq<char>, SubstFault>(text),
{
    lemma_raw_plain(vars, text, 0);
    assert(text.subrange(0, text.len() as int) =~= text);
}

proof fn lemma_raw_plain(vars: VarTree, s: Seq<char>, pos: int)
    requires
        0 <= pos <= s.len(),
        !s.contains('$'),
    ensures
        spec_raw(vars, s, pos) == Ok::<Seq<char>, SubstFault>(s.subrange(pos, s.len() as int)),
    decreases s.len() - pos,
{
    if pos < s.len() {
        assert(s[pos] != '$');
        lemma_raw_plain(vars, s, pos + 1);
        assert(seq![s[pos]] + s.subrange(pos + 1, s.len() as int) =~= s.subrange(pos, s.len() as int));
    } else {
        assert(s.subrange(pos, s.len() as int) =~= Seq::<char>::empty());
    }
}

proof fn lemma_raw_plain_from(vars: VarTree, s: Seq<char>, pos: int)
    requires
        0 <= pos <= s.len(),
        forall|j: int| pos <= j < s.len() ==> s[j] != '$',
    ensures
        spec_raw(vars, s, pos) == Ok::<Seq<char>, SubstFault>(s.subrange(pos, s.len() as int)),
    decreases s.len() - pos,
{
    if pos < s.len() {
        lemma_raw_plain_from(vars, s, pos + 1);
        assert(seq![s[pos]] + s.subrange(pos + 1, s.len() as int) =~= s.subrange(pos, s.len() as int));
    } else {
        assert(s.subrange(pos, s.len() as int) =~= Seq::<char>::empty());
    }
}

proof fn lemma_dollar_run_exact(s: Seq<char>, pos: int, k: int)
    requires
        0 <= pos,
        0 <= k,
        pos + k <= s.len(),
        forall|j: int| pos <= j < pos + k ==> s[j] == '$',
        pos + k == s.len() || s[pos + k] != '$',
    ensures
        dollar_run(s, pos) == k,
    decreases k,
{
    if k > 0 {
        lemma_dollar_run_exact(s, pos + 1, k - 1);
    }
}

/// A run of dollars before a text with no `$` stands for itself, unless
/// a `{` follows it; a run of two or more dollars before a `{` stands for
/// one dollar less, and the `{` and the rest stay as they are.
pub proof fn lemma_substitute_dollar_run(vars: VarTree, n: nat, t: Seq<char>)
    requires
        n >= 1,
        !t.contains('$'),
    ensures
        (t.len() == 0 || t[0] != '{') ==> spec_substitute(vars, dollars(n) + t) == Ok::<Seq<char>, SubstFault>(dollars(n) + t),
        n >= 2 ==> spec_substitute(vars, dollars(n) + seq!['{'] + t) == Ok::<Seq<char>, SubstFault>(
            dollars((n - 1) as nat) + seq!['{'] + t,
        ),
{
    let s1 = dollars(n) + t;
    assert forall|j: int| n <= j < s1.len() implies s1[j] != '$' by {
        assert(s1[j] == t[j - n]);
    }
    lemma_dollar_run_exact(s1, 0, n as int);
    lemma_raw_plain_from(vars, s1, n as int);
    assert(s1.subrange(n as int, s1.len() as int) =~= t);
    if t.len() == 0 || t[0] != '{' {
        assert(s1[0] == '$');
        assert(dollars(n) + t =~= s1);
    }
    if n >= 2 {
        let s2 = dollars(n) + seq!['{'] + t;
        assert forall|j: int| n <= j < s2.len() implies s2[j] != '$' by {
            if j > n {
                assert(s2[j] == t[j - n - 1]);
            }
        }
        lemma_dollar_run_exact(s2, 0, n as int);
        lemma_raw_plain_from(vars, s2, n as int);
        assert(s2.subrange(n as int, s2.len() as int) =~= seq!['{'] + t);
        assert(s2[0] == '$');
        assert(s2[n as int] == '{');
        assert(dollars((n - 1) as nat) + (seq!['{'] + t) =~= dollars((n - 1) as nat) + seq!['{'] + t);
    }
}

/// Where the reader of a path between `${` and `}` stands: before a step,
/// inside a key, or inside an index.
#[derive(Debug, Clone, Copy, PartialEq, Eq)]
pub enum PathParseState {
    Start,
    Key,
    Index,
}

/// `n` dollar signs.
pub open spec fn dollars(n: nat) -> Seq<char> {
    Seq::new(n, |i: int| '$')
}

/// Number of consecutive `$` in `s` from `pos` on.
pub open spec fn dollar_run(s: Seq<char>, pos: int) -> nat
    decreases s.len() - pos,
{
    if 0 <= pos < s.len() && s[pos] == '$' {
        1 + dollar_run(s, pos + 1)
    } else {
        0
    }
}

/// The expression that starts with the `$` at `pos`: its text and the
/// position after it.  A run of `n` dollars followed by `{` is a
/// variable reference `${path}` when `n` is 1, and stands for `n - 1`
/// dollars (the `{` staying unread) otherwise; a run not followed by `{`
/// stands for itself.
pub open spec fn spec_expr(vars: VarTree, s: Seq<char>, pos: int) -> Result<(Seq<char>, int), SubstFault>
    decreases s.len() - pos, 0int,
{
    let n = dollar_run(s, pos);
    let q = pos + n;
    if n >= 1 && q < s.len() && s[q] == '{' {
        if n == 1 {
            match spec_path(vars, s, q + 1, PathParseState::Start, Seq::empty(), Seq::empty()) {
                Ok((steps, p)) => match spec_get_string(vars, steps) {
                    Ok(t) => if 0 <= p < s.len() && s[p] == '}' {
                        Ok((t, p + 1))
                    } else {
                        Err(SubstFault::MissingClosingBracket)
                    },
                    Err(e) => Err(SubstFault::Vars(e)),
                },
                Err(e) => Err(e),
            }
        } else {
            Ok((dollars((n - 1) as nat), q))
        }
    } else {
        Ok((dollars(n), q))
    }
}

/// The path read from `pos` in state `st`, `steps` having been read and
/// `cur` holding the key or index read so far: the steps and the
/// position of the `}` (or the end) that ends them.  `.` and `[` end a
/// key, `]` ends an index (which must then be a number), `}` or the end
/// of the text end the path, and a `$` inside a key or an index is an
/// expression whose text joins it.
pub open spec fn spec_path(
    vars: VarTree,
    s: Seq<char>,
    pos: int,
    st: PathParseState,
    steps: Seq<Step>,
    cur: Seq<char>,
) -> Result<(Seq<Step>, int), SubstFault>
    decreases s.len() - pos, if st == PathParseState::Start { 2int } else { 1int },
{
    if pos < 0 || pos > s.len() {
        Err(SubstFault::MissingClosingBracket)
    } else {
        match st {
            PathParseState::Start => if pos == s.len() {
                Ok((steps, pos))
            } else if s[pos] == '[' {
                spec_path(vars, s, pos + 1, PathParseState::Index, steps, cur)
            } else if s[pos] == '}' {
                Ok((steps, pos))
            } else {
                spec_path(vars, s, pos, PathParseState::Key, steps, cur)
            },
            PathParseState::Key => if pos == s.len() {
                Ok((steps.push(Step::Key(cur)), pos))
            } else if s[pos] == '.' {
                spec_path(vars, s, pos + 1, PathParseState::Key, steps.push(Step::Key(cur)), Seq::empty())
            } else if s[pos] == '[' {
                spec_path(vars, s, pos + 1, PathParseState::Index, steps.push(Step::Key(cur)), Seq::empty())
            } else if s[pos] == '}' {
                Ok((steps.push(Step::Key(cur)), pos))
            } else if s[pos] == '$' {
                match spec_expr(vars, s, pos) {
                    Ok((t, p)) => if pos < p <= s.len() {
                        spec_path(vars, s, p, PathParseState::Key, steps, cur + t)
                    } else {
                        Err(SubstFault::MissingClosingBracket)
                    },
                    Err(e) => Err(e),
                }
            } else {
                spec_path(vars, s, pos + 1, PathParseState::Key, steps, cur.push(s[pos]))
            },
            PathParseState::Index => if pos == s.len() {
                Err(SubstFault::MissingClosingBracket)
            } else if s[pos] == ']' {
                match parse_unsigned_spec(cur, usize::MAX as int) {
                    Ok(n) => spec_path(vars, s, pos + 1, PathParseState::Start, steps.push(Step::Index(n as usize)), Seq::empty()),
                    Err(e) => Err(SubstFault::ParseIndex(e)),
                }
            } else if s[pos] == '$' {
                match spec_expr(vars, s, pos) {
                    Ok((t, p)) => if pos < p <= s.len() {
                        spec_path(vars, s, p, PathParseState::Index, steps, cur + t)
                    } else {
                        Err(SubstFault::MissingClosingBracket)
                    },
                    Err(e) => Err(e),
                }
            } else {
                spec_path(vars, s, pos + 1, PathParseState::Index, steps, cur.push(s[pos]))
            },
        }
    }
}

/// The text from `pos` on with every expression replaced by its text.
pub open spec fn spec_raw(vars: VarTree, s: Seq<char>, pos: int) -> Result<Seq<char>, SubstFault>
    decreases s.len() - pos,
{
    if pos < 0 || pos >= s.len() {
        Ok(Seq::empty())
    } else if s[pos] == '$' {
        match spec_expr(vars, s, pos) {
            Ok((t, p)) => if pos < p <= s.len() {
                match spec_raw(vars, s, p) {
                    Ok(r) => Ok(t + r),
                    Err(e) => Err(e),
                }
            } else {
                Err(SubstFault::MissingClosingBracket)
            },
            Err(e) => Err(e),
        }
    } else {
        match spec_raw(vars, s, pos + 1) {
            Ok(r) => Ok(seq![s[pos]] + r),
            Err(e) => Err(e),
        }
    }
}

/// `text` with every `${path}` replaced by the text of the variable at
/// `path` in `vars`, and `$$...${` standing for one dollar less.
pub open spec fn spec_substitute(vars: VarTree, text: Seq<char>) -> Result<Seq<char>, SubstFault> {
    spec_raw(vars, text, 0)
}

/// A dollar run is as long as its dollars.
pub proof fn lemma_dollar_run(s: Seq<char>, pos: int)
    requires
        0 <= pos <= s.len(),
    ensures
        pos + dollar_run(s, pos) <= s.len(),
        forall|j: int| pos <= j < pos + dollar_run(s, pos) ==> s[j] == '$',
        pos + dollar_run(s, pos) < s.len() ==> s[pos + dollar_run(s, pos)] != '$',
    decreases s.len() - pos,
{
    if pos < s.len() && s[pos] == '$' {
        lemma_dollar_run(s, pos + 1);
    }
}

/// An expression ends after its start, and a path ends where it started
/// or later, both within the text.
pub proof fn lemma_expr_advances(vars: VarTree, s: Seq<char>, pos: int)
    requires
        0 <= pos < s.len(),
        s[pos] == '$',
    ensures
        spec_expr(vars, s, pos) matches Ok((t, p)) ==> pos < p <= s.len(),
    decreases s.len() - pos, 0int,
{
    lemma_dollar_run(s, pos);
    let n = dollar_run(s, pos);
    let q = pos + n;
    if q < s.len() && s[q] == '{' && n == 1 {
        lemma_path_advances(vars, s, q + 1, PathParseState::Start, Seq::empty(), Seq::empty());
    }
}

/// See `lemma_expr_advances`.
pub proof fn lemma_path_advances(
    vars: VarTree,
    s: Seq<char>,
    pos: int,
    st: PathParseState,
    steps: Seq<Step>,
    cur: Seq<char>,
)
    ensures
        spec_path(vars, s, pos, st, steps, cur) matches Ok((ss, p)) ==> pos <= p <= s.len(),
    decreases s.len() - pos, if st == PathParseState::Start { 2int } else { 1int },
{
    if 0 <= pos <= s.len() {
        match st {
            PathParseState::Start => if pos < s.len() {
                if s[pos] == '[' {
                    lemma_path_advances(vars, s, pos + 1, PathParseState::Index, steps, cur);
                } else if s[pos] != '}' {
                    lemma_path_advances(vars, s, pos, PathParseState::Key, steps, cur);
                }
            },
            PathParseState::Key => if pos < s.len() {
                if s[pos] == '.' {
                    lemma_path_advances(vars, s, pos + 1, PathParseState::Key, steps.push(Step::Key(cur)), Seq::empty());
                } else if s[pos] == '[' {
                    lemma_path_advances(vars, s, pos + 1, PathParseState::Index, steps.push(Step::Key(cur)), Seq::empty());
                } else if s[pos] == '$' {
                    lemma_expr_advances(vars, s, pos);
                    if let Ok((t, p)) = spec_expr(vars, s, pos) {
                        lemma_path_advances(vars, s, p, PathParseState::Key, steps, cur + t);
                    }
                } else if s[pos] != '}' {
                    lemma_path_advances(vars, s, pos + 1, PathParseState::Key, steps, cur.push(s[pos]));
                }
            },
            PathParseState::Index => if pos < s.len() {
                if s[pos] == ']' {
                    if let Ok(n) = parse_unsigned_spec(cur, usize::MAX as int) {
                        lemma_path_advances(vars, s, pos + 1, PathParseState::Start, steps.push(Step::Index(n as usize)), Seq::empty());
                    }
                } else if s[pos] == '$' {
                    lemma_expr_advances(vars, s, pos);
                    if let Ok((t, p)) = spec_expr(vars, s, pos) {
                        lemma_path_advances(vars, s, p, PathParseState::Index, steps, cur + t);
                    }
                } else {
                    lemma_path_advances(vars, s, pos + 1, PathParseState::Index, steps, cur.push(s[pos]));
                }
            },
        }
    }
}


/// Name of the kind of a value, as merge errors report it.
pub open spec fn kind_name(v: VarTree) -> Seq<char> {
    match v {
        VarTree::Object(_) => seq!['o', 'b', 'j', 'e', 'c', 't'],
        VarTree::List(_) => seq!['l', 'i', 's', 't'],
        VarTree::Text(_) => seq!['s', 't', 'r', 'i', 'n', 'g'],
        VarTree::Bool(_) => seq!['b', 'o', 'o', 'l'],
        VarTree::Integer(_) => seq!['i', 'n', 't', 'e', 'g', 'e', 'r'],
        VarTree::Null => seq!['n', 'o', 'n', 'e'],
    }
}

/// `b` merged into `a`: `Null` gives way to the other side, lists are
/// concatenated, objects are merged key by key (see
/// `spec_merge_entries`), and any other pair of kinds cannot be merged.
pub open spec fn spec_merge(a: VarTree, b: VarTree) -> Result<VarTree, VarsFault>
    decreases b,
{
    if a is Null {
        Ok(b)
    } else if b is Null {
        Ok(a)
    } else {
        match a {
            VarTree::Object(l) => match b {
                VarTree::Object(r) => spec_merge_entries(l, r),
                _ => Err(VarsFault::InvalidMerge(kind_name(a), kind_name(b))),
            },
            VarTree::List(l) => match b {
                VarTree::List(r) => Ok(VarTree::List(l + r)),
                _ => Err(VarsFault::InvalidMerge(kind_name(a), kind_name(b))),
            },
            _ => Err(VarsFault::InvalidMerge(kind_name(a), kind_name(b))),
        }
    }
}

/// The entries `r` merged one after the other into the object `l`: the
/// value of a key that `l` already has is merged with the new one in
/// place, a new key is added at the end.
pub open spec fn spec_merge_entries(l: Seq<(Seq<char>, VarTree)>, r: Seq<(Seq<char>, VarTree)>) -> Result<VarTree, VarsFault>
    decreases r,
{
    if r.len() == 0 {
        Ok(VarTree::Object(l))
    } else {
        let k = r[0].0;
        let i = first_key_index(l, k);
        if i < 0 {
            spec_merge_entries(l.push((k, r[0].1)), r.drop_first())
        } else {
            match spec_merge(l[i].1, r[0].1) {
                Ok(m) => spec_merge_entries(l.update(i, (k, m)), r.drop_first()),
                Err(e) => Err(e),
            }
        }
    }
}

/// Nesting size of a value (objects count their entries' sizes).
pub open spec fn tree_size(v: VarTree) -> nat
    decreases v,
{
    match v {
        VarTree::Object(es) => 1 + entries_size(es),
        _ => 1,
    }
}

/// Sum of the sizes of the entries' values.
pub open spec fn entries_size(es: Seq<(Seq<char>, VarTree)>) -> nat
    decreases es,
{
    if es.len() == 0 {
        0
    } else {
        tree_size(es[0].1) + entries_size(es.drop_first())
    }
}

/// Merging a value into `Null`, or `Null` into a value, gives the value.
pub proof fn lemma_merge_null(v: VarTree)
    ensures
        spec_merge(VarTree::Null, v) == Ok::<VarTree, VarsFault>(v),
        spec_merge(v, VarTree::Null) == Ok::<VarTree, VarsFault>(v),
{
}

/// The keys of an object's entries.
pub open spec fn entry_keys(es: Seq<(Seq<char>, VarTree)>) -> Set<Seq<char>> {
    es.map_values(|e: (Seq<char>, VarTree)| e.0).to_set()
}

/// Merging two objects gives an object whose keys are those of both, and
/// a key that only the first has keeps its value.
pub proof fn lemma_merge_objects(l: Seq<(Seq<char>, VarTree)>, r: Seq<(Seq<char>, VarTree)>)
    requires
        spec_merge(VarTree::Object(l), VarTree::Object(r)) is Ok,
    ensures
        spec_merge(VarTree::Object(l), VarTree::Object(r)) matches Ok(VarTree::Object(m))
            && entry_keys(m) == entry_keys(l) + entry_keys(r)
            && forall|q: Seq<char>| !entry_keys(r).contains(q) ==> #[trigger] object_get(m, q) == object_get(l, q),
{
    lemma_merge_entries_keys(l, r);
}

/// What merging two objects gives for a key of the second one, where the
/// second has each key once: the merge of both values where the first has
/// the key too (that merge succeeds), else the second one's value.
pub proof fn lemma_merge_object_values(l: Seq<(Seq<char>, VarTree)>, r: Seq<(Seq<char>, VarTree)>)
    requires
        spec_merge(VarTree::Object(l), VarTree::Object(r)) is Ok,
        r.map_values(|e: (Seq<char>, VarTree)| e.0).no_duplicates(),
    ensures
        spec_merge(VarTree::Object(l), VarTree::Object(r)) matches Ok(VarTree::Object(m))
            && forall|q: Seq<char>| #[trigger] entry_keys(r).contains(q) ==> object_get(m, q) == match object_get(l, q) {
                Some(a) => Some(spec_merge(a, object_get(r, q)->0)->Ok_0),
                None => object_get(r, q),
            } && (object_get(l, q) matches Some(a) ==> spec_merge(a, object_get(r, q)->0) is Ok),
{
    lemma_merge_entries_keys(l, r);
    lemma_merge_entries_values(l, r);
}

proof fn lemma_merge_entries_values(l: Seq<(Seq<char>, VarTree)>, r: Seq<(Seq<char>, VarTree)>)
    requires
        spec_merge_entries(l, r) is Ok,
        r.map_values(|e: (Seq<char>, VarTree)| e.0).no_duplicates(),
    ensures
        spec_merge_entries(l, r) matches Ok(VarTree::Object(m))
            && forall|q: Seq<char>| #[trigger] entry_keys(r).contains(q) ==> object_get(m, q) == match object_get(l, q) {
                Some(a) => Some(spec_merge(a, object_get(r, q)->0)->Ok_0),
                None => object_get(r, q),
            } && (object_get(l, q) matches Some(a) ==> spec_merge(a, object_get(r, q)->0) is Ok),
    decreases r,
{
    lemma_merge_entries_keys(l, r);
    if r.len() > 0 {
        let k = r[0].0;
        let i: int = first_key_index(l, k);
        lemma_first_key_index(l, k);
        let rest = r.drop_first();
        let rk = r.map_values(|e: (Seq<char>, VarTree)| e.0);
        let restk = rest.map_values(|e: (Seq<char>, VarTree)| e.0);
        assert(rk =~= seq![k] + restk);
        assert(restk.no_duplicates()) by {
            assert forall|a: int, b: int| 0 <= a < b < restk.len() implies restk[a] != restk[b] by {
                assert(rk[a + 1] == restk[a] && rk[b + 1] == restk[b]);
            }
        }
        assert(!restk.contains(k)) by {
            if restk.contains(k) {
                let j: int = choose|j: int| 0 <= j < restk.len() && restk[j] == k;
                assert(rk[j + 1] == k && rk[0] == k);
            }
        }
        let nv = if i < 0 { r[0].1 } else { spec_merge(l[i].1, r[0].1)->Ok_0 };
        let nl = if i < 0 { l.push((k, nv)) } else { l.update(i, (k, nv)) };
        assert(spec_merge_entries(l, r) == spec_merge_entries(nl, rest));
        lemma_merge_entries_values(nl, rest);
        lemma_merge_entries_keys(nl, rest);
        let m = spec_merge_entries(l, r)->Ok_0->Object_0;
        // The key of the first entry: its value is settled now and the rest
        // of the entries do not touch it.
        if i < 0 {
            lemma_first_key_index_unique(nl, k, l.len() as int);
        } else {
            lemma_first_key_index_unique(nl, k, i);
        }
        assert(object_get(nl, k) == Some(nv));
        assert(!entry_keys(rest).contains(k));
        assert(object_get(m, k) == object_get(nl, k));
        lemma_first_key_index(r, k);
        assert(object_get(r, k) == Some(r[0].1));
        assert forall|q: Seq<char>| #[trigger] entry_keys(r).contains(q) implies object_get(m, q) == match object_get(l, q) {
            Some(a) => Some(spec_merge(a, object_get(r, q)->0)->Ok_0),
            None => object_get(r, q),
        } && (object_get(l, q) matches Some(a) ==> spec_merge(a, object_get(r, q)->0) is Ok) by {
            if q != k {
                let j: int = choose|j: int| 0 <= j < rk.len() && rk[j] == q;
                assert(j > 0);
                assert(restk[j - 1] == q);
                assert(entry_keys(rest).contains(q));
                lemma_object_get_other(l, k, nv, q);
                lemma_first_key_index(r, q);
                lemma_first_key_index(rest, q);
                lemma_first_key_index_unique(r, q, first_key_index(rest, q) + 1);
                assert(r[first_key_index(rest, q) + 1] == rest[first_key_index(rest, q)]);
                assert(object_get(r, q) == object_get(rest, q));
            } else {
                if i >= 0 {
                    assert(object_get(l, k) == Some(l[i].1));
                } else {
                    assert(object_get(l, k) is None);
                }
            }
        }
    }
}

proof fn lemma_merge_entries_keys(l: Seq<(Seq<char>, VarTree)>, r: Seq<(Seq<char>, VarTree)>)
    requires
        spec_merge_entries(l, r) is Ok,
    ensures
        spec_merge_entries(l, r) matches Ok(VarTree::Object(m))
            && entry_keys(m) == entry_keys(l) + entry_keys(r)
            && forall|q: Seq<char>| !entry_keys(r).contains(q) ==> #[trigger] object_get(m, q) == object_get(l, q),
    decreases r,
{
    if r.len() == 0 {
        assert(entry_keys(r) =~= Set::<Seq<char>>::empty());
        assert(entry_keys(l) + entry_keys(r) =~= entry_keys(l));
    } else {
        let k = r[0].0;
        let i: int = first_key_index(l, k);
        lemma_first_key_index(l, k);
        let rest = r.drop_first();
        assert(entry_keys(r) =~= entry_keys(rest).insert(k)) by {
            let rk = r.map_values(|e: (Seq<char>, VarTree)| e.0);
            let restk = rest.map_values(|e: (Seq<char>, VarTree)| e.0);
            assert(rk =~= seq![k] + restk);
            assert forall|q: Seq<char>| rk.contains(q) <==> (q == k || restk.contains(q)) by {
                if rk.contains(q) {
                    let j: int = choose|j: int| 0 <= j < rk.len() && rk[j] == q;
                    if j > 0 {
                        assert(restk[j - 1] == q);
                    }
                }
                if restk.contains(q) {
                    let j: int = choose|j: int| 0 <= j < restk.len() && restk[j] == q;
                    assert(rk[j + 1] == q);
                }
                if q == k {
                    assert(rk[0] == q);
                }
            }
        }
        let nv = if i < 0 { r[0].1 } else { spec_merge(l[i].1, r[0].1)->Ok_0 };
        let nl = if i < 0 { l.push((k, nv)) } else { l.update(i, (k, nv)) };
        assert(spec_merge_entries(l, r) == spec_merge_entries(nl, rest));
        lemma_merge_entries_keys(nl, rest);
        let lk = l.map_values(|e: (Seq<char>, VarTree)| e.0);
        let nlk = nl.map_values(|e: (Seq<char>, VarTree)| e.0);
        if i < 0 {
            assert(nlk =~= lk.push(k));
        } else {
            assert(nlk =~= lk.update(i, k));
            assert(lk[i] == k);
        }
        assert(entry_keys(nl) =~= entry_keys(l).insert(k)) by {
            assert forall|q: Seq<char>| nlk.contains(q) <==> (q == k || lk.contains(q)) by {
                if nlk.contains(q) {
                    let j: int = choose|j: int| 0 <= j < nlk.len() && nlk[j] == q;
                    if j < lk.len() && j != i {
                        assert(lk[j] == q);
                    }
                }
                if lk.contains(q) {
                    let j: int = choose|j: int| 0 <= j < lk.len() && lk[j] == q;
                    if j != i {
                        assert(nlk[j] == q);
                    } else {
                        assert(nlk[i] == q);
                    }
                }
                if q == k {
                    if i < 0 {
                        assert(nlk[lk.len() as int] == q);
                    } else {
                        assert(nlk[i] == q);
                    }
                }
            }
        }
        assert forall|q: Seq<char>| !entry_keys(r).contains(q) implies #[trigger] object_get(nl, q) == object_get(l, q) by {
            lemma_object_get_other(l, k, nv, q);
        }
    }
}

/// Merging two lists concatenates them.
pub proof fn lemma_merge_lists(l: Seq<VarTree>, r: Seq<VarTree>)
    ensures
        spec_merge(VarTree::List(l), VarTree::List(r)) == Ok::<VarTree, VarsFault>(VarTree::List(l + r)),
{
}


/// The tree after writing `x` at the path written in `path` (read as
/// `parse_path_simple` reads it).
pub open spec fn spec_assign_text(v: VarTree, path: Seq<char>, x: VarTree) -> Result<VarTree, SubstFault> {
    match spec_path(VarTree::Null, path, 0, PathParseState::Start, Seq::empty(), Seq::empty()) {
        Ok((steps, _)) => match spec_assign(v, steps, x) {
            Ok(t) => Ok(t),
            Err(e) => Err(SubstFault::Vars(e)),
        },
        Err(e) => Err(e),
    }
}

/// The path written in `path`, if it reads, has no index of `usize::MAX`.
pub open spec fn path_text_bounded(path: Seq<char>) -> bool {
    match spec_path(VarTree::Null, path, 0, PathParseState::Start, Seq::empty(), Seq::empty()) {
        Ok((steps, _)) => indices_bounded(steps),
        Err(_) => true,
    }
}

/// The tree built by writing each (path, value) of `list` in turn into
/// `Null`, or the first error met.
pub open spec fn spec_from_list(list: Seq<(Seq<char>, VarTree)>) -> Result<VarTree, SubstFault>
    decreases list.len(),
{
    if list.len() == 0 {
        Ok(VarTree::Null)
    } else {
        match spec_from_list(list.drop_last()) {
            Ok(v) => spec_assign_text(v, list.last().0, list.last().1),
            Err(e) => Err(e),
        }
    }
}

/// `assign` with a path text: a path that does not read gives the reading
/// error and writes nothing; a path that reads to `steps` writes as
/// `assign_path` with those steps, its error wrapped.
pub proof fn lemma_assign_text_reads_then_writes(v: VarTree, path: Seq<char>, x: VarTree)
    ensures
        match spec_path(VarTree::Null, path, 0, PathParseState::Start, Seq::empty(), Seq::empty()) {
            Err(e) => spec_assign_text(v, path, x) == Err::<VarTree, SubstFault>(e),
            Ok((steps, _)) => match spec_assign(v, steps, x) {
                Ok(t) => spec_assign_text(v, path, x) == Ok::<VarTree, SubstFault>(t),
                Err(f) => spec_assign_text(v, path, x) == Err::<VarTree, SubstFault>(SubstFault::Vars(f)),
            },
        },
{
}

/// Building a tree from a list starts from `Null` and writes the pairs in
/// turn; one more pair is one more write after the others, and the first
/// failing write decides the error.
pub proof fn lemma_from_list_step(list: Seq<(Seq<char>, VarTree)>, path: Seq<char>, x: VarTree)
    ensures
        spec_from_list(Seq::empty()) == Ok::<VarTree, SubstFault>(VarTree::Null),
        spec_from_list(list.push((path, x))) == match spec_from_list(list) {
            Ok(v) => spec_assign_text(v, path, x),
            Err(e) => Err::<VarTree, SubstFault>(e),
        },
{
    assert(list.push((path, x)).drop_last() =~= list);
}

/// Model of a list of (path, value) pairs.
pub open spec fn assigns_view(list: Seq<(&str, Value)>) -> Seq<(Seq<char>, VarTree)> {
    Seq::new(list.len(), |i: int| (list[i].0@, list[i].1@))
}

/// Model of a list of (path, text) pairs, the texts as string values.
pub open spec fn string_assigns_view(list: Seq<(&str, &str)>) -> Seq<(Seq<char>, VarTree)> {
    Seq::new(list.len(), |i: int| (list[i].0@, VarTree::Text(list[i].1@)))
}

/// The model of entries after replacing entry `i`.
pub proof fn lemma_entries_view_update(es: Seq<(String, Value)>, i: int, e: (String, Value))
    requires
        0 <= i < es.len(),
    ensures
        entries_view(es.update(i, e)) == entries_view(es).update(i, (e.0@, value_view(e.1))),
{
    lemma_entries_view(es);
    lemma_entries_view(es.update(i, e));
    assert(entries_view(es.update(i, e)) =~= entries_view(es).update(i, (e.0@, value_view(e.1))));
}

/// The model of entries after appending one.
pub proof fn lemma_entries_view_push(es: Seq<(String, Value)>, e: (String, Value))
    ensures
        entries_view(es.push(e)) == entries_view(es).push((e.0@, value_view(e.1))),
{
    lemma_entries_view(es);
    lemma_entries_view(es.push(e));
    assert(entries_view(es.push(e)) =~= entries_view(es).push((e.0@, value_view(e.1))));
}

/// The model of items after replacing item `i`.
pub proof fn lemma_list_view_update(vs: Seq<Value>, i: int, v: Value)
    requires
        0 <= i < vs.len(),
    ensures
        list_view(vs.update(i, v)) == list_view(vs).update(i, value_view(v)),
{
    lemma_list_view(vs);
    lemma_list_view(vs.update(i, v));
    assert(list_view(vs.update(i, v)) =~= list_view(vs).update(i, value_view(v)));
}

/// The model of items after appending one.
pub proof fn lemma_list_view_push(vs: Seq<Value>, v: Value)
    ensures
        list_view(vs.push(v)) == list_view(vs).push(value_view(v)),
{
    lemma_list_view(vs);
    lemma_list_view(vs.push(v));
    assert(list_view(vs.push(v)) =~= list_view(vs).push(value_view(v)));
}

/// Index of the first entry holding `key`, as `first_key_index`.
pub fn find_key(entries: &Vec<(String, Value)>, key: &String) -> (r: Option<usize>)
    ensures
        match r {
            Some(i) => first_key_index(entries_view(entries@), key@) == i as int,
            None => first_key_index(entries_view(entries@), key@) == -1,
        },
{
    proof {
        lemma_entries_view(entries@);
    }
    let ghost ev = entries_view(entries@);
    let mut i: usize = 0;
    while i < entries.len()
        invariant
            i <= entries@.len(),
            ev == entries_view(entries@),
            ev.len() == entries@.len(),
            forall|j: int| 0 <= j < entries@.len() ==> #[trigger] ev[j] == (entries@[j].0@, value_view(entries@[j].1)),
            forall|j: int| 0 <= j < i ==> ev[j].0 != key@,
        decreases entries.len() - i,
    {
        if entries[i].0 == *key {
            proof {
                lemma_first_key_index_unique(ev, key@, i as int);
            }
            return Some(i);
        }
        assert(ev[i as int].0 != key@);
        i = i + 1;
    }
    proof {
        lemma_first_key_index_unique(ev, key@, i as int);
    }
    None
}

impl Path {
    /// Appends an object key to the path.
    pub fn key(&mut self, key: String)
        ensures
            final(self).items@ == old(self).items@.push(PathItem::Key(key)),
    {
        self.items.push(PathItem::Key(key));
    }

    /// Appends a list index to the path.
    pub fn index(&mut self, index: usize)
        ensures
            final(self).items@ == old(self).items@.push(PathItem::Index(index)),
    {
        self.items.push(PathItem::Index(index));
    }
}


/// Marks types that convert into variables.
pub trait IntoVar {}

impl Default for Value {
    fn default() -> (r: Value)
        ensures
            r@ == VarTree::Null,
    {
        Value::Null
    }
}

impl From<()> for Value {
    fn from(v: ()) -> (r: Value) {
        Value::Null
    }
}

impl vstd::std_specs::convert::FromSpecImpl<()> for Value {
    open spec fn obeys_from_spec() -> bool {
        true
    }

    open spec fn from_spec(v: ()) -> Value {
        Value::Null
    }
}

impl From<String> for Value {
    fn from(s: String) -> (r: Value) {
        Value::String(s)
    }
}

impl vstd::std_specs::convert::FromSpecImpl<String> for Value {
    open spec fn obeys_from_spec() -> bool {
        true
    }

    open spec fn from_spec(s: String) -> Value {
        Value::String(s)
    }
}

impl From<bool> for Value {
    fn from(b: bool) -> (r: Value) {
        Value::Bool(b)
    }
}

impl vstd::std_specs::convert::FromSpecImpl<bool> for Value {
    open spec fn obeys_from_spec() -> bool {
        true
    }

    open spec fn from_spec(b: bool) -> Value {
        Value::Bool(b)
    }
}

impl From<i64> for Value {
    fn from(i: i64) -> (r: Value) {
        Value::Integer(i)
    }
}

impl vstd::std_specs::convert::FromSpecImpl<i64> for Value {
    open spec fn obeys_from_spec() -> bool {
        true
    }

    open spec fn from_spec(i: i64) -> Value {
        Value::Integer(i)
    }
}

impl From<Vec<Value>> for Value {
    fn from(v: Vec<Value>) -> (r: Value) {
        Value::List(v)
    }
}

impl vstd::std_specs::convert::FromSpecImpl<Vec<Value>> for Value {
    open spec fn obeys_from_spec() -> bool {
        true
    }

    open spec fn from_spec(v: Vec<Value>) -> Value {
        Value::List(v)
    }
}

impl From<Vec<(String, Value)>> for Value {
    fn from(v: Vec<(String, Value)>) -> (r: Value) {
        Value::Object(v)
    }
}

impl vstd::std_specs::convert::FromSpecImpl<Vec<(String, Value)>> for Value {
    open spec fn obeys_from_spec() -> bool {
        true
    }

    open spec fn from_spec(v: Vec<(String, Value)>) -> Value {
        Value::Object(v)
    }
}

impl From<Vec<String>> for Value {
    fn from(v: Vec<String>) -> (r: Value)
        ensures
            r@ == VarTree::List(v@.map_values(|s: String| VarTree::Text(s@))),
    {
        Value::from_strings(&v)
    }
}

impl vstd::std_specs::convert::FromSpecImpl<Vec<String>> for Value {
    open spec fn obeys_from_spec() -> bool {
        false
    }

    open spec fn from_spec(v: Vec<String>) -> Value {
        Value::Null
    }
}

impl Default for Path {
    fn default() -> (r: Path)
        ensures
            r.items@ == Seq::<PathItem>::empty(),
    {
        Path { items: Vec::new() }
    }
}


/// `r` with `p` put in front of its text.
pub open spec fn prefixed(p: Seq<char>, r: Result<Seq<char>, SubstFault>) -> Result<Seq<char>, SubstFault> {
    match r {
        Ok(x) => Ok(p + x),
        Err(e) => Err(e),
    }
}

fn push_dollars(res: &mut String, n: usize)
    ensures
        final(res)@ == old(res)@ + dollars(n as nat),
{
    let mut i: usize = 0;
    while i < n
        invariant
            i <= n,
            res@ == old(res)@ + dollars(i as nat),
        decreases n - i,
    {
        string_push(res, '$');
        i = i + 1;
        assert(res@ =~= old(res)@ + dollars(i as nat));
    }
}

fn extend_chars(v: &mut Vec<char>, t: &String)
    ensures
        final(v)@ == old(v)@ + t@,
{
    let cs = str_chars(t.as_str());
    for i in 0..cs.len()
        invariant
            cs@ == t@,
            v@ == old(v)@ + cs@.take(i as int),
    {
        v.push(cs[i]);
        assert(v@ =~= old(v)@ + cs@.take(i + 1));
    }
    assert(cs@.take(cs@.len() as int) =~= cs@);
}

proof fn lemma_steps_view_push(items: Seq<PathItem>, it: PathItem)
    ensures
        steps_view(items.push(it)) == steps_view(items).push(it@),
{
    assert(steps_view(items.push(it)) =~= steps_view(items).push(it@));
}

/// Reads the expression that starts with the `$` at `pos` (see `spec_expr`).
fn try_parse_expr(vars: &Value, cs: &Vec<char>, pos: usize) -> (r: Result<(String, usize), SubstitutionError>)
    requires
        pos < cs@.len(),
        cs@[pos as int] == '$',
    ensures
        match r {
            Ok((t, p)) => spec_expr(vars@, cs@, pos as int) == Ok::<(Seq<char>, int), SubstFault>((t@, p as int)),
            Err(e) => spec_expr(vars@, cs@, pos as int) == Err::<(Seq<char>, int), SubstFault>(e@),
        },
    decreases cs@.len() - pos, 0int,
{
    let mut q: usize = pos;
    while q < cs.len() && cs[q] == '$'
        invariant
            pos <= q <= cs@.len(),
            dollar_run(cs@, pos as int) == (q - pos) + dollar_run(cs@, q as int),
        decreases cs@.len() - q,
    {
        q = q + 1;
    }
    let n: usize = q - pos;
    assert(dollar_run(cs@, q as int) == 0);
    assert(n >= 1);
    let mut res = String::new();
    if q < cs.len() && cs[q] == '{' {
        if n == 1 {
            match parse_path(vars, cs, q + 1) {
                Ok((path, p)) => {
                    match vars.get_string(path) {
                        Ok(t) => {
                            if p < cs.len() && cs[p] == '}' {
                                Ok((t, p + 1))
                            } else {
                                Err(SubstitutionError::MissingClosingBracket)
                            }
                        },
                        Err(e) => Err(SubstitutionError::VarsError(e)),
                    }
                },
                Err(e) => Err(e),
            }
        } else {
            push_dollars(&mut res, n - 1);
            assert(res@ =~= dollars((n - 1) as nat));
            Ok((res, q))
        }
    } else {
        push_dollars(&mut res, n);
        assert(res@ =~= dollars(n as nat));
        Ok((res, q))
    }
}

/// Reads the path that starts at `start` (see `spec_path`).
fn parse_path(vars: &Value, cs: &Vec<char>, start: usize) -> (r: Result<(Path, usize), SubstitutionError>)
    requires
        start <= cs@.len(),
    ensures
        match r {
            Ok((path, p)) => spec_path(vars@, cs@, start as int, PathParseState::Start, Seq::empty(), Seq::empty())
                == Ok::<(Seq<Step>, int), SubstFault>((path@, p as int)),
            Err(e) => spec_path(vars@, cs@, start as int, PathParseState::Start, Seq::empty(), Seq::empty())
                == Err::<(Seq<Step>, int), SubstFault>(e@),
        },
    decreases cs@.len() - start, 2int,
{
    let mut st = PathParseState::Start;
    let mut path = Path { items: Vec::new() };
    let mut current: Vec<char> = Vec::new();
    let mut pos: usize = start;
    assert(steps_view(path.items@) =~= Seq::<Step>::empty());
    loop
        invariant
            start <= pos <= cs@.len(),
            spec_path(vars@, cs@, start as int, PathParseState::Start, Seq::empty(), Seq::empty())
                == spec_path(vars@, cs@, pos as int, st, path@, current@),
        decreases cs@.len() - pos, if st == PathParseState::Start { 2int } else { 1int },
    {
        match st {
            PathParseState::Start => {
                if pos == cs.len() {
                    return Ok((path, pos));
                } else if cs[pos] == '[' {
                    pos = pos + 1;
                    st = PathParseState::Index;
                } else if cs[pos] == '}' {
                    return Ok((path, pos));
                } else {
                    st = PathParseState::Key;
                }
            },
            PathParseState::Key => {
                if pos == cs.len() {
                    let k = string_from_chars(&current);
                    proof {
                        lemma_steps_view_push(path.items@, PathItem::Key(k));
                    }
                    path.key(k);
                    return Ok((path, pos));
                }
                let c = cs[pos];
                if c == '.' || c == '[' || c == '}' {
                    let k = string_from_chars(&current);
                    proof {
                        lemma_steps_view_push(path.items@, PathItem::Key(k));
                    }
                    path.key(k);
                    current = Vec::new();
                    if c == '}' {
                        return Ok((path, pos));
                    }
                    pos = pos + 1;
                    if c == '[' {
                        st = PathParseState::Index;
                    }
                    assert(current@ =~= Seq::<char>::empty());
                } else if c == '$' {
                    proof {
                        lemma_expr_advances(vars@, cs@, pos as int);
                    }
                    match try_parse_expr(vars, cs, pos) {
                        Ok((t, p)) => {
                            extend_chars(&mut current, &t);
                            pos = p;
                        },
                        Err(e) => {
                            return Err(e);
                        },
                    }
                } else {
                    current.push(c);
                    pos = pos + 1;
                }
            },
            PathParseState::Index => {
                if pos == cs.len() {
                    return Err(SubstitutionError::MissingClosingBracket);
                }
                let c = cs[pos];
                if c == ']' {
                    match parse_unsigned(&current, usize::MAX as u64) {
                        Ok(n) => {
                            let it = PathItem::Index(n as usize);
                            proof {
                                lemma_steps_view_push(path.items@, it);
                            }
                            path.index(n as usize);
                            current = Vec::new();
                            assert(current@ =~= Seq::<char>::empty());
                            pos = pos + 1;
                            st = PathParseState::Start;
                        },
                        Err(e) => {
                            return Err(SubstitutionError::ParseIndexError(e));
                        },
                    }
                } else if c == '$' {
                    proof {
                        lemma_expr_advances(vars@, cs@, pos as int);
                    }
                    match try_parse_expr(vars, cs, pos) {
                        Ok((t, p)) => {
                            extend_chars(&mut current, &t);
                            pos = p;
                        },
                        Err(e) => {
                            return Err(e);
                        },
                    }
                } else {
                    current.push(c);
                    pos = pos + 1;
                }
            },
        }
    }
}

/// Substitutes every expression of the text from `pos` on (see `spec_raw`).
fn parse_raw(vars: &Value, cs: &Vec<char>) -> (r: Result<String, SubstitutionError>)
    ensures
        match r {
            Ok(t) => spec_raw(vars@, cs@, 0) == Ok::<Seq<char>, SubstFault>(t@),
            Err(e) => spec_raw(vars@, cs@, 0) == Err::<Seq<char>, SubstFault>(e@),
        },
{
    let mut res = String::new();
    let mut pos: usize = 0;
    assert(spec_raw(vars@, cs@, 0) == prefixed(res@, spec_raw(vars@, cs@, 0))) by {
        match spec_raw(vars@, cs@, 0) {
            Ok(x) => {
                assert(res@ + x =~= x);
            },
            Err(e) => {},
        }
    }
    while pos < cs.len()
        invariant
            pos <= cs@.len(),
            spec_raw(vars@, cs@, 0) == prefixed(res@, spec_raw(vars@, cs@, pos as int)),
        decreases cs@.len() - pos,
    {
        let ghost before = res@;
        if cs[pos] == '$' {
            proof {
                lemma_expr_advances(vars@, cs@, pos as int);
            }
            match try_parse_expr(vars, cs, pos) {
                Ok((t, p)) => {
                    res.append(t.as_str());
                    proof {
                        match spec_raw(vars@, cs@, p as int) {
                            Ok(x) => {
                                assert(before + (t@ + x) =~= res@ + x);
                            },
                            Err(e) => {},
                        }
                    }
                    pos = p;
                },
                Err(e) => {
                    return Err(e);
                },
            }
        } else {
            let c = cs[pos];
            string_push(&mut res, c);
            proof {
                match spec_raw(vars@, cs@, pos + 1) {
                    Ok(x) => {
                        assert(before + (seq![c] + x) =~= res@ + x);
                    },
                    Err(e) => {},
                }
            }
            pos = pos + 1;
        }
    }
    assert(res@ + Seq::<char>::empty() =~= res@);
    Ok(res)
}

/// `text` with its expressions replaced by the variables of `vars`
/// (see `spec_substitute`).
pub fn substitute_vars(vars: &Value, text: &str) -> (r: Result<String, SubstitutionError>)
    ensures
        match r {
            Ok(t) => spec_substitute(vars@, text@) == Ok::<Seq<char>, SubstFault>(t@),
            Err(e) => spec_substitute(vars@, text@) == Err::<Seq<char>, SubstFault>(e@),
        },
{
    let cs = str_chars(text);
    parse_raw(vars, &cs)
}

/// The path written in `path` (the part of an expression between `${`
/// and `}`); it holds no expression, every `$` in it standing for a
/// reference into an empty variable tree.
pub fn parse_path_simple(path: &str) -> (r: Result<Path, SubstitutionError>)
    ensures
        match r {
            Ok(p) => spec_path(VarTree::Null, path@, 0, PathParseState::Start, Seq::empty(), Seq::empty()) matches Ok((steps, _))
                && p@ == steps,
            Err(e) => spec_path(VarTree::Null, path@, 0, PathParseState::Start, Seq::empty(), Seq::empty())
                == Err::<(Seq<Step>, int), SubstFault>(e@),
        },
{
    let cs = str_chars(path);
    let vars = Value::Null;
    match parse_path(&vars, &cs, 0) {
        Ok((p, _)) => Ok(p),
        Err(e) => Err(e),
    }
}


proof fn lemma_entries_view_drop_first(es: Seq<(String, Value)>)
    requires
        es.len() > 0,
    ensures
        entries_view(es.drop_first()) == entries_view(es).drop_first(),
        entries_view(es)[0] == (es[0].0@, value_view(es[0].1)),
{
    lemma_entries_view(es);
    lemma_entries_view(es.drop_first());
    assert(entries_view(es.drop_first()) =~= entries_view(es).drop_first());
}

proof fn lemma_list_view_append(a: Seq<Value>, b: Seq<Value>)
    ensures
        list_view(a + b) == list_view(a) + list_view(b),
{
    lemma_list_view(a);
    lemma_list_view(b);
    lemma_list_view(a + b);
    assert(list_view(a + b) =~= list_view(a) + list_view(b));
}

/// Merges the entries `r` into the object entries `l` (see
/// `spec_merge_entries`).
fn merge_entries(l: Vec<(String, Value)>, r: Vec<(String, Value)>) -> (res: Result<Value, SubstitutionError>)
    ensures
        match res {
            Ok(v) => spec_merge_entries(entries_view(l@), entries_view(r@)) == Ok::<VarTree, VarsFault>(v@),
            Err(e) => spec_merge_entries(entries_view(l@), entries_view(r@)) matches Err(f) && e@ == SubstFault::Vars(f),
        },
    decreases entries_size(entries_view(r@)), 1int,
{
    if r.len() == 0 {
        proof {
            lemma_entries_view(r@);
        }
        return Ok(Value::Object(l));
    }
    let ghost r0 = r@;
    let ghost l0 = l@;
    let mut r = r;
    let mut l = l;
    proof {
        lemma_entries_view_drop_first(r0);
    }
    let (k, v) = r.remove(0);
    assert(r@ == r0.drop_first());
    proof {
        lemma_first_key_index(entries_view(l0), k@);
        lemma_entries_view(l0);
    }
    match find_key(&l, &k) {
        Some(j) => {
            let (kk, cur) = l.remove(j);
            assert(entries_size(entries_view(r0)) >= tree_size(v@));
            match cur.merge(v) {
                Ok(m) => {
                    l.insert(j, (k, m));
                    proof {
                        assert(l@ =~= l0.update(j as int, (k, m)));
                        lemma_entries_view_update(l0, j as int, (k, m));
                    }
                    merge_entries(l, r)
                },
                Err(e) => Err(e),
            }
        },
        None => {
            proof {
                lemma_entries_view_push(l0, (k, v));
            }
            l.push((k, v));
            assert(tree_size(v@) >= 1);
            assert(entries_size(entries_view(r@)) < entries_size(entries_view(r0)));
            merge_entries(l, r)
        },
    }
}


/// Once building from a list fails at some entry, it fails with the same
/// error for every longer prefix.
proof fn lemma_from_list_err(list: Seq<(Seq<char>, VarTree)>, n: int)
    requires
        0 <= n <= list.len(),
        spec_from_list(list.take(n)) is Err,
    ensures
        spec_from_list(list) == spec_from_list(list.take(n)),
    decreases list.len() - n,
{
    if n < list.len() {
        assert(list.take(n + 1).drop_last() =~= list.take(n));
        lemma_from_list_err(list, n + 1);
    } else {
        assert(list.take(n) =~= list);
    }
}

fn static_text(s: &str) -> (r: String)
    ensures
        r@ == s@,
{
    str_to_string(s)
}

fn clone_entries(es: &Vec<(String, Value)>) -> (out: Vec<(String, Value)>)
    ensures
        entries_view(out@) == entries_view(es@),
    decreases es,
{
    let mut out: Vec<(String, Value)> = Vec::new();
    proof {
        lemma_entries_view(es@);
    }
    for i in 0..es.len()
        invariant
            out@.len() == i,
            forall|j: int| 0 <= j < i ==> (#[trigger] out@[j]).0@ == es@[j].0@ && value_view(out@[j].1) == value_view(es@[j].1),
    {
        proof {
            assert(decreases_to!(*es => es[i as int]));
            assert(decreases_to!(es[i as int] => es[i as int].1));
        }
        let k = es[i].0.clone();
        let v = es[i].1.deep_clone();
        out.push((k, v));
    }
    proof {
        lemma_entries_view(out@);
        assert(entries_view(out@) =~= entries_view(es@));
    }
    out
}

fn clone_list(vs: &Vec<Value>) -> (out: Vec<Value>)
    ensures
        list_view(out@) == list_view(vs@),
    decreases vs,
{
    let mut out: Vec<Value> = Vec::new();
    proof {
        lemma_list_view(vs@);
    }
    for i in 0..vs.len()
        invariant
            out@.len() == i,
            forall|j: int| 0 <= j < i ==> value_view(#[trigger] out@[j]) == value_view(vs@[j]),
    {
        proof {
            assert(decreases_to!(*vs => vs[i as int]));
        }
        let v = vs[i].deep_clone();
        out.push(v);
    }
    proof {
        lemma_list_view(out@);
        assert(list_view(out@) =~= list_view(vs@));
    }
    out
}

/// `v` with the value that `items` leads to replaced by `x`; where the
/// path leads nowhere, `v` unchanged.
pub open spec fn spec_put(v: VarTree, items: Seq<Step>, x: VarTree) -> VarTree
    decreases items.len(),
{
    if items.len() == 0 {
        x
    } else {
        match items[0] {
            Step::Key(key) => match v {
                VarTree::Object(entries) => {
                    let i = first_key_index(entries, key);
                    if 0 <= i < entries.len() {
                        VarTree::Object(entries.update(i, (entries[i].0, spec_put(entries[i].1, items.drop_first(), x))))
                    } else {
                        v
                    }
                },
                _ => v,
            },
            Step::Index(index) => match v {
                VarTree::List(values) => if index < values.len() {
                    VarTree::List(values.update(index as int, spec_put(values[index as int], items.drop_first(), x)))
                } else {
                    v
                },
                _ => v,
            },
        }
    }
}

/// `lemma_entries_view_update` for every replacement entry at once.
proof fn lemma_entries_view_update_any(es: Seq<(String, Value)>, i: int)
    requires
        0 <= i < es.len(),
    ensures
        forall|e: (String, Value)| #[trigger] entries_view(es.update(i, e)) == entries_view(es).update(i, (e.0@, value_view(e.1))),
{
    assert forall|e: (String, Value)| #[trigger] entries_view(es.update(i, e)) == entries_view(es).update(i, (e.0@, value_view(e.1))) by {
        lemma_entries_view_update(es, i, e);
    }
}

/// `lemma_list_view_update` for every replacement item at once.
proof fn lemma_list_view_update_any(vs: Seq<Value>, i: int)
    requires
        0 <= i < vs.len(),
    ensures
        forall|v: Value| #[trigger] list_view(vs.update(i, v)) == list_view(vs).update(i, value_view(v)),
{
    assert forall|v: Value| #[trigger] list_view(vs.update(i, v)) == list_view(vs).update(i, value_view(v)) by {
        lemma_list_view_update(vs, i, v);
    }
}

/// The second half of pair `j`, lent out for writing.
fn pair_value_mut<'a>(values: &'a mut Vec<(String, Value)>, j: usize) -> (r: &'a mut Value)
    requires
        j < old(values)@.len(),
    ensures
        *r == old(values)@[j as int].1,
        final(values)@ == old(values)@.update(j as int, (old(values)@[j as int].0, *final(r))),
        entries_view(final(values)@) == entries_view(old(values)@).update(
            j as int,
            (old(values)@[j as int].0@, (*final(r))@),
        ),
        (*final(r))@ == (*r)@ ==> entries_view(final(values)@) == entries_view(old(values)@),
{
    let ghost es = entries_view(values@);
    proof {
        lemma_entries_view_update_any(values@, j as int);
        lemma_entries_view(values@);
        assert forall|x: VarTree| x == es[j as int].1 implies #[trigger] es.update(j as int, (es[j as int].0, x)) == es by {
            assert(es.update(j as int, (es[j as int].0, x)) =~= es);
        }
    }
    &mut values[j].1
}

/// Item `j`, lent out for writing.
fn vec_item_mut<'a>(values: &'a mut Vec<Value>, j: usize) -> (r: &'a mut Value)
    requires
        j < old(values)@.len(),
    ensures
        *r == old(values)@[j as int],
        final(values)@ == old(values)@.update(j as int, *final(r)),
        list_view(final(values)@) == list_view(old(values)@).update(j as int, (*final(r))@),
        (*final(r))@ == (*r)@ ==> list_view(final(values)@) == list_view(old(values)@),
{
    let ghost ls = list_view(values@);
    proof {
        lemma_list_view_update_any(values@, j as int);
        lemma_list_view(values@);
        assert forall|x: VarTree| x == ls[j as int] implies #[trigger] ls.update(j as int, x) == ls by {
            assert(ls.update(j as int, x) =~= ls);
        }
    }
    &mut values[j]
}

/// The entries of an object, lent out for writing.
fn object_entries_mut<'a>(v: &'a mut Value) -> (r: &'a mut Vec<(String, Value)>)
    requires
        *old(v) is Object,
    ensures
        *r == (*old(v))->Object_0,
        *final(v) == Value::Object(*final(r)),
{
    match v {
        Value::Object(values) => values,
        _ => vstd::pervasive::unreached(),
    }
}

/// The items of a list, lent out for writing.
fn list_items_mut<'a>(v: &'a mut Value) -> (r: &'a mut Vec<Value>)
    requires
        *old(v) is List,
    ensures
        *r == (*old(v))->List_0,
        *final(v) == Value::List(*final(r)),
{
    match v {
        Value::List(values) => values,
        _ => vstd::pervasive::unreached(),
    }
}

/// The value of entry `j` of an object, lent out for writing.
fn entry_value_mut<'a>(v: &'a mut Value, j: usize) -> (r: &'a mut Value)
    requires
        *old(v) is Object,
        j < (*old(v))->Object_0@.len(),
    ensures
        *r == (*old(v))->Object_0@[j as int].1,
        final(v)@ == VarTree::Object(entries_view((*old(v))->Object_0@).update(
            j as int,
            ((*old(v))->Object_0@[j as int].0@, (*final(r))@),
        )),
        (*final(r))@ == (*r)@ ==> final(v)@ == old(v)@,
{
    let values = object_entries_mut(v);
    pair_value_mut(values, j)
}

/// Item `j` of a list, lent out for writing.
fn item_mut<'a>(v: &'a mut Value, j: usize) -> (r: &'a mut Value)
    requires
        *old(v) is List,
        j < (*old(v))->List_0@.len(),
    ensures
        *r == (*old(v))->List_0@[j as int],
        final(v)@ == VarTree::List(list_view((*old(v))->List_0@).update(j as int, (*final(r))@)),
        (*final(r))@ == (*r)@ ==> final(v)@ == old(v)@,
{
    let values = list_items_mut(v);
    vec_item_mut(values, j)
}

/// The value that `items[i..]` leads to from `v`, lent out for writing.
fn get_mut_from<'a>(v: &'a mut Value, items: &Vec<PathItem>, i: usize) -> (r: Result<&'a mut Value, VarsError>)
    requires
        i <= items@.len(),
    ensures
        match r {
            Ok(m) => spec_get(old(v)@, steps_view(items@).skip(i as int)) == Ok::<VarTree, VarsFault>((*m)@)
                && final(v)@ == spec_put(old(v)@, steps_view(items@).skip(i as int), (*final(m))@),
            Err(e) => spec_get(old(v)@, steps_view(items@).skip(i as int)) == Err::<VarTree, VarsFault>(e@)
                && final(v)@ == old(v)@,
        },
    decreases items@.len() - i,
{
    if i == items.len() {
        assert(steps_view(items@).skip(i as int) =~= Seq::<Step>::empty());
        return Ok(v);
    }
    let ghost rest = steps_view(items@).skip(i as int);
    assert(rest[0] == items@[i as int]@);
    assert(rest.drop_first() =~= steps_view(items@).skip(i + 1));
    match &items[i] {
        PathItem::Key(key) => {
            let found = match &*v {
                Value::Object(values) => {
                    proof {
                        lemma_first_key_index(entries_view(values@), key@);
                        lemma_entries_view(values@);
                    }
                    match find_key(values, key) {
                        Some(j) => Ok(j),
                        None => Err(VarsError::NoSuchKey { key: key.clone() }),
                    }
                },
                _ => Err(VarsError::NotAnObject { key: key.clone() }),
            };
            match found {
                Ok(j) => {
                    let child = entry_value_mut(v, j);
                    get_mut_from(child, items, i + 1)
                },
                Err(e) => Err(e),
            }
        },
        PathItem::Index(index) => {
            let ok = match &*v {
                Value::List(values) => {
                    proof {
                        lemma_list_view(values@);
                    }
                    if values.len() <= *index {
                        Err(VarsError::OutOfBounds { index: *index })
                    } else {
                        Ok(())
                    }
                },
                _ => Err(VarsError::NotAList { index: *index }),
            };
            match ok {
                Ok(()) => {
                    let child = item_mut(v, *index);
                    get_mut_from(child, items, i + 1)
                },
                Err(e) => Err(e),
            }
        },
    }
}

impl Value {
    /// A list of string values.
    pub fn from_strings(v: &Vec<String>) -> (r: Value)
        ensures
            r@ == VarTree::List(v@.map_values(|s: String| VarTree::Text(s@))),
    {
        let mut out: Vec<Value> = Vec::new();
        for i in 0..v.len()
            invariant
                out@.len() == i,
                forall|j: int| 0 <= j < i ==> value_view(#[trigger] out@[j]) == VarTree::Text(v@[j]@),
        {
            out.push(Value::String(v[i].clone()));
        }
        proof {
            lemma_list_view(out@);
            assert(list_view(out@) =~= v@.map_values(|s: String| VarTree::Text(s@)));
        }
        Value::List(out)
    }

    /// `text` with its expressions replaced by this value's variables
    /// (see `spec_substitute`).
    pub fn eval(&self, text: &str) -> (r: Result<String, SubstitutionError>)
        ensures
            match r {
                Ok(t) => spec_substitute(self@, text@) == Ok::<Seq<char>, SubstFault>(t@),
                Err(e) => spec_substitute(self@, text@) == Err::<Seq<char>, SubstFault>(e@),
            },
    {
        substitute_vars(self, text)
    }

    /// Writes `value` at the path written in `path`; on error the value
    /// is left as it was.
    pub fn assign(&mut self, path: &str, value: Value) -> (r: Result<(), SubstitutionError>)
        requires
            path_text_bounded(path@),
        ensures
            match r {
                Ok(()) => spec_assign_text(old(self)@, path@, value@) == Ok::<VarTree, SubstFault>(final(self)@),
                Err(e) => spec_assign_text(old(self)@, path@, value@) == Err::<VarTree, SubstFault>(e@)
                    && final(self)@ == old(self)@,
            },
    {
        let p = match parse_path_simple(path) {
            Ok(p) => p,
            Err(e) => {
                return Err(e);
            },
        };
        match self.assign_path(p, value) {
            Ok(()) => Ok(()),
            Err(e) => Err(SubstitutionError::VarsError(e)),
        }
    }

    /// The tree built by writing each (path, value) in turn into `Null`
    /// (see `spec_from_list`).
    pub fn from_list(assignes: &[(&str, Value)]) -> (r: Result<Value, SubstitutionError>)
        requires
            forall|i: int| 0 <= i < assignes@.len() ==> path_text_bounded(#[trigger] assignes@[i].0@),
        ensures
            match r {
                Ok(v) => spec_from_list(assigns_view(assignes@)) == Ok::<VarTree, SubstFault>(v@),
                Err(e) => spec_from_list(assigns_view(assignes@)) == Err::<VarTree, SubstFault>(e@),
            },
    {
        let mut vars = Value::Null;
        let mut i: usize = 0;
        assert(assigns_view(assignes@).take(0) =~= Seq::<(Seq<char>, VarTree)>::empty());
        while i < assignes.len()
            invariant
                i <= assignes@.len(),
                forall|j: int| 0 <= j < assignes@.len() ==> path_text_bounded(#[trigger] assignes@[j].0@),
                spec_from_list(assigns_view(assignes@).take(i as int)) == Ok::<VarTree, SubstFault>(vars@),
            decreases assignes.len() - i,
        {
            let ghost prefix = assigns_view(assignes@).take(i + 1);
            assert(prefix.drop_last() =~= assigns_view(assignes@).take(i as int));
            assert(prefix.last() == (assignes@[i as int].0@, assignes@[i as int].1@));
            let (path, value) = &assignes[i];
            let v = value.deep_clone();
            match vars.assign(path, v) {
                Ok(()) => {},
                Err(e) => {
                    proof {
                        lemma_from_list_err(assigns_view(assignes@), i as int + 1);
                        assert(assigns_view(assignes@).take(assignes@.len() as int) =~= assigns_view(assignes@));
                    }
                    return Err(e);
                },
            }
            i = i + 1;
        }
        assert(assigns_view(assignes@).take(i as int) =~= assigns_view(assignes@));
        Ok(vars)
    }

    /// `from_list` with every value a string.
    pub fn from_list_strings(assignes: &[(&str, &str)]) -> (r: Result<Value, SubstitutionError>)
        requires
            forall|i: int| 0 <= i < assignes@.len() ==> path_text_bounded(#[trigger] assignes@[i].0@),
        ensures
            match r {
                Ok(v) => spec_from_list(string_assigns_view(assignes@)) == Ok::<VarTree, SubstFault>(v@),
                Err(e) => spec_from_list(string_assigns_view(assignes@)) == Err::<VarTree, SubstFault>(e@),
            },
    {
        let mut nassigned: Vec<(&str, Value)> = Vec::new();
        for i in 0..assignes.len()
            invariant
                nassigned@.len() == i,
                forall|j: int| 0 <= j < i ==> (#[trigger] nassigned@[j]).0 == assignes@[j].0
                    && nassigned@[j].1@ == VarTree::Text(assignes@[j].1@),
        {
            let (path, value) = assignes[i];
            nassigned.push((path, Value::String(str_to_string(value))));
        }
        assert(assigns_view(nassigned@) =~= string_assigns_view(assignes@));
        Value::from_list(nassigned.as_slice())
    }

    /// Name of the kind of this value (see `kind_name`).
    pub fn value_name(&self) -> (r: String)
        ensures
            r@ == kind_name(self@),
    {
        match self {
            Value::Object(_) => {
                let r = static_text("object");
                proof {
                    reveal_strlit("object");
                }
                assert(r@ =~= kind_name(self@));
                r
            },
            Value::List(_) => {
                let r = static_text("list");
                proof {
                    reveal_strlit("list");
                }
                assert(r@ =~= kind_name(self@));
                r
            },
            Value::String(_) => {
                let r = static_text("string");
                proof {
                    reveal_strlit("string");
                }
                assert(r@ =~= kind_name(self@));
                r
            },
            Value::Bool(_) => {
                let r = static_text("bool");
                proof {
                    reveal_strlit("bool");
                }
                assert(r@ =~= kind_name(self@));
                r
            },
            Value::Integer(_) => {
                let r = static_text("integer");
                proof {
                    reveal_strlit("integer");
                }
                assert(r@ =~= kind_name(self@));
                r
            },
            Value::Null => {
                let r = static_text("none");
                proof {
                    reveal_strlit("none");
                }
                assert(r@ =~= kind_name(self@));
                r
            },
        }
    }

    /// `other` merged into this value (see `spec_merge`).
    pub fn merge(self, other: Value) -> (r: Result<Value, SubstitutionError>)
        ensures
            match r {
                Ok(v) => spec_merge(self@, other@) == Ok::<VarTree, VarsFault>(v@),
                Err(e) => spec_merge(self@, other@) matches Err(f) && e@ == SubstFault::Vars(f),
            },
        decreases tree_size(other@), 0int,
    {
        let a_null = match &self {
            Value::Null => true,
            _ => false,
        };
        let b_null = match &other {
            Value::Null => true,
            _ => false,
        };
        if a_null {
            return Ok(other);
        }
        if b_null {
            return Ok(self);
        }
        let an = self.value_name();
        let bn = other.value_name();
        let ghost av = self@;
        let ghost bv = other@;
        match self {
            Value::Object(l) => match other {
                Value::Object(r) => merge_entries(l, r),
                _ => Err(SubstitutionError::VarsError(VarsError::InvalidMerge(an, bn))),
            },
            Value::List(l) => match other {
                Value::List(r) => {
                    let mut l = l;
                    let mut r = r;
                    let ghost l0 = l@;
                    let ghost r0 = r@;
                    l.append(&mut r);
                    proof {
                        lemma_list_view_append(l0, r0);
                    }
                    Ok(Value::List(l))
                },
                _ => Err(SubstitutionError::VarsError(VarsError::InvalidMerge(an, bn))),
            },
            _ => Err(SubstitutionError::VarsError(VarsError::InvalidMerge(an, bn))),
        }
    }

    /// A copy of the value, equal to it in the model.
    pub fn deep_clone(&self) -> (r: Value)
        ensures
            r@ == self@,
        decreases self,
    {
        match self {
            Value::Object(es) => Value::Object(clone_entries(es)),
            Value::List(vs) => Value::List(clone_list(vs)),
            Value::String(t) => Value::String(t.clone()),
            Value::Bool(b) => Value::Bool(*b),
            Value::Integer(i) => Value::Integer(*i),
            Value::Null => Value::Null,
        }
    }

    #[verifier::rlimit(30)]
    fn assign_items(&mut self, items: &Vec<PathItem>, i: usize, value: Value) -> (r: Result<(), VarsError>)
        requires
            i <= items@.len(),
            indices_bounded(steps_view(items@)),
        ensures
            match r {
                Ok(()) => spec_assign(old(self)@, steps_view(items@).skip(i as int), value@) == Ok::<VarTree, VarsFault>(final(self)@),
                Err(e) => spec_assign(old(self)@, steps_view(items@).skip(i as int), value@) == Err::<VarTree, VarsFault>(e@)
                    && final(self)@ == old(self)@,
            },
        decreases items@.len() - i,
    {
        let ghost rest = steps_view(items@).skip(i as int);
        if i == items.len() {
            *self = value;
            return Ok(());
        }
        assert(rest[0] == items@[i as int]@);
        assert(rest.drop_first() =~= steps_view(items@).skip(i + 1));
        match &items[i] {
            PathItem::Key(key) => {
                let mut taken = Value::Null;
                std::mem::swap(self, &mut taken);
                let ghost v0 = taken@;
                assert(v0 == old(self)@);
                let was_null = match taken {
                    Value::Null => true,
                    _ => false,
                };
                if was_null {
                    taken = Value::Object(Vec::new());
                    proof {
                        assert(entries_view(Seq::<(String, Value)>::empty()) =~= Seq::<(Seq<char>, VarTree)>::empty());
                        lemma_assign_into_null(rest, value@);
                    }
                }
                match taken {
                    Value::Object(mut entries) => {
                        let ghost es0 = entries@;
                        proof {
                            lemma_entries_view(es0);
                            lemma_first_key_index(entries_view(es0), key@);
                        }
                        let idx = match find_key(&entries, key) {
                            Some(j) => j,
                            None => {
                                let k = key.clone();
                                proof {
                                    lemma_entries_view_push(entries@, (k, Value::Null));
                                }
                                entries.push((k, Value::Null));
                                proof {
                                    lemma_assign_into_null(steps_view(items@).skip(i + 1), value@);
                                }
                                entries.len() - 1
                            },
                        };
                        let ghost es1 = entries@;
                        proof {
                            lemma_entries_view(es1);
                        }
                        let (k, mut child) = entries.remove(idx);
                        let ghost child0 = child;
                        let r = child.assign_items(items, i + 1, value);
                        entries.insert(idx, (k, child));
                        proof {
                            let ev0 = entries_view(es0);
                            let fi = first_key_index(ev0, key@);
                            assert(entries@ =~= es1.update(idx as int, (k, child)));
                            lemma_entries_view_update(es1, idx as int, (k, child));
                            assert(k@ == key@);
                            if fi < 0 {
                                assert(es1 == es0.push((k, Value::Null)));
                                assert(value_view(child0) == VarTree::Null);
                                assert(entries_view(es1).update(idx as int, (k@, value_view(child))) =~= ev0.push((key@, value_view(child))));
                            } else {
                                assert(es1 == es0);
                                assert(idx == fi);
                                assert(value_view(child0) == ev0[fi].1);
                            }
                        }
                        *self = Value::Object(entries);
                        proof {
                            let ev0 = entries_view(es0);
                            assert(v0 == VarTree::Object(ev0) || v0 == VarTree::Null);
                            assert(v0 is Null ==> ev0 == Seq::<(Seq<char>, VarTree)>::empty());
                            if r is Ok {
                                let nc = value_view(child);
                                let fi = first_key_index(ev0, key@);
                                let expected = VarTree::Object(if fi < 0 { ev0.push((key@, nc)) } else { ev0.update(fi, (key@, nc)) });
                                assert(value_view(*self) == expected);
                                assert(spec_assign(v0, rest, value@) == Ok::<VarTree, VarsFault>(expected));
                            } else {
                                let fi = first_key_index(ev0, key@);
                                assert(fi >= 0);
                                assert(ev0.update(fi, (key@, value_view(child))) =~= ev0);
                                assert(value_view(*self) == v0);
                                assert(spec_assign(v0, rest, value@) == Err::<VarTree, VarsFault>(r->Err_0@));
                            }
                        }
                        r
                    },
                    other => {
                        assert(!was_null);
                        assert(other@ == v0);
                        let ghost o = other;
                        *self = other;
                        assert(value_view(*self) == v0);
                        let k = key.clone();
                        Err(VarsError::NotAnObject { key: k })
                    },
                }
            },
            PathItem::Index(index) => {
                let index = *index;
                let is_null = match self {
                    Value::Null => true,
                    _ => false,
                };
                if is_null {
                    *self = Value::List(Vec::new());
                    proof {
                        assert(list_view(Seq::<Value>::empty()) =~= Seq::<VarTree>::empty());
                        lemma_assign_into_null(rest, value@);
                    }
                }
                match self {
                    Value::List(values) => {
                        let ghost vs0 = values@;
                        assert(rest[0] == Step::Index(index));
                        assert(index < usize::MAX);
                        assert(list_view(vs0) =~= list_view(vs0) + nulls(0));
                        while values.len() <= index
                            invariant
                                vs0.len() <= values@.len(),
                                values@.len() == vs0.len() || values@.len() <= index + 1,
                                values@.len() > vs0.len() ==> vs0.len() <= index,
                                list_view(values@) == list_view(vs0) + nulls((values@.len() - vs0.len()) as nat),
                            decreases index + 1 - values@.len(),
                        {
                            proof {
                                lemma_list_view_push(values@, Value::Null);
                                assert(list_view(vs0) + nulls((values@.len() + 1 - vs0.len()) as nat) =~= (list_view(vs0) + nulls((values@.len() - vs0.len()) as nat)).push(VarTree::Null));
                            }
                            values.push(Value::Null);
                        }
                        proof {
                            lemma_list_view(values@);
                            lemma_list_view(vs0);
                            if index < vs0.len() {
                                assert(values@.len() == vs0.len());
                                assert(list_view(values@) =~= list_view(vs0));
                            } else {
                                assert(values@.len() == index + 1);
                                assert(list_view(values@) =~= extend_to(list_view(vs0), index as nat));
                            }
                            assert(list_view(values@) =~= extend_to(list_view(vs0), index as nat));
                        }
                        let ghost vs1 = values@;
                        let mut child = values.remove(index);
                        let ghost child0 = child;
                        let r = child.assign_items(items, i + 1, value);
                        values.insert(index, child);
                        proof {
                            assert(values@ =~= vs1.update(index as int, child));
                            lemma_list_view_update(vs1, index as int, child);
                            lemma_list_view(vs1);
                            assert(value_view(child0) == extend_to(list_view(vs0), index as nat)[index as int]);
                            if r is Err {
                                if index < vs0.len() {
                                    assert(list_view(vs1).update(index as int, value_view(child)) =~= list_view(vs1));
                                    assert(list_view(vs1) =~= list_view(vs0));
                                } else {
                                    assert(value_view(child0) == VarTree::Null);
                                    lemma_assign_into_null(steps_view(items@).skip(i + 1), value@);
                                }
                            }
                        }
                        r
                    },
                    _ => Err(VarsError::NotAList { index }),
                }
            },
        }
    }

    /// Writes `value` at `path` (see `spec_assign`); on error the value is
    /// left as it was.
    pub fn assign_path(&mut self, path: Path, value: Value) -> (r: Result<(), VarsError>)
        requires
            indices_bounded(path@),
        ensures
            match r {
                Ok(()) => spec_assign(old(self)@, path@, value@) == Ok::<VarTree, VarsFault>(final(self)@),
                Err(e) => spec_assign(old(self)@, path@, value@) == Err::<VarTree, VarsFault>(e@)
                    && final(self)@ == old(self)@,
            },
    {
        assert(steps_view(path.items@).skip(0) =~= steps_view(path.items@));
        self.assign_items(&path.items, 0, value)
    }

    /// The value at `path`.
    pub fn get(&self, path: Path) -> (r: Result<&Value, VarsError>)
        ensures
            spec_get(self@, path@) == match r {
                Ok(v) => Ok::<VarTree, VarsFault>(v@),
                Err(e) => Err::<VarTree, VarsFault>(e@),
            },
    {
        let items = &path.items;
        let mut result: &Value = self;
        let mut i: usize = 0;
        assert(steps_view(items@).skip(0) =~= steps_view(items@));
        while i < items.len()
            invariant
                i <= items@.len(),
                items@ == path.items@,
                spec_get(self@, steps_view(items@)) == spec_get(result@, steps_view(items@).skip(i as int)),
            decreases items.len() - i,
        {
            let ghost rest = steps_view(items@).skip(i as int);
            assert(rest[0] == items@[i as int]@);
            assert(rest.drop_first() =~= steps_view(items@).skip(i + 1));
            match &items[i] {
                PathItem::Key(key) => {
                    if let Value::Object(values) = result {
                        proof {
                            lemma_first_key_index(entries_view(values@), key@);
                            lemma_entries_view(values@);
                        }
                        match find_key(values, key) {
                            Some(j) => {
                                result = &values[j].1;
                            },
                            None => {
                                return Err(VarsError::NoSuchKey { key: key.clone() });
                            },
                        }
                    } else {
                        return Err(VarsError::NotAnObject { key: key.clone() });
                    }
                },
                PathItem::Index(index) => {
                    if let Value::List(values) = result {
                        proof {
                            lemma_list_view(values@);
                        }
                        if values.len() <= *index {
                            return Err(VarsError::OutOfBounds { index: *index });
                        } else {
                            result = &values[*index];
                        }
                    } else {
                        return Err(VarsError::NotAList { index: *index });
                    }
                },
            }
            i = i + 1;
        }
        assert(steps_view(items@).skip(i as int) =~= Seq::<Step>::empty());
        Ok(result)
    }

    /// The value at `path`, lent out for writing: what is written through
    /// it lands at `path` (see `spec_put`).
    pub fn get_mut(&mut self, path: Path) -> (r: Result<&mut Value, VarsError>)
        ensures
            match r {
                Ok(m) => spec_get(old(self)@, path@) == Ok::<VarTree, VarsFault>((*m)@)
                    && final(self)@ == spec_put(old(self)@, path@, (*final(m))@),
                Err(e) => spec_get(old(self)@, path@) == Err::<VarTree, VarsFault>(e@)
                    && final(self)@ == old(self)@,
            },
    {
        assert(steps_view(path.items@).skip(0) =~= steps_view(path.items@));
        get_mut_from(self, &path.items, 0)
    }

    /// The text of the scalar at `path` (see `value_text`).
    pub fn get_string(&self, path: Path) -> (r: Result<String, VarsError>)
        ensures
            match r {
                Ok(s) => spec_get_string(self@, path@) == Ok::<Seq<char>, VarsFault>(s@),
                Err(e) => spec_get_string(self@, path@) == Err::<Seq<char>, VarsFault>(e@),
            },
    {
        match self.get(path) {
            Ok(v) => match v {
                Value::String(s) => Ok(s.clone()),
                Value::Bool(b) => Ok(bool_to_string(*b)),
                Value::Integer(i) => Ok(int_to_string(*i)),
                _ => Err(VarsError::NotAString),
            },
            Err(e) => Err(e),
        }
    }
}

} // verus!
