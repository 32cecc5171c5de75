//! The state expressions are evaluated in: the global value, the current
//! directory and the functions that can be called, each looked up from
//! the innermost scope outwards.

use vstd::prelude::*;
use crate::dynconf::value::{dyn_view, DynTree, Value};
use crate::keyed::{find_entry, key_index, keys_of, table_get};
use crate::text::str_to_string;

verus! {

/// A function that expressions can call.
#[derive(Debug, Clone, Copy, PartialEq, Eq, Structural)]
pub enum Builtin {
    /// `list(a, b, ...)`: an array of the arguments' values.
    List,
    /// `dict(k1, v1, k2, v2, ...)`: a dictionary of the pairs.
    Dict,
    /// `load(path)`: the value of a YAML file.
    LoadYaml,
}

/// The `list` function.
#[derive(Debug)]
pub struct List {}

/// The `dict` function.
#[derive(Debug)]
pub struct Dict {}

/// The `load` function.
#[derive(Debug)]
pub struct LoadYaml {}

impl List {
    pub fn new() -> Self {
        Self {}
    }

    /// What this function does when called.
    pub fn builtin(&self) -> (r: Builtin)
        ensures
            r == Builtin::List,
    {
        Builtin::List
    }
}

impl Dict {
    pub fn new() -> Self {
        Self {}
    }

    /// What this function does when called.
    pub fn builtin(&self) -> (r: Builtin)
        ensures
            r == Builtin::Dict,
    {
        Builtin::Dict
    }
}

impl LoadYaml {
    pub fn new() -> Self {
        Self {}
    }

    /// What this function does when called.
    pub fn builtin(&self) -> (r: Builtin)
        ensures
            r == Builtin::LoadYaml,
    {
        Builtin::LoadYaml
    }
}

/// What one scope holds.
#[derive(Debug)]
pub struct StateContent {
    pub functions: Vec<(String, Builtin)>,
    pub global: Option<Value>,
    pub current_dir: Option<String>,
}

/// A scope inside its enclosing scopes.
#[derive(Debug)]
pub struct State {
    /// The enclosing scopes, outermost first.
    parents: Vec<StateContent>,
    /// The scope's own contents.
    content: StateContent,
    /// The user's home directory, for paths written `~/...`.
    home: Option<String>,
}

/// What one scope holds, as plain values.
pub struct ContentView {
    pub functions: Seq<(Seq<char>, Builtin)>,
    pub global: Option<DynTree>,
    pub current_dir: Option<Seq<char>>,
}

/// A state as plain values: its scopes, outermost first.
pub struct StateView {
    pub scopes: Seq<ContentView>,
    pub home: Option<Seq<char>>,
}

/// A table of functions as plain values.
pub open spec fn functions_view(fs: Seq<(String, Builtin)>) -> Seq<(Seq<char>, Builtin)> {
    fs.map_values(|e: (String, Builtin)| (e.0@, e.1))
}

/// A scope's contents as plain values.
pub open spec fn content_view(c: StateContent) -> ContentView {
    ContentView {
        functions: functions_view(c.functions@),
        global: match c.global {
            Some(v) => Some(dyn_view(v)),
            None => None,
        },
        current_dir: match c.current_dir {
            Some(d) => Some(d@),
            None => None,
        },
    }
}

impl View for State {
    type V = StateView;

    closed spec fn view(&self) -> StateView {
        StateView {
            scopes: self.parents@.map_values(|c: StateContent| content_view(c)).push(content_view(self.content)),
            home: match self.home {
                Some(h) => Some(h@),
                None => None,
            },
        }
    }
}

/// The global value seen from the innermost scope.
pub open spec fn lookup_global(scopes: Seq<ContentView>) -> Option<DynTree>
    decreases scopes.len(),
{
    if scopes.len() == 0 {
        None
    } else if scopes.last().global is Some {
        scopes.last().global
    } else {
        lookup_global(scopes.drop_last())
    }
}

/// The global value seen from the innermost scope, `Null` where there is none.
pub open spec fn global_or_null(scopes: Seq<ContentView>) -> DynTree {
    match lookup_global(scopes) {
        Some(t) => t,
        None => DynTree::Null,
    }
}


/// The current directory seen from the innermost scope.
pub open spec fn lookup_dir(scopes: Seq<ContentView>) -> Option<Seq<char>>
    decreases scopes.len(),
{
    if scopes.len() == 0 {
        None
    } else if scopes.last().current_dir is Some {
        scopes.last().current_dir
    } else {
        lookup_dir(scopes.drop_last())
    }
}

/// The function registered under `name` in a scope, if any.
pub open spec fn content_function(c: ContentView, name: Seq<char>) -> Option<Builtin> {
    let keys = c.functions.map_values(|e: (Seq<char>, Builtin)| e.0);
    let i = key_index(keys, name);
    if i >= 0 {
        Some(c.functions[i].1)
    } else {
        None
    }
}

/// The function `name` stands for, seen from the innermost scope.
pub open spec fn lookup_function(scopes: Seq<ContentView>, name: Seq<char>) -> Option<Builtin>
    decreases scopes.len(),
{
    if scopes.len() == 0 {
        None
    } else if content_function(scopes.last(), name) is Some {
        content_function(scopes.last(), name)
    } else {
        lookup_function(scopes.drop_last(), name)
    }
}

/// Why the state could not be changed as asked.
#[derive(Debug, Clone, PartialEq, Eq)]
pub enum StateError {
    /// A function of this name is already registered in the scope.
    AlreadyRegistered(String),
}

fn empty_content() -> (r: StateContent)
    ensures
        content_view(r) == (ContentView { functions: Seq::empty(), global: None, current_dir: None }),
{
    let r = StateContent { functions: Vec::new(), global: None, current_dir: None };
    assert(functions_view(r.functions@) =~= Seq::<(Seq<char>, Builtin)>::empty());
    r
}

fn clone_opt_string(s: &Option<String>) -> (r: Option<String>)
    ensures
        r == *s,
{
    match s {
        Some(v) => Some(v.clone()),
        None => None,
    }
}

impl StateContent {
    /// Sets the scope's current directory.
    pub fn set_current_dir(&mut self, current_dir: String)
        ensures
            final(self).current_dir == Some(current_dir),
            final(self).functions == old(self).functions,
            final(self).global == old(self).global,
    {
        self.current_dir = Some(current_dir);
    }

    /// The scope's current directory.
    pub fn get_current_dir(&self) -> (r: Option<String>)
        ensures
            r == self.current_dir,
    {
        clone_opt_string(&self.current_dir)
    }

    fn deep_clone(&self) -> (r: StateContent)
        ensures
            content_view(r) == content_view(*self),
    {
        let mut functions: Vec<(String, Builtin)> = Vec::new();
        for i in 0..self.functions.len()
            invariant
                functions_view(functions@) == functions_view(self.functions@.take(i as int)),
        {
            let ghost before = functions@;
            functions.push((self.functions[i].0.clone(), self.functions[i].1));
            proof {
                assert(functions_view(functions@) =~= functions_view(before).push((self.functions@[i as int].0@, self.functions@[i as int].1)));
                assert(self.functions@.take(i + 1) =~= self.functions@.take(i as int).push(self.functions@[i as int]));
                assert(functions_view(self.functions@.take(i + 1)) =~= functions_view(self.functions@.take(i as int)).push((self.functions@[i as int].0@, self.functions@[i as int].1)));
            }
        }
        assert(self.functions@.take(self.functions@.len() as int) =~= self.functions@);
        let global = match &self.global {
            Some(v) => Some(v.deep_clone()),
            None => None,
        };
        StateContent { functions, global, current_dir: clone_opt_string(&self.current_dir) }
    }
}

impl State {
    /// A state with one scope holding the builtin functions `list`,
    /// `dict` and `load`, and nothing else.
    pub fn initialize() -> (r: State)
        ensures
            r@.scopes.len() == 1,
            r@.scopes[0].global is None,
            r@.scopes[0].current_dir is None,
            r@.scopes[0].functions == seq![
                ("list"@, Builtin::List),
                ("dict"@, Builtin::Dict),
                ("load"@, Builtin::LoadYaml),
            ],
            r@.home is None,
    {
        let mut state = State { parents: Vec::new(), content: empty_content(), home: None };
        register_builtins(&mut state);
        proof {
            assert(state.parents@.map_values(|c: StateContent| content_view(c)) =~= Seq::<ContentView>::empty());
        }
        state
    }

    /// A new innermost scope inside this state's scopes.
    pub fn scope(&self) -> (r: State)
        ensures
            r@.scopes == self@.scopes.push(ContentView { functions: Seq::empty(), global: None, current_dir: None }),
            r@.home == self@.home,
    {
        let mut parents: Vec<StateContent> = Vec::new();
        for i in 0..self.parents.len()
            invariant
                parents@.map_values(|c: StateContent| content_view(c)) == self.parents@.take(i as int).map_values(
                    |c: StateContent| content_view(c),
                ),
        {
            let ghost before = parents@;
            parents.push(self.parents[i].deep_clone());
            proof {
                assert(parents@.map_values(|c: StateContent| content_view(c)) =~= before.map_values(|c: StateContent| content_view(c)).push(content_view(self.parents@[i as int])));
                assert(self.parents@.take(i + 1) =~= self.parents@.take(i as int).push(self.parents@[i as int]));
            }
        }
        assert(self.parents@.take(self.parents@.len() as int) =~= self.parents@);
        let ghost before = parents@;
        parents.push(self.content.deep_clone());
        let r = State { parents, content: empty_content(), home: clone_opt_string(&self.home) };
        proof {
            assert(r.parents@.map_values(|c: StateContent| content_view(c)) =~= before.map_values(|c: StateContent| content_view(c)).push(content_view(self.content)));
            assert(r@.scopes =~= self@.scopes.push(ContentView { functions: Seq::empty(), global: None, current_dir: None }));
        }
        r
    }

    /// Registers a function under `name` in the innermost scope; fails
    /// when that scope has one of the name already.
    pub fn register_function(&mut self, name: &str, function: Builtin) -> (r: Result<(), StateError>)
        ensures
            old(self)@.scopes.len() == final(self)@.scopes.len(),
            old(self)@.home == final(self)@.home,
            ({
                let n = old(self)@.scopes.len() - 1;
                let inner = old(self)@.scopes[n];
                match r {
                    Ok(()) => content_function(inner, name@) is None
                        && final(self)@.scopes == old(self)@.scopes.update(
                            n,
                            ContentView { functions: inner.functions.push((name@, function)), ..inner },
                        ),
                    Err(StateError::AlreadyRegistered(s)) => content_function(inner, name@) is Some && s@ == name@
                        && final(self)@ == old(self)@,
                }
            }),
    {
        let ghost keys = functions_view(self.content.functions@).map_values(|e: (Seq<char>, Builtin)| e.0);
        proof {
            assert(keys =~= keys_of(self.content.functions@));
        }
        match find_entry(&self.content.functions, name) {
            Some(_) => Err(StateError::AlreadyRegistered(str_to_string(name))),
            None => {
                let ghost before = self.content.functions@;
                self.content.functions.push((str_to_string(name), function));
                proof {
                    assert(functions_view(self.content.functions@) =~= functions_view(before).push((name@, function)));
                    assert(self@.scopes =~= old(self)@.scopes.update(
                        old(self)@.scopes.len() - 1,
                        ContentView {
                            functions: functions_view(before).push((name@, function)),
                            ..content_view(old(self).content)
                        },
                    ));
                }
                Ok(())
            },
        }
    }

    /// Sets the global value of the innermost scope.
    pub fn set_global(&mut self, value: Value)
        ensures
            final(self)@.scopes == old(self)@.scopes.update(
                old(self)@.scopes.len() - 1,
                ContentView { global: Some(value@), ..old(self)@.scopes.last() },
            ),
            final(self)@.home == old(self)@.home,
    {
        self.content.global = Some(value);
        proof {
            assert(self@.scopes =~= old(self)@.scopes.update(
                old(self)@.scopes.len() - 1,
                ContentView { global: Some(value@), ..old(self)@.scopes.last() },
            ));
        }
    }

    /// The global value seen from the innermost scope.
    pub fn get_global(&self) -> (r: Option<&Value>)
        ensures
            match r {
                Some(v) => lookup_global(self@.scopes) == Some(v@),
                None => lookup_global(self@.scopes) is None,
            },
    {
        if let Some(v) = &self.content.global {
            return Some(v);
        }
        let ghost views = self.parents@.map_values(|c: StateContent| content_view(c));
        proof {
            assert(self@.scopes.drop_last() =~= views);
            assert(self@.scopes.last() == content_view(self.content));
            assert(views.take(views.len() as int) =~= views);
        }
        let mut i = self.parents.len();
        while i > 0
            invariant
                i <= self.parents@.len(),
                views == self.parents@.map_values(|c: StateContent| content_view(c)),
                lookup_global(self@.scopes) == lookup_global(views.take(i as int)),
            decreases i,
        {
            proof {
                assert(views.take(i as int).drop_last() =~= views.take(i - 1));
                assert(views.take(i as int).last() == content_view(self.parents@[i - 1]));
            }
            if let Some(v) = &self.parents[i - 1].global {
                return Some(v);
            }
            i = i - 1;
        }
        assert(views.take(0) =~= Seq::<ContentView>::empty());
        None
    }

    /// Replaces the global value of the innermost scope by what `f` makes of
    /// the global value seen from there (`Null` where there is none). When
    /// `f` fails, the innermost scope is left without a global value of its
    /// own and the error is handed on.
    pub fn mutate_global<E, F: FnOnce(Value) -> Result<Value, E>>(&mut self, f: F) -> (r: Result<(), E>)
        requires
            forall|v: Value| v@ == global_or_null(old(self)@.scopes) ==> #[trigger] f.requires((v,)),
        ensures
            final(self)@.home == old(self)@.home,
            final(self)@.scopes.len() == old(self)@.scopes.len(),
            final(self)@.scopes.drop_last() == old(self)@.scopes.drop_last(),
            final(self)@.scopes.last().functions == old(self)@.scopes.last().functions,
            final(self)@.scopes.last().current_dir == old(self)@.scopes.last().current_dir,
            exists|v: Value, out: Result<Value, E>| #![trigger f.ensures((v,), out)]
                v@ == global_or_null(old(self)@.scopes) && f.ensures((v,), out) && match out {
                    Ok(x) => r is Ok && final(self)@.scopes.last().global == Some(x@),
                    Err(e) => r == Err::<(), E>(e) && final(self)@.scopes.last().global is None,
                },
    {
        let ghost sc = self@.scopes;
        let mut own: Option<Value> = None;
        std::mem::swap(&mut own, &mut self.content.global);
        proof {
            assert(self@.scopes =~= sc.update(sc.len() - 1, ContentView { global: None, ..sc.last() }));
            assert(self@.scopes.drop_last() =~= sc.drop_last());
        }
        let start = match own {
            Some(v) => v,
            None => match self.get_global() {
                Some(p) => p.deep_clone(),
                None => Value::Null,
            },
        };
        assert(start@ == global_or_null(sc));
        let ghost before = self@.scopes;
        let ghost arg = start;
        let out = f(start);
        let ghost res = out;
        match out {
            Ok(x) => {
                let ghost xv = x;
                self.content.global = Some(x);
                proof {
                    assert(self@.scopes =~= before.update(before.len() - 1, ContentView { global: Some(xv@), ..before.last() }));
                    assert(self@.scopes.drop_last() =~= sc.drop_last());
                }
                Ok(())
            },
            Err(e) => Err(e),
        }
    }

    /// Sets the current directory of the innermost scope.
    pub fn set_current_dir(&mut self, current_dir: String)
        ensures
            final(self)@.scopes == old(self)@.scopes.update(
                old(self)@.scopes.len() - 1,
                ContentView { current_dir: Some(current_dir@), ..old(self)@.scopes.last() },
            ),
            final(self)@.home == old(self)@.home,
    {
        self.content.set_current_dir(current_dir);
        proof {
            assert(self@.scopes =~= old(self)@.scopes.update(
                old(self)@.scopes.len() - 1,
                ContentView { current_dir: Some(current_dir@), ..old(self)@.scopes.last() },
            ));
        }
    }

    /// The current directory seen from the innermost scope.
    pub fn get_current_dir(&self) -> (r: Option<String>)
        ensures
            match r {
                Some(d) => lookup_dir(self@.scopes) == Some(d@),
                None => lookup_dir(self@.scopes) is None,
            },
    {
        if let Some(d) = &self.content.current_dir {
            return Some(d.clone());
        }
        let ghost views = self.parents@.map_values(|c: StateContent| content_view(c));
        proof {
            assert(self@.scopes.drop_last() =~= views);
            assert(self@.scopes.last() == content_view(self.content));
            assert(views.take(views.len() as int) =~= views);
        }
        let mut i = self.parents.len();
        while i > 0
            invariant
                i <= self.parents@.len(),
                views == self.parents@.map_values(|c: StateContent| content_view(c)),
                lookup_dir(self@.scopes) == lookup_dir(views.take(i as int)),
            decreases i,
        {
            proof {
                assert(views.take(i as int).drop_last() =~= views.take(i - 1));
                assert(views.take(i as int).last() == content_view(self.parents@[i - 1]));
            }
            if let Some(d) = &self.parents[i - 1].current_dir {
                return Some(d.clone());
            }
            i = i - 1;
        }
        assert(views.take(0) =~= Seq::<ContentView>::empty());
        None
    }

    /// Sets the home directory used for paths written `~/...`.
    pub fn set_home(&mut self, home: String)
        ensures
            final(self)@.scopes == old(self)@.scopes,
            final(self)@.home == Some(home@),
    {
        self.home = Some(home);
    }

    /// The home directory used for paths written `~/...`.
    pub fn get_home(&self) -> (r: Option<String>)
        ensures
            match r {
                Some(h) => self@.home == Some(h@),
                None => self@.home is None,
            },
    {
        clone_opt_string(&self.home)
    }

    /// The function `name` stands for, seen from the innermost scope.
    pub fn get_function(&self, name: &str) -> (r: Option<Builtin>)
        ensures
            r == lookup_function(self@.scopes, name@),
    {
        proof {
            lemma_content_function(self.content, name@);
        }
        if let Some(j) = find_entry(&self.content.functions, name) {
            return Some(self.content.functions[j].1);
        }
        let ghost views = self.parents@.map_values(|c: StateContent| content_view(c));
        proof {
            assert(self@.scopes.drop_last() =~= views);
            assert(self@.scopes.last() == content_view(self.content));
            assert(views.take(views.len() as int) =~= views);
        }
        let mut i = self.parents.len();
        while i > 0
            invariant
                i <= self.parents@.len(),
                views == self.parents@.map_values(|c: StateContent| content_view(c)),
                lookup_function(self@.scopes, name@) == lookup_function(views.take(i as int), name@),
            decreases i,
        {
            proof {
                assert(views.take(i as int).drop_last() =~= views.take(i - 1));
                assert(views.take(i as int).last() == content_view(self.parents@[i - 1]));
                lemma_content_function(self.parents@[i - 1], name@);
            }
            if let Some(j) = find_entry(&self.parents[i - 1].functions, name) {
                return Some(self.parents[i - 1].functions[j].1);
            }
            i = i - 1;
        }
        assert(views.take(0) =~= Seq::<ContentView>::empty());
        None
    }
}

/// A state has at least one scope, its own.
pub proof fn lemma_state_scopes(s: &State)
    ensures
        s@.scopes.len() > 0,
{
}

/// A scope's function lookup is the lookup of its table.
proof fn lemma_content_function(c: StateContent, name: Seq<char>)
    ensures
        content_function(content_view(c), name) == match table_get(c.functions@, name) {
            Some(b) => Some(b),
            None => None::<Builtin>,
        },
{
    let keys = content_view(c).functions.map_values(|e: (Seq<char>, Builtin)| e.0);
    assert(keys =~= keys_of(c.functions@));
    crate::keyed::lemma_key_index(keys, name);
    let i = key_index(keys, name);
    if i >= 0 {
        assert(content_view(c).functions[i] == (c.functions@[i].0@, c.functions@[i].1));
    }
}

/// The scopes with `added` appended to the functions of the innermost
/// one.
pub open spec fn with_added_functions(scopes: Seq<ContentView>, added: Seq<(Seq<char>, Builtin)>) -> Seq<ContentView> {
    scopes.update(scopes.len() - 1, ContentView { functions: scopes.last().functions + added, ..scopes.last() })
}

/// A function registered under another name does not change what a name
/// stands for in a scope.
proof fn lemma_content_function_push(c: ContentView, k: Seq<char>, b: Builtin, name: Seq<char>)
    requires
        k != name,
    ensures
        content_function(ContentView { functions: c.functions.push((k, b)), ..c }, name) == content_function(c, name),
{
    let keys = c.functions.map_values(|e: (Seq<char>, Builtin)| e.0);
    let c2 = ContentView { functions: c.functions.push((k, b)), ..c };
    let keys2 = c2.functions.map_values(|e: (Seq<char>, Builtin)| e.0);
    assert(keys2 =~= keys.push(k));
    crate::keyed::lemma_key_index_push(keys, k, name);
    crate::keyed::lemma_key_index(keys, name);
    let i = key_index(keys, name);
    if i >= 0 {
        assert(c2.functions[i] == c.functions[i]);
    }
}

/// Registers `list`, `dict` and `load` in the innermost scope, in that
/// order, stopping at the first name that scope already has: that name is
/// the error, and the names registered before it stay. It succeeds
/// exactly when the scope has none of the three.
pub fn register_builtins(state: &mut State) -> (r: Result<(), StateError>)
    ensures
        old(state)@.scopes.len() == final(state)@.scopes.len(),
        old(state)@.home == final(state)@.home,
        ({
            let inner = old(state)@.scopes.last();
            let l = ("list"@, Builtin::List);
            let d = ("dict"@, Builtin::Dict);
            if content_function(inner, "list"@) is Some {
                (r matches Err(StateError::AlreadyRegistered(s)) && s@ == "list"@) && final(state)@ == old(state)@
            } else if content_function(inner, "dict"@) is Some {
                (r matches Err(StateError::AlreadyRegistered(s)) && s@ == "dict"@)
                    && final(state)@.scopes == with_added_functions(old(state)@.scopes, seq![l])
            } else if content_function(inner, "load"@) is Some {
                (r matches Err(StateError::AlreadyRegistered(s)) && s@ == "load"@)
                    && final(state)@.scopes == with_added_functions(old(state)@.scopes, seq![l, d])
            } else {
                r is Ok && final(state)@.scopes == with_added_functions(
                    old(state)@.scopes,
                    seq![l, d, ("load"@, Builtin::LoadYaml)],
                )
            }
        }),
        (old(state)@.scopes.last().functions.len() == 0) ==> (r is Ok && final(state)@.scopes.last().functions
            == seq![("list"@, Builtin::List), ("dict"@, Builtin::Dict), ("load"@, Builtin::LoadYaml)]
            && final(state)@.scopes.last().global == old(state)@.scopes.last().global
            && final(state)@.scopes.last().current_dir == old(state)@.scopes.last().current_dir
            && final(state)@.scopes.drop_last() == old(state)@.scopes.drop_last()),
{
    let ghost empty0 = old(state)@.scopes.last().functions.len() == 0;
    let ghost s0 = state@;
    proof {
        if empty0 {
            let keys = s0.scopes.last().functions.map_values(|e: (Seq<char>, Builtin)| e.0);
            assert(keys =~= Seq::<Seq<char>>::empty());
        }
    }
    proof {
        reveal_strlit("list");
        reveal_strlit("dict");
        reveal_strlit("load");
    }
    proof {
        assert("list"@ =~= seq!['l', 'i', 's', 't']);
        assert("dict"@ =~= seq!['d', 'i', 'c', 't']);
        assert("load"@ =~= seq!['l', 'o', 'a', 'd']);
        assert("list"@[0] != "dict"@[0]);
        assert("list"@[1] != "load"@[1]);
        assert("dict"@[0] != "load"@[0]);
        assert("list"@ != "dict"@);
        assert("list"@ != "load"@);
        assert("dict"@ != "load"@);
    }
    let a = state.register_function("list", List::new().builtin());
    if let Err(e) = a {
        return Err(e);
    }
    let ghost s1 = state@;
    proof {
        let inner0 = s0.scopes.last();
        lemma_content_function_push(inner0, "list"@, Builtin::List, "dict"@);
        lemma_content_function_push(inner0, "list"@, Builtin::List, "load"@);
        assert(inner0.functions.push(("list"@, Builtin::List)) =~= inner0.functions + seq![("list"@, Builtin::List)]);
        assert(s1.scopes =~= with_added_functions(s0.scopes, seq![("list"@, Builtin::List)]));
    }
    proof {
        if empty0 {
            let inner = s1.scopes.last();
            assert(inner.functions == seq![("list"@, Builtin::List)]);
            let keys = inner.functions.map_values(|e: (Seq<char>, Builtin)| e.0);
            assert(keys =~= seq!["list"@]);
            crate::keyed::lemma_key_index(keys, "dict"@);
        }
    }
    let b = state.register_function("dict", Dict::new().builtin());
    if let Err(e) = b {
        return Err(e);
    }
    let ghost s2 = state@;
    proof {
        let inner1 = s1.scopes.last();
        lemma_content_function_push(inner1, "dict"@, Builtin::Dict, "load"@);
        assert(s1.scopes.last().functions.push(("dict"@, Builtin::Dict)) =~= s0.scopes.last().functions + seq![("list"@, Builtin::List), ("dict"@, Builtin::Dict)]);
        assert(s2.scopes =~= with_added_functions(s0.scopes, seq![("list"@, Builtin::List), ("dict"@, Builtin::Dict)]));
    }
    proof {
        if empty0 {
            let inner = s2.scopes.last();
            assert(inner.functions == seq![("list"@, Builtin::List), ("dict"@, Builtin::Dict)]);
            let keys = inner.functions.map_values(|e: (Seq<char>, Builtin)| e.0);
            assert(keys =~= seq!["list"@, "dict"@]);
            crate::keyed::lemma_key_index(keys, "load"@);
        }
    }
    let c = state.register_function("load", LoadYaml::new().builtin());
    if let Err(e) = c {
        return Err(e);
    }
    proof {
        if empty0 {
            assert(state@.scopes.drop_last() =~= s0.scopes.drop_last());
        }
        assert(s2.scopes.last().functions.push(("load"@, Builtin::LoadYaml)) =~= s0.scopes.last().functions
            + seq![("list"@, Builtin::List), ("dict"@, Builtin::Dict), ("load"@, Builtin::LoadYaml)]);
        assert(state@.scopes =~= with_added_functions(
            s0.scopes,
            seq![("list"@, Builtin::List), ("dict"@, Builtin::Dict), ("load"@, Builtin::LoadYaml)],
        ));
    }
    Ok(())
}

/// What the innermost scope sets for itself is what is seen from there:
/// its global value and its current directory.
pub proof fn lemma_seen_after_set(scopes: Seq<ContentView>, global: DynTree, dir: Seq<char>)
    requires
        scopes.len() > 0,
    ensures
        lookup_global(scopes.update(scopes.len() - 1, ContentView { global: Some(global), ..scopes.last() }))
            == Some(global),
        lookup_dir(scopes.update(scopes.len() - 1, ContentView { current_dir: Some(dir), ..scopes.last() }))
            == Some(dir),
{
}

/// A new innermost scope sees what the scopes around it hold: their
/// global value, their current directory and their functions.
pub proof fn lemma_new_scope_sees_outer(scopes: Seq<ContentView>, name: Seq<char>)
    ensures
        lookup_global(scopes.push(ContentView { functions: Seq::empty(), global: None, current_dir: None }))
            == lookup_global(scopes),
        lookup_dir(scopes.push(ContentView { functions: Seq::empty(), global: None, current_dir: None }))
            == lookup_dir(scopes),
        lookup_function(scopes.push(ContentView { functions: Seq::empty(), global: None, current_dir: None }), name)
            == lookup_function(scopes, name),
{
    let inner = scopes.push(ContentView { functions: Seq::empty(), global: None, current_dir: None });
    assert(inner.drop_last() =~= scopes);
    assert(key_index(Seq::<(Seq<char>, Builtin)>::empty().map_values(|e: (Seq<char>, Builtin)| e.0), name) == -1);
}

} // verus!
