//! Helpers for loading configuration values: variables substituted into
//! text values, and fields that accept a boolean, a number or a text.

use vstd::prelude::*;
use crate::services::LoadConfigError;
use crate::text::{bool_text, bool_to_string, int_decimal, int_to_string, str_to_string};
use crate::vars::{spec_substitute, SubstFault, Value, VarTree};
use crate::bind::text_map;
use crate::keyed::{find_entry, keys_of, table_get, table_insert};
use crate::repos::{repos_tree, Repo, Repos};

verus! {

/// A list of texts with variables substituted into each; the first that
/// fails decides the error.
pub open spec fn subst_list_spec(vars: VarTree, items: Seq<Seq<char>>) -> Result<Seq<Seq<char>>, SubstFault>
    decreases items.len(),
{
    if items.len() == 0 {
        Ok(Seq::empty())
    } else {
        match subst_list_spec(vars, items.drop_last()) {
            Err(e) => Err(e),
            Ok(r) => match spec_substitute(vars, items.last()) {
                Err(e) => Err(e),
                Ok(t) => Ok(r.push(t)),
            },
        }
    }
}

/// An error met on a prefix of a list is the error of the whole list.
pub proof fn lemma_subst_list_prefix_err(vars: VarTree, items: Seq<Seq<char>>, n: int)
    requires
        0 <= n <= items.len(),
        subst_list_spec(vars, items.take(n)) is Err,
    ensures
        subst_list_spec(vars, items) == subst_list_spec(vars, items.take(n)),
    decreases items.len() - n,
{
    if n < items.len() {
        assert(items.take(n + 1).drop_last() =~= items.take(n));
        lemma_subst_list_prefix_err(vars, items, n + 1);
    } else {
        assert(items.take(n) =~= items);
    }
}

/// The texts of a list.
pub open spec fn texts(items: Seq<String>) -> Seq<Seq<char>> {
    items.map_values(|s: String| s@)
}

/// The values of a table from text to text.
pub open spec fn pair_values(items: Seq<(String, String)>) -> Seq<Seq<char>> {
    items.map_values(|e: (String, String)| e.1@)
}

/// The keys of a table from text to text.
pub open spec fn pair_keys(items: Seq<(String, String)>) -> Seq<Seq<char>> {
    items.map_values(|e: (String, String)| e.0@)
}

/// Substitutes variables into each text of a list (see
/// `subst_list_spec`).
pub fn substitute_vars_list(vars: &Value, list: Vec<String>) -> (r: Result<Vec<String>, LoadConfigError>)
    ensures
        match r {
            Ok(out) => subst_list_spec(vars@, texts(list@)) == Ok::<Seq<Seq<char>>, SubstFault>(texts(out@)),
            Err(e) => subst_list_spec(vars@, texts(list@)) matches Err(f)
                && e matches LoadConfigError::SubstitutionError(se) && se@ == f,
        },
{
    let ghost items = texts(list@);
    let mut out: Vec<String> = Vec::new();
    let mut i: usize = 0;
    assert(items.take(0) =~= Seq::<Seq<char>>::empty());
    assert(texts(out@) =~= Seq::<Seq<char>>::empty());
    while i < list.len()
        invariant
            i <= list@.len(),
            items == texts(list@),
            subst_list_spec(vars@, items.take(i as int)) == Ok::<Seq<Seq<char>>, SubstFault>(texts(out@)),
        decreases list.len() - i,
    {
        proof {
            assert(items.take(i + 1).drop_last() =~= items.take(i as int));
            assert(items.take(i + 1).last() == list@[i as int]@);
        }
        match vars.eval(list[i].as_str()) {
            Ok(t) => {
                let ghost before = out@;
                out.push(t);
                assert(texts(out@) =~= texts(before).push(t@));
            },
            Err(e) => {
                proof {
                    lemma_subst_list_prefix_err(vars@, items, i + 1);
                }
                return Err(LoadConfigError::SubstitutionError(e));
            },
        }
        i = i + 1;
    }
    assert(items.take(list@.len() as int) =~= items);
    Ok(out)
}

/// Substitutes variables into each value of a table, keeping the keys
/// and their order (see `subst_list_spec`).
pub fn substitute_vars_dict(vars: &Value, dict: Vec<(String, String)>) -> (r: Result<Vec<(String, String)>, LoadConfigError>)
    ensures
        match r {
            Ok(out) => pair_keys(out@) == pair_keys(dict@)
                && subst_list_spec(vars@, pair_values(dict@)) == Ok::<Seq<Seq<char>>, SubstFault>(pair_values(out@)),
            Err(e) => subst_list_spec(vars@, pair_values(dict@)) matches Err(f)
                && e matches LoadConfigError::SubstitutionError(se) && se@ == f,
        },
{
    let ghost items = pair_values(dict@);
    let mut out: Vec<(String, String)> = Vec::new();
    let mut i: usize = 0;
    assert(items.take(0) =~= Seq::<Seq<char>>::empty());
    assert(pair_values(out@) =~= Seq::<Seq<char>>::empty());
    while i < dict.len()
        invariant
            i <= dict@.len(),
            items == pair_values(dict@),
            pair_keys(out@) == pair_keys(dict@).take(i as int),
            subst_list_spec(vars@, items.take(i as int)) == Ok::<Seq<Seq<char>>, SubstFault>(pair_values(out@)),
        decreases dict.len() - i,
    {
        proof {
            assert(items.take(i + 1).drop_last() =~= items.take(i as int));
            assert(items.take(i + 1).last() == dict@[i as int].1@);
        }
        match vars.eval(dict[i].1.as_str()) {
            Ok(t) => {
                let ghost before = out@;
                out.push((dict[i].0.clone(), t));
                assert(pair_values(out@) =~= pair_values(before).push(t@));
                assert(pair_keys(out@) =~= pair_keys(before).push(dict@[i as int].0@));
                assert(pair_keys(dict@).take(i + 1) =~= pair_keys(dict@).take(i as int).push(dict@[i as int].0@));
            },
            Err(e) => {
                proof {
                    lemma_subst_list_prefix_err(vars@, items, i + 1);
                }
                return Err(LoadConfigError::SubstitutionError(e));
            },
        }
        i = i + 1;
    }
    assert(items.take(dict@.len() as int) =~= items);
    assert(pair_keys(dict@).take(dict@.len() as int) =~= pair_keys(dict@));
    Ok(out)
}

/// Substitutes variables into one text.
pub fn substitute_vars(vars: &Value, s: String) -> (r: Result<String, LoadConfigError>)
    ensures
        match r {
            Ok(t) => spec_substitute(vars@, s@) == Ok::<Seq<char>, SubstFault>(t@),
            Err(e) => spec_substitute(vars@, s@) matches Err(f)
                && e matches LoadConfigError::SubstitutionError(se) && se@ == f,
        },
{
    match vars.eval(s.as_str()) {
        Ok(t) => Ok(t),
        Err(e) => Err(LoadConfigError::SubstitutionError(e)),
    }
}

/// An `enabled` field: a boolean, or a text that substitutes to `true`
/// or `false`.
#[derive(Debug, Clone)]
pub enum Enabled {
    Bool(bool),
    String(String),
}

/// A field read as text: a boolean, a text (variables substituted) or a
/// number.
#[derive(Debug, Clone)]
pub enum AsString {
    Bool(bool),
    String(String),
    Int(i64),
}

/// A boolean written as text, as `str::parse::<bool>` reads it.
pub open spec fn parse_bool_spec(s: Seq<char>) -> Option<bool> {
    if s == "true"@ {
        Some(true)
    } else if s == "false"@ {
        Some(false)
    } else {
        None
    }
}

/// Reads `true` or `false`.
pub fn parse_bool(s: &str) -> (r: Option<bool>)
    ensures
        r == parse_bool_spec(s@),
{
    proof {
        reveal_strlit("true");
        reveal_strlit("false");
    }
    if crate::keyed::str_eq(s, "true") {
        Some(true)
    } else if crate::keyed::str_eq(s, "false") {
        Some(false)
    } else {
        None
    }
}

/// What configuration is loaded in: the repositories, once they are
/// known, and named texts (such as the project's id and root, the
/// environment, or the key of the entry being loaded).
pub struct LoadContext<'a> {
    pub repos: Option<&'a Repos>,
    pub named: Vec<(String, String)>,
}

/// The named texts of a context, from name to text.
pub open spec fn named_map(named: Seq<(String, String)>) -> Map<Seq<char>, Seq<char>> {
    Map::new(|k: Seq<char>| table_get(named, k) is Some, |k: Seq<char>| table_get(named, k)->0@)
}

/// How variable substitution sees a context: an object holding the
/// repositories under `repos` when they are known, else nothing.
pub open spec fn context_tree(repos: Option<Seq<(String, Repo)>>) -> VarTree {
    match repos {
        Some(rs) => VarTree::Object(seq![("repos"@, repos_tree(rs))]),
        None => VarTree::Null,
    }
}

impl<'a> LoadContext<'a> {
    /// The repositories of the context, if known.
    pub open spec fn repos_view(&self) -> Option<Seq<(String, Repo)>> {
        match self.repos {
            Some(r) => Some(r.repos@),
            None => None,
        }
    }

    /// Makes the repositories known to loading.
    pub fn set_repos(&mut self, repos: &'a Repos)
        ensures
            final(self).repos == Some(repos),
            final(self).named == old(self).named,
    {
        self.repos = Some(repos);
    }

    /// Names a text: a later text of the same name replaces an earlier one.
    pub fn set_named(&mut self, key: &str, value: &str)
        ensures
            named_map(final(self).named@) == named_map(old(self).named@).insert(key@, value@),
            final(self).repos == old(self).repos,
    {
        let k = str_to_string(key);
        let v = str_to_string(value);
        let ghost before = self.named@;
        table_insert(&mut self.named, k, v);
        proof {
            assert(named_map(self.named@) =~= named_map(before).insert(key@, value@));
        }
    }

    /// The text of a name, or `MissingContext` with the name when none was
    /// set.
    pub fn get_named(&self, key: &str) -> (r: Result<String, LoadConfigError>)
        ensures
            match r {
                Ok(t) => named_map(self.named@).contains_key(key@) && t@ == named_map(self.named@)[key@],
                Err(e) => !named_map(self.named@).contains_key(key@)
                    && (e matches LoadConfigError::MissingContext(k) && k@ == key@),
            },
    {
        match find_entry(&self.named, key) {
            Some(i) => Ok(self.named[i].1.clone()),
            None => Err(LoadConfigError::MissingContext(str_to_string(key))),
        }
    }

    /// The variables that texts loaded in this context are substituted
    /// with (see `context_tree`).
    pub fn vars(&self) -> (r: Value)
        ensures
            r@ == context_tree(self.repos_view()),
    {
        match self.repos {
            Some(rs) => {
                let mut entries: Vec<(String, Value)> = Vec::new();
                entries.push((str_to_string("repos"), rs.vars()));
                proof {
                    reveal_strlit("repos");
                    crate::vars::lemma_entries_view(entries@);
                    assert(crate::vars::entries_view(entries@) =~= seq![("repos"@, repos_tree(rs.repos@))]);
                }
                Value::Object(entries)
            },
            None => Value::Null,
        }
    }

    /// A context with the same repositories and named texts.
    pub fn duplicate(&self) -> (r: LoadContext<'a>)
        ensures
            r.repos == self.repos,
            named_map(r.named@) == named_map(self.named@),
    {
        let mut named: Vec<(String, String)> = Vec::new();
        let mut i: usize = 0;
        while i < self.named.len()
            invariant
                i <= self.named@.len(),
                named@.len() == i,
                forall|j: int| 0 <= j < i ==> #[trigger] named@[j].0@ == self.named@[j].0@ && named@[j].1@ == self.named@[j].1@,
            decreases self.named.len() - i,
        {
            named.push((self.named[i].0.clone(), self.named[i].1.clone()));
            i = i + 1;
        }
        proof {
            assert(keys_of(named@) =~= keys_of(self.named@));
            assert forall|k: Seq<char>| #[trigger] table_get(named@, k) is Some == table_get(self.named@, k) is Some
                && (table_get(named@, k) is Some ==> table_get(named@, k)->0@ == table_get(self.named@, k)->0@) by {
                crate::keyed::lemma_key_index(keys_of(named@), k);
            }
            assert(named_map(named@) =~= named_map(self.named@));
        }
        LoadContext { repos: self.repos, named }
    }
}

impl<'a> Default for LoadContext<'a> {
    /// A context that knows nothing yet.
    fn default() -> (r: LoadContext<'a>)
        ensures
            r.repos is None,
            r.named@.len() == 0,
    {
        LoadContext { repos: None, named: Vec::new() }
    }
}

/// A piece of configuration as written, which loading turns into its
/// final form, substituting variables where it holds texts.
pub trait LoadRawSync: Sized {
    /// What loading gives.
    type Output;

    /// Whether `r` is what loading this value may give in a context that
    /// knows the repositories `repos` and names the texts of `named`; a
    /// kind of value that says nothing here may give anything.
    open spec fn loads_to(
        &self,
        repos: Option<Seq<(String, Repo)>>,
        named: Map<Seq<char>, Seq<char>>,
        r: Result<Self::Output, LoadConfigError>,
    ) -> bool {
        true
    }

    /// The loaded value.
    fn load_raw(self, context: &LoadContext) -> (r: Result<Self::Output, LoadConfigError>)
        ensures
            self.loads_to(context.repos_view(), named_map(context.named@), r),
    ;
}

/// A piece of configuration that loads as it is written.
pub trait AutoLoadRaw {}

impl<T: AutoLoadRaw> LoadRawSync for T {
    type Output = T;

    open spec fn loads_to(
        &self,
        repos: Option<Seq<(String, Repo)>>,
        named: Map<Seq<char>, Seq<char>>,
        r: Result<T, LoadConfigError>,
    ) -> bool {
        r matches Ok(x) && x == *self
    }

    fn load_raw(self, context: &LoadContext) -> (r: Result<T, LoadConfigError>)
        ensures
            r matches Ok(x) && x == self,
    {
        Ok(self)
    }
}

/// Whether an item loads to some value.
pub open spec fn loads_some<T: LoadRawSync>(
    item: T,
    repos: Option<Seq<(String, Repo)>>,
    named: Map<Seq<char>, Seq<char>>,
) -> bool {
    exists|x: T::Output| #[trigger] item.loads_to(repos, named, Ok(x))
}

/// Whether the first `i` items of `items` all load (to some value).
pub open spec fn all_load<T: LoadRawSync>(
    items: Seq<T>,
    repos: Option<Seq<(String, Repo)>>,
    named: Map<Seq<char>, Seq<char>>,
    i: int,
) -> bool {
    forall|j: int| 0 <= j < i ==> #[trigger] loads_some(items[j], repos, named)
}

proof fn lemma_all_load<T: LoadRawSync>(
    items: Seq<T>,
    repos: Option<Seq<(String, Repo)>>,
    named: Map<Seq<char>, Seq<char>>,
    outs: Seq<T::Output>,
    i: int,
)
    requires
        0 <= i <= outs.len(),
        forall|j: int| 0 <= j < i ==> #[trigger] items[j].loads_to(repos, named, Ok(outs[j])),
    ensures
        all_load(items, repos, named, i),
{
    assert forall|j: int| 0 <= j < i implies #[trigger] loads_some(items[j], repos, named) by {
        assert(items[j].loads_to(repos, named, Ok(outs[j])));
    }
}

/// What loading a list gives: every item loaded, in order, or the error of
/// the first item that fails after all those before it loaded.
pub open spec fn list_loads_to<T: LoadRawSync>(
    items: Seq<T>,
    repos: Option<Seq<(String, Repo)>>,
    named: Map<Seq<char>, Seq<char>>,
    r: Result<Seq<T::Output>, LoadConfigError>,
) -> bool {
    match r {
        Ok(out) => out.len() == items.len() && forall|i: int|
            0 <= i < items.len() ==> #[trigger] items[i].loads_to(repos, named, Ok(out[i])),
        Err(e) => exists|i: int|
            0 <= i < items.len() && #[trigger] items[i].loads_to(repos, named, Err(e))
                && all_load(items, repos, named, i),
    }
}

/// A result's values as a sequence.
pub open spec fn seq_result<X, E>(r: Result<Vec<X>, E>) -> Result<Seq<X>, E> {
    match r {
        Ok(v) => Ok(v@),
        Err(e) => Err(e),
    }
}

impl<T: LoadRawSync> LoadRawSync for Vec<T> {
    type Output = Vec<T::Output>;

    open spec fn loads_to(
        &self,
        repos: Option<Seq<(String, Repo)>>,
        named: Map<Seq<char>, Seq<char>>,
        r: Result<Vec<T::Output>, LoadConfigError>,
    ) -> bool {
        list_loads_to(self@, repos, named, seq_result(r))
    }

    /// Each item is loaded in order; the first failure decides the error.
    fn load_raw(self, context: &LoadContext) -> (r: Result<Vec<T::Output>, LoadConfigError>)
        ensures
            r matches Ok(out) ==> out@.len() == self@.len(),
            self@.len() == 0 ==> (r matches Ok(out) && out@.len() == 0),
    {
        let ghost all = self@;
        let ghost repos = context.repos_view();
        let ghost named = named_map(context.named@);
        let mut rest = self;
        let mut out: Vec<T::Output> = Vec::new();
        let ghost n = rest@.len();
        while rest.len() > 0
            invariant
                out@.len() + rest@.len() == n,
                n == self@.len(),
                all == self@,
                repos == context.repos_view(),
                named == named_map(context.named@),
                rest@ == all.subrange(out@.len() as int, n as int),
                forall|i: int| 0 <= i < out@.len() ==> #[trigger] all[i].loads_to(repos, named, Ok(out@[i])),
            decreases rest@.len(),
        {
            let ghost done = out@.len() as int;
            let ghost before = rest@;
            let v = rest.remove(0);
            assert(v == all[done]);
            assert(rest@ =~= all.subrange(done + 1, n as int));
            match v.load_raw(context) {
                Ok(x) => {
                    let ghost prev = out@;
                    out.push(x);
                    assert forall|i: int| 0 <= i < out@.len() implies #[trigger] all[i].loads_to(repos, named, Ok(out@[i])) by {
                        if i < done {
                            assert(out@[i] == prev[i]);
                        }
                    }
                },
                Err(e) => {
                    proof {
                        lemma_all_load(all, repos, named, out@, done);
                        assert(all[done].loads_to(repos, named, Err(e)));
                        assert(all_load(all, repos, named, done));
                        assert(list_loads_to(all, repos, named, Err(e)));
                    }
                    return Err(e);
                },
            }
        }
        Ok(out)
    }
}

impl<T: LoadRawSync> LoadRawSync for Option<T> {
    type Output = Option<T::Output>;

    open spec fn loads_to(
        &self,
        repos: Option<Seq<(String, Repo)>>,
        named: Map<Seq<char>, Seq<char>>,
        r: Result<Option<T::Output>, LoadConfigError>,
    ) -> bool {
        match *self {
            None => r matches Ok(None),
            Some(v) => match r {
                Ok(Some(x)) => v.loads_to(repos, named, Ok(x)),
                Ok(None) => false,
                Err(e) => v.loads_to(repos, named, Err(e)),
            },
        }
    }

    fn load_raw(self, context: &LoadContext) -> (r: Result<Option<T::Output>, LoadConfigError>)
        ensures
            self is None ==> r matches Ok(None),
            self is Some ==> !(r matches Ok(None)),
    {
        match self {
            Some(v) => match v.load_raw(context) {
                Ok(x) => Ok(Some(x)),
                Err(e) => Err(e),
            },
            None => Ok(None),
        }
    }
}

/// Whether the first `i` entries of a table all load (to some value),
/// each with its key named `_id`.
pub open spec fn all_entries_load<T: LoadRawSync>(
    items: Seq<(String, T)>,
    repos: Option<Seq<(String, Repo)>>,
    named: Map<Seq<char>, Seq<char>>,
    i: int,
) -> bool {
    forall|j: int| 0 <= j < i ==> #[trigger] loads_some(items[j].1, repos, named.insert("_id"@, items[j].0@))
}

/// What loading a table gives: each entry loaded with its key named
/// `_id`, keys and order kept, or the error of the first entry that fails
/// after all those before it loaded.
pub open spec fn table_loads_to<T: LoadRawSync>(
    items: Seq<(String, T)>,
    repos: Option<Seq<(String, Repo)>>,
    named: Map<Seq<char>, Seq<char>>,
    r: Result<Seq<(String, T::Output)>, LoadConfigError>,
) -> bool {
    match r {
        Ok(out) => out.len() == items.len() && forall|i: int|
            0 <= i < items.len() ==> (#[trigger] out[i]).0@ == items[i].0@
                && items[i].1.loads_to(repos, named.insert("_id"@, items[i].0@), Ok(out[i].1)),
        Err(e) => exists|i: int|
            0 <= i < items.len() && #[trigger] items[i].1.loads_to(repos, named.insert("_id"@, items[i].0@), Err(e))
                && all_entries_load(items, repos, named, i),
    }
}

impl<T: LoadRawSync> LoadRawSync for Vec<(String, T)> {
    type Output = Vec<(String, T::Output)>;

    open spec fn loads_to(
        &self,
        repos: Option<Seq<(String, Repo)>>,
        named: Map<Seq<char>, Seq<char>>,
        r: Result<Vec<(String, T::Output)>, LoadConfigError>,
    ) -> bool {
        table_loads_to(self@, repos, named, seq_result(r))
    }

    /// A table: each entry is loaded in order, with its key named `_id` in
    /// the context; the first failure decides the error.
    fn load_raw(self, context: &LoadContext) -> (r: Result<Vec<(String, T::Output)>, LoadConfigError>)
        ensures
            r matches Ok(out) ==> keys_of(out@) == keys_of(self@),
            self@.len() == 0 ==> (r matches Ok(out) && out@.len() == 0),
    {
        let ghost all = self@;
        let ghost repos = context.repos_view();
        let ghost named = named_map(context.named@);
        let ghost keys = keys_of(self@);
        let mut rest = self;
        let mut out: Vec<(String, T::Output)> = Vec::new();
        let ghost n = rest@.len();
        proof {
            reveal_strlit("_id");
        }
        while rest.len() > 0
            invariant
                out@.len() + rest@.len() == n,
                n == self@.len(),
                all == self@,
                repos == context.repos_view(),
                named == named_map(context.named@),
                keys == keys_of(all),
                rest@ == all.subrange(out@.len() as int, n as int),
                keys_of(out@) + keys_of(rest@) == keys,
                forall|i: int| 0 <= i < out@.len() ==> (#[trigger] out@[i]).0@ == all[i].0@
                    && all[i].1.loads_to(repos, named.insert("_id"@, all[i].0@), Ok(out@[i].1)),
            decreases rest@.len(),
        {
            let ghost done = out@.len() as int;
            let ghost before = rest@;
            let (id, v) = rest.remove(0);
            assert(before[0] == all[done]);
            assert(rest@ =~= all.subrange(done + 1, n as int));
            proof {
                assert(keys_of(before) =~= seq![id@] + keys_of(rest@));
            }
            let mut entry = context.duplicate();
            entry.set_named("_id", id.as_str());
            assert(named_map(entry.named@) == named.insert("_id"@, all[done].0@));
            match v.load_raw(&entry) {
                Ok(x) => {
                    let ghost prev = out@;
                    out.push((id, x));
                    proof {
                        assert(keys_of(out@) =~= keys_of(prev).push(id@));
                        assert(keys_of(out@) + keys_of(rest@) =~= keys);
                        assert forall|i: int| 0 <= i < out@.len() implies (#[trigger] out@[i]).0@ == all[i].0@
                            && all[i].1.loads_to(repos, named.insert("_id"@, all[i].0@), Ok(out@[i].1)) by {
                            if i < done {
                                assert(out@[i] == prev[i]);
                            }
                        }
                    }
                },
                Err(e) => {
                    proof {
                        assert forall|j: int| 0 <= j < done implies #[trigger] loads_some(all[j].1, repos, named.insert("_id"@, all[j].0@)) by {
                            assert(out@[j].0@ == all[j].0@);
                            assert(all[j].1.loads_to(repos, named.insert("_id"@, all[j].0@), Ok(out@[j].1)));
                        }
                        assert(all[done].1.loads_to(repos, named.insert("_id"@, all[done].0@), Err(e)));
                        assert(all_entries_load(all, repos, named, done));
                        assert(table_loads_to(all, repos, named, Err(e)));
                    }
                    return Err(e);
                },
            }
        }
        proof {
            assert(keys_of(rest@) =~= Seq::<Seq<char>>::empty());
            assert(keys_of(out@) =~= keys);
        }
        Ok(out)
    }
}

/// What loading an `enabled` field gives where substitution sees `vars`.
pub open spec fn enabled_loads_to(e: Enabled, vars: VarTree, r: Result<bool, LoadConfigError>) -> bool {
    match e {
        Enabled::Bool(b) => r == Ok::<bool, LoadConfigError>(b),
        Enabled::String(s) => match spec_substitute(vars, s@) {
            Ok(t) => match parse_bool_spec(t) {
                Some(b) => r == Ok::<bool, LoadConfigError>(b),
                None => r matches Err(LoadConfigError::InvalidValue(_)),
            },
            Err(f) => r matches Err(LoadConfigError::SubstitutionError(se)) && se@ == f,
        },
    }
}

impl LoadRawSync for Enabled {
    type Output = bool;

    open spec fn loads_to(
        &self,
        repos: Option<Seq<(String, Repo)>>,
        named: Map<Seq<char>, Seq<char>>,
        r: Result<bool, LoadConfigError>,
    ) -> bool {
        enabled_loads_to(*self, context_tree(repos), r)
    }

    /// The boolean the field holds; a text is substituted, then read as
    /// `true` or `false`.
    fn load_raw(self, context: &LoadContext) -> (r: Result<bool, LoadConfigError>)
        ensures
            enabled_loads_to(self, context_tree(context.repos_view()), r),
    {
        match self {
            Enabled::Bool(v) => Ok(v),
            Enabled::String(s) => {
                let vars = context.vars();
                let t = match vars.eval(s.as_str()) {
                    Ok(t) => t,
                    Err(e) => { return Err(LoadConfigError::SubstitutionError(e)); },
                };
                match parse_bool(t.as_str()) {
                    Some(b) => Ok(b),
                    None => Err(LoadConfigError::InvalidValue(t)),
                }
            },
        }
    }
}

/// What loading a field read as text gives where substitution sees
/// `vars`.
pub open spec fn as_string_loads_to(a: AsString, vars: VarTree, r: Result<String, LoadConfigError>) -> bool {
    match a {
        AsString::Bool(b) => r matches Ok(t) && t@ == bool_text(b),
        AsString::Int(n) => r matches Ok(t) && t@ == int_decimal(n as int),
        AsString::String(s) => match spec_substitute(vars, s@) {
            Ok(t) => r matches Ok(u) && u@ == t,
            Err(f) => r matches Err(LoadConfigError::SubstitutionError(se)) && se@ == f,
        },
    }
}

impl LoadRawSync for AsString {
    type Output = String;

    open spec fn loads_to(
        &self,
        repos: Option<Seq<(String, Repo)>>,
        named: Map<Seq<char>, Seq<char>>,
        r: Result<String, LoadConfigError>,
    ) -> bool {
        as_string_loads_to(*self, context_tree(repos), r)
    }

    /// The text the field holds: a boolean's or number's text, or a text
    /// with variables substituted.
    fn load_raw(self, context: &LoadContext) -> (r: Result<String, LoadConfigError>)
        ensures
            as_string_loads_to(self, context_tree(context.repos_view()), r),
    {
        match self {
            AsString::Bool(v) => Ok(bool_to_string(v)),
            AsString::String(s) => match context.vars().eval(s.as_str()) {
                Ok(t) => Ok(t),
                Err(e) => Err(LoadConfigError::SubstitutionError(e)),
            },
            AsString::Int(n) => Ok(int_to_string(n)),
        }
    }
}

/// Parameters of the selected environment, each substituted, in order (a
/// later one of a key replaces an earlier one); the first substitution that
/// fails decides the error.
pub open spec fn env_params_fold(vars: VarTree, es: Seq<(String, String)>) -> Result<Map<Seq<char>, Seq<char>>, SubstFault>
    decreases es.len(),
{
    if es.len() == 0 {
        Ok(Map::empty())
    } else {
        match env_params_fold(vars, es.drop_last()) {
            Err(e) => Err(e),
            Ok(m) => match spec_substitute(vars, es.last().1@) {
                Err(e) => Err(e),
                Ok(t) => Ok(m.insert(es.last().0@, t)),
            },
        }
    }
}

/// Default parameters added after those of the environment: each one
/// whose key is not there yet is substituted and added, in order.
pub open spec fn default_params_fold(vars: VarTree, m0: Map<Seq<char>, Seq<char>>, ds: Seq<(String, String)>) -> Result<
    Map<Seq<char>, Seq<char>>,
    SubstFault,
>
    decreases ds.len(),
{
    if ds.len() == 0 {
        Ok(m0)
    } else {
        match default_params_fold(vars, m0, ds.drop_last()) {
            Err(e) => Err(e),
            Ok(m) => if m.contains_key(ds.last().0@) {
                Ok(m)
            } else {
                match spec_substitute(vars, ds.last().1@) {
                    Err(e) => Err(e),
                    Ok(t) => Ok(m.insert(ds.last().0@, t)),
                }
            },
        }
    }
}

/// The table of a parameters file for one name, empty when it has none.
pub open spec fn params_table(params: Seq<(String, Vec<(String, String)>)>, name: Seq<char>) -> Seq<(String, String)> {
    match table_get(params, name) {
        Some(t) => t@,
        None => Seq::empty(),
    }
}

/// The parameters of a project for environment `env`: those written for
/// the environment, then the defaults (written under `__default__`) for
/// keys the environment does not set; every value is substituted.
pub open spec fn params_spec(vars: VarTree, params: Seq<(String, Vec<(String, String)>)>, env: Seq<char>) -> Result<
    Map<Seq<char>, Seq<char>>,
    SubstFault,
> {
    match env_params_fold(vars, params_table(params, env)) {
        Err(e) => Err(e),
        Ok(m) => default_params_fold(vars, m, params_table(params, "__default__"@)),
    }
}

proof fn lemma_env_params_err(vars: VarTree, es: Seq<(String, String)>, n: int)
    requires
        0 <= n <= es.len(),
        env_params_fold(vars, es.take(n)) is Err,
    ensures
        env_params_fold(vars, es) == env_params_fold(vars, es.take(n)),
    decreases es.len() - n,
{
    if n < es.len() {
        assert(es.take(n + 1).drop_last() =~= es.take(n));
        lemma_env_params_err(vars, es, n + 1);
    } else {
        assert(es.take(n) =~= es);
    }
}

proof fn lemma_default_params_err(vars: VarTree, m0: Map<Seq<char>, Seq<char>>, ds: Seq<(String, String)>, n: int)
    requires
        0 <= n <= ds.len(),
        default_params_fold(vars, m0, ds.take(n)) is Err,
    ensures
        default_params_fold(vars, m0, ds) == default_params_fold(vars, m0, ds.take(n)),
    decreases ds.len() - n,
{
    if n < ds.len() {
        assert(ds.take(n + 1).drop_last() =~= ds.take(n));
        lemma_default_params_err(vars, m0, ds, n + 1);
    } else {
        assert(ds.take(n) =~= ds);
    }
}

/// The parameters of a project for environment `env` out of its
/// parameters file, read as a table of tables (see `params_spec`).
pub fn load_params(params: &Vec<(String, Vec<(String, String)>)>, env: &str, vars: &Value) -> (r: Result<
    Vec<(String, String)>,
    LoadConfigError,
>)
    ensures
        match params_spec(vars@, params@, env@) {
            Ok(m) => (r matches Ok(out) && text_map(out@) == m),
            Err(f) => (r matches Err(LoadConfigError::SubstitutionError(se)) && se@ == f),
        },
{
    let empty: Vec<(String, String)> = Vec::new();
    let env_params = match find_entry(params, env) {
        Some(j) => &params[j].1,
        None => &empty,
    };
    proof {
        reveal_strlit("__default__");
    }
    let default_params = match find_entry(params, "__default__") {
        Some(j) => &params[j].1,
        None => &empty,
    };
    let ghost es = env_params@;
    let ghost ds = default_params@;
    assert(es == params_table(params@, env@));
    assert(ds == params_table(params@, "__default__"@));
    let mut result: Vec<(String, String)> = Vec::new();
    assert(text_map(result@) =~= Map::<Seq<char>, Seq<char>>::empty());
    assert(es.take(0) =~= Seq::<(String, String)>::empty());
    let mut i: usize = 0;
    while i < env_params.len()
        invariant
            i <= es.len(),
            es == env_params@,
            es == params_table(params@, env@),
            ds == params_table(params@, "__default__"@),
            env_params_fold(vars@, es.take(i as int)) == Ok::<Map<Seq<char>, Seq<char>>, SubstFault>(text_map(result@)),
        decreases env_params.len() - i,
    {
        proof {
            assert(es.take(i + 1).drop_last() =~= es.take(i as int));
            assert(es.take(i + 1).last() == es[i as int]);
        }
        match vars.eval(env_params[i].1.as_str()) {
            Ok(t) => {
                let ghost before = result@;
                table_insert(&mut result, env_params[i].0.clone(), t);
                assert(text_map(result@) =~= text_map(before).insert(es[i as int].0@, t@));
            },
            Err(e) => {
                proof {
                    lemma_env_params_err(vars@, es, i + 1);
                }
                return Err(LoadConfigError::SubstitutionError(e));
            },
        }
        i = i + 1;
    }
    assert(es.take(es.len() as int) =~= es);
    let ghost m0 = text_map(result@);
    let mut k: usize = 0;
    assert(ds.take(0) =~= Seq::<(String, String)>::empty());
    while k < default_params.len()
        invariant
            k <= ds.len(),
            ds == default_params@,
            es == params_table(params@, env@),
            ds == params_table(params@, "__default__"@),
            env_params_fold(vars@, es) == Ok::<Map<Seq<char>, Seq<char>>, SubstFault>(m0),
            default_params_fold(vars@, m0, ds.take(k as int)) == Ok::<Map<Seq<char>, Seq<char>>, SubstFault>(
                text_map(result@),
            ),
        decreases default_params.len() - k,
    {
        proof {
            assert(ds.take(k + 1).drop_last() =~= ds.take(k as int));
            assert(ds.take(k + 1).last() == ds[k as int]);
        }
        let key = &default_params[k].0;
        let present = match find_entry(&result, key.as_str()) {
            Some(_) => true,
            None => false,
        };
        if !present {
            match vars.eval(default_params[k].1.as_str()) {
                Ok(t) => {
                    let ghost before = result@;
                    table_insert(&mut result, key.clone(), t);
                    assert(text_map(result@) =~= text_map(before).insert(key@, t@));
                },
                Err(e) => {
                    proof {
                        lemma_default_params_err(vars@, m0, ds, k + 1);
                    }
                    return Err(LoadConfigError::SubstitutionError(e));
                },
            }
        }
        k = k + 1;
    }
    assert(ds.take(ds.len() as int) =~= ds);
    Ok(result)
}

} // verus!
