//! Who may do what: the runner's access tokens, each granting read, write
//! or execute rights globally or per project.

use vstd::prelude::*;
use crate::keyed::{key_index, keys_of, opt_text, table_get, table_insert, find_entry};
use crate::services::LoadConfigError;
use crate::text::str_to_string;
use crate::vars::{spec_substitute, SubstFault, Value};

verus! {

/// Rights on one scope.
#[derive(Debug, Clone, Copy, PartialEq, Eq)]
pub struct Permission {
    pub read: bool,
    pub write: bool,
    pub execute: bool,
}

/// A kind of action to be allowed or refused.
#[derive(Debug, Clone, Copy, PartialEq, Eq)]
pub enum ActionType {
    Write,
    Read,
    Execute,
}

/// Rights of one token: globally, and per project.
#[derive(Debug)]
pub struct Permissions {
    pub global: Permission,
    pub projects: Vec<(String, Permission)>,
}

/// Rights of anonymous callers and of each token.
#[derive(Debug)]
pub struct Tokens {
    pub anonymous: Permissions,
    pub tokens: Vec<(String, Permissions)>,
}

/// The runner's own configuration.
#[derive(Debug)]
pub struct ServiceConfig {
    pub data_dir: String,
    pub repos_path: String,
    pub data_path: String,
    pub internal_path: String,
    pub worker_url: Option<String>,
    pub secrets: Vec<(String, String)>,
    pub tokens: Option<Tokens>,
}

/// No rights at all.
pub open spec fn no_permission() -> Permission {
    Permission { read: false, write: false, execute: false }
}

impl Default for Permission {
    fn default() -> (r: Permission)
        ensures
            r == no_permission(),
    {
        Permission { read: false, write: false, execute: false }
    }
}

impl Default for Permissions {
    fn default() -> (r: Permissions)
        ensures
            r.global == no_permission(),
            r.projects@.len() == 0,
    {
        Permissions { global: Permission::default(), projects: Vec::new() }
    }
}

/// Whether a permission allows an action.
pub open spec fn perm_allows(p: Permission, action: ActionType) -> bool {
    match action {
        ActionType::Write => p.write,
        ActionType::Read => p.read,
        ActionType::Execute => p.execute,
    }
}

/// Whether rights allow an action on a project (on the project's own
/// rights, none when it has no entry) or, with no project, globally.
pub open spec fn permissions_allow(
    projects: Seq<(String, Permission)>,
    global: Permission,
    project: Option<Seq<char>>,
    action: ActionType,
) -> bool {
    match project {
        Some(p) => match table_get(projects, p) {
            Some(perm) => perm_allows(perm, action),
            None => false,
        },
        None => perm_allows(global, action),
    }
}

/// Whether the configuration allows a caller with `token` (anonymous
/// without one) an action on `project` (globally without one). With no
/// tokens configured everything is allowed; an unknown token is allowed
/// nothing.
pub open spec fn config_allows(
    tokens: Option<Tokens>,
    token: Option<Seq<char>>,
    project: Option<Seq<char>>,
    action: ActionType,
) -> bool {
    match tokens {
        None => true,
        Some(t) => match token {
            Some(k) => match table_get(t.tokens@, k) {
                Some(p) => permissions_allow(p.projects@, p.global, project, action),
                None => false,
            },
            None => permissions_allow(t.anonymous.projects@, t.anonymous.global, project, action),
        },
    }
}

/// Without a tokens list, every caller may do everything.
pub proof fn lemma_no_tokens_allow_all(token: Option<Seq<char>>, project: Option<Seq<char>>, action: ActionType)
    ensures
        config_allows(None, token, project, action),
{
}

/// A token that the tokens list does not hold may do nothing.
pub proof fn lemma_unknown_token_refused(tokens: Tokens, token: Seq<char>, project: Option<Seq<char>>, action: ActionType)
    requires
        table_get(tokens.tokens@, token) is None,
    ensures
        !config_allows(Some(tokens), Some(token), project, action),
{
}

/// On a project, a caller has the rights written for that project and no
/// others: with no entry for the project, nothing is allowed there,
/// whatever the caller's global rights.
pub proof fn lemma_project_rights_only(perms: Permissions, project: Seq<char>, action: ActionType)
    requires
        table_get(perms.projects@, project) is None,
    ensures
        !permissions_allow(perms.projects@, perms.global, Some(project), action),
{
}

impl Permission {
    /// Whether this permission allows `action`.
    pub fn check_allowed(&self, action: ActionType) -> (r: bool)
        ensures
            r == perm_allows(*self, action),
    {
        match action {
            ActionType::Write => self.write,
            ActionType::Read => self.read,
            ActionType::Execute => self.execute,
        }
    }
}

impl Permissions {
    /// Whether these rights allow `action` on `project`, or globally.
    pub fn check_allowed(&self, project: Option<&str>, action: ActionType) -> (r: bool)
        ensures
            r == permissions_allow(
                self.projects@,
                self.global,
                opt_text(project),
                action,
            ),
    {
        match project {
            Some(p) => match find_entry(&self.projects, p) {
                Some(i) => self.projects[i].1.check_allowed(action),
                None => Permission::default().check_allowed(action),
            },
            None => self.global.check_allowed(action),
        }
    }
}

impl ServiceConfig {
    /// Whether a caller with `token` may do `action` on `project`
    /// (see `config_allows`).
    pub fn check_allowed(&self, token: Option<&str>, project: Option<&str>, action: ActionType) -> (r: bool)
        ensures
            r == config_allows(
                self.tokens,
                opt_text(token),
                opt_text(project),
                action,
            ),
    {
        match &self.tokens {
            Some(tokens) => match token {
                Some(t) => match find_entry(&tokens.tokens, t) {
                    Some(i) => tokens.tokens[i].1.check_allowed(project, action),
                    None => {
                        let none = Permissions::default();
                        let r = none.check_allowed(project, action);
                        assert(r == false) by {
                            if project is Some {
                                assert(key_index(keys_of(none.projects@), project->0@) == -1);
                            }
                        }
                        r
                    },
                },
                None => tokens.anonymous.check_allowed(project, action),
            },
            None => true,
        }
    }
}

/// A right as written in the configuration.
#[derive(Debug, Clone, Copy, PartialEq, Eq)]
pub enum PermissionKind {
    Write,
    Read,
    Execute,
}

/// The rights a list of rights grants: each one that it names.
pub open spec fn grants(kinds: Seq<PermissionKind>) -> Permission {
    Permission {
        read: kinds.contains(PermissionKind::Read),
        write: kinds.contains(PermissionKind::Write),
        execute: kinds.contains(PermissionKind::Execute),
    }
}

/// The rights a list of rights grants.
pub fn permission_from_kinds(kinds: &Vec<PermissionKind>) -> (r: Permission)
    ensures
        r == grants(kinds@),
{
    let mut result = Permission::default();
    for i in 0..kinds.len()
        invariant
            result == grants(kinds@.take(i as int)),
    {
        proof {
            assert(kinds@.take(i + 1) =~= kinds@.take(i as int).push(kinds@[i as int]));
        }
        match kinds[i] {
            PermissionKind::Write => { result.write = true; },
            PermissionKind::Read => { result.read = true; },
            PermissionKind::Execute => { result.execute = true; },
        }
        proof {
            let t = kinds@.take(i + 1);
            assert(t.contains(kinds@[i as int])) by {
                assert(t[i as int] == kinds@[i as int]);
            }
            assert forall|k: PermissionKind| #[trigger] t.contains(k) == (kinds@.take(i as int).contains(k) || k == kinds@[i as int]) by {
                if t.contains(k) && k != kinds@[i as int] {
                    let w = choose|w: int| 0 <= w < t.len() && t[w] == k;
                    assert(kinds@.take(i as int)[w] == k);
                }
                if kinds@.take(i as int).contains(k) {
                    let w = choose|w: int| 0 <= w < i && kinds@.take(i as int)[w] == k;
                    assert(t[w] == k);
                }
            }
        }
    }
    assert(kinds@.take(kinds@.len() as int) =~= kinds@);
    result
}

/// An entry of the `tokens` list of the configuration: a token (none
/// for anonymous callers), its global rights and its rights per project.
#[derive(Debug)]
pub struct TokenSpec {
    pub token: Option<String>,
    pub global: Vec<PermissionKind>,
    pub projects: Vec<(String, Vec<PermissionKind>)>,
}

/// The rights per project of a token entry.
pub open spec fn project_grants(ps: Seq<(String, Vec<PermissionKind>)>) -> Seq<(Seq<char>, Permission)> {
    ps.map_values(|e: (String, Vec<PermissionKind>)| (e.0@, grants(e.1@)))
}

/// Rights per project, as plain values.
pub open spec fn project_perms_view(ps: Seq<(String, Permission)>) -> Seq<(Seq<char>, Permission)> {
    ps.map_values(|e: (String, Permission)| (e.0@, e.1))
}

fn permissions_from_spec(t: &TokenSpec) -> (r: Permissions)
    ensures
        r.global == grants(t.global@),
        project_perms_view(r.projects@) == project_grants(t.projects@),
{
    let global = permission_from_kinds(&t.global);
    let mut projects: Vec<(String, Permission)> = Vec::new();
    for i in 0..t.projects.len()
        invariant
            project_perms_view(projects@) == project_grants(t.projects@.take(i as int)),
    {
        let p = permission_from_kinds(&t.projects[i].1);
        let name = t.projects[i].0.clone();
        let ghost before = projects@;
        projects.push((name, p));
        proof {
            let e = t.projects@[i as int];
            assert(project_perms_view(projects@) =~= project_perms_view(before).push((e.0@, p)));
            assert(project_grants(t.projects@.take(i + 1)) =~= project_grants(
                t.projects@.take(i as int),
            ).push((e.0@, grants(e.1@))));
        }
    }
    assert(t.projects@.take(t.projects@.len() as int) =~= t.projects@);
    Permissions { global, projects }
}

/// What a tokens list gives, as plain values: the anonymous entry (the
/// first one without a token; later ones are skipped) and, per token
/// text, the entry that came last.
pub struct TokensSpec {
    pub anonymous: Option<(Permission, Seq<(Seq<char>, Permission)>)>,
    pub tokens: Map<Seq<char>, (Permission, Seq<(Seq<char>, Permission)>)>,
}

/// Reads a tokens list, substituting variables into each token; the
/// first substitution that fails decides the error.
pub open spec fn tokens_spec(vars: crate::vars::VarTree, ts: Seq<TokenSpec>) -> Result<TokensSpec, SubstFault>
    decreases ts.len(),
{
    if ts.len() == 0 {
        Ok(TokensSpec { anonymous: None, tokens: Map::empty() })
    } else {
        match tokens_spec(vars, ts.drop_last()) {
            Err(e) => Err(e),
            Ok(acc) => {
                let t = ts.last();
                let perms = (grants(t.global@), project_grants(t.projects@));
                match t.token {
                    Some(k) => match spec_substitute(vars, k@) {
                        Err(e) => Err(e),
                        Ok(key) => Ok(TokensSpec { anonymous: acc.anonymous, tokens: acc.tokens.insert(key, perms) }),
                    },
                    None => if acc.anonymous is Some {
                        Ok(acc)
                    } else {
                        Ok(TokensSpec { anonymous: Some(perms), tokens: acc.tokens })
                    },
                }
            },
        }
    }
}

/// The rights of a token table, per token, as plain values.
pub open spec fn token_table_view(ts: Seq<(String, Permissions)>) -> Map<Seq<char>, (Permission, Seq<(Seq<char>, Permission)>)> {
    Map::new(
        |k: Seq<char>| table_get(ts, k) is Some,
        |k: Seq<char>| (table_get(ts, k)->0.global, project_perms_view(table_get(ts, k)->0.projects@)),
    )
}

/// Reads the `tokens` list of the configuration (see `tokens_spec`);
/// anonymous callers get no rights when no entry is anonymous.
pub fn load_tokens(specs: &Vec<TokenSpec>, vars: &Value) -> (r: Result<Tokens, LoadConfigError>)
    ensures
        match r {
            Ok(t) => tokens_spec(vars@, specs@) matches Ok(s)
                && token_table_view(t.tokens@) == s.tokens
                && match s.anonymous {
                    Some((g, ps)) => t.anonymous.global == g && project_perms_view(t.anonymous.projects@) == ps,
                    None => t.anonymous.global == no_permission() && t.anonymous.projects@.len() == 0,
                },
            Err(e) => tokens_spec(vars@, specs@) matches Err(f)
                && e matches LoadConfigError::SubstitutionError(se) && se@ == f,
        },
{
    let mut anon: Option<Permissions> = None;
    let mut tokens: Vec<(String, Permissions)> = Vec::new();
    let mut i: usize = 0;
    assert(specs@.take(0) =~= Seq::<TokenSpec>::empty());
    assert(token_table_view(tokens@) =~= Map::<Seq<char>, (Permission, Seq<(Seq<char>, Permission)>)>::empty());
    while i < specs.len()
        invariant
            i <= specs@.len(),
            tokens_spec(vars@, specs@.take(i as int)) matches Ok(s)
                && token_table_view(tokens@) == s.tokens
                && match s.anonymous {
                    Some((g, ps)) => anon matches Some(a) && a.global == g && project_perms_view(a.projects@) == ps,
                    None => anon is None,
                },
        decreases specs.len() - i,
    {
        proof {
            assert(specs@.take(i + 1).drop_last() =~= specs@.take(i as int));
            assert(specs@.take(i + 1).last() == specs@[i as int]);
        }
        let t = &specs[i];
        match &t.token {
            Some(k) => {
                match vars.eval(k.as_str()) {
                    Ok(key) => {
                        let perms = permissions_from_spec(t);
                        let ghost kv = key@;
                        let ghost pv = (perms.global, project_perms_view(perms.projects@));
                        let ghost before = tokens@;
                        table_insert(&mut tokens, key, perms);
                        proof {
                            let s = tokens_spec(vars@, specs@.take(i as int))->Ok_0;
                            assert(token_table_view(tokens@) =~= s.tokens.insert(kv, pv)) by {
                                assert forall|q: Seq<char>| #[trigger] token_table_view(tokens@).contains_key(q)
                                    == s.tokens.insert(kv, pv).contains_key(q) by {
                                    assert(table_get(tokens@, q) == if q == kv { Some(perms) } else { table_get(before, q) });
                                }
                                assert forall|q: Seq<char>| token_table_view(tokens@).contains_key(q)
                                    implies #[trigger] token_table_view(tokens@)[q] == s.tokens.insert(kv, pv)[q] by {
                                    assert(table_get(tokens@, q) == if q == kv { Some(perms) } else { table_get(before, q) });
                                }
                            }
                        }
                    },
                    Err(e) => {
                        proof {
                            lemma_tokens_prefix_err(vars@, specs@, i as int + 1);
                        }
                        return Err(LoadConfigError::SubstitutionError(e));
                    },
                }
            },
            None => {
                if anon.is_none() {
                    anon = Some(permissions_from_spec(t));
                }
            },
        }
        i = i + 1;
    }
    assert(specs@.take(specs@.len() as int) =~= specs@);
    let anonymous = match anon {
        Some(a) => a,
        None => Permissions::default(),
    };
    Ok(Tokens { anonymous, tokens })
}

/// An error met on a prefix of the tokens list is the error of the whole
/// list.
pub proof fn lemma_tokens_prefix_err(vars: crate::vars::VarTree, ts: Seq<TokenSpec>, n: int)
    requires
        0 <= n <= ts.len(),
        tokens_spec(vars, ts.take(n)) is Err,
    ensures
        tokens_spec(vars, ts) == tokens_spec(vars, ts.take(n)),
    decreases ts.len() - n,
{
    if n < ts.len() {
        assert(ts.take(n + 1).drop_last() =~= ts.take(n));
        lemma_tokens_prefix_err(vars, ts, n + 1);
    } else {
        assert(ts.take(n) =~= ts);
    }
}

/// `base` joined with a relative path component, as `Path::join` does:
/// a separator goes between them unless `base` is empty or ends in one.
pub open spec fn join_spec(base: Seq<char>, part: Seq<char>) -> Seq<char> {
    if base.len() == 0 {
        part
    } else if base.last() == '/' {
        base + part
    } else {
        base + seq!['/'] + part
    }
}

/// `base` joined with a relative path component (see `join_spec`).
pub fn path_join(base: &str, part: &str) -> (r: String)
    ensures
        r@ == join_spec(base@, part@),
{
    let n = base.unicode_len();
    let mut r = str_to_string(base);
    if n > 0 && base.get_char(n - 1) != '/' {
        crate::text::string_push(&mut r, '/');
    }
    r.append(part);
    r
}

/// Directory names under the data directory.
pub const DEFAULT_REPOS_PATH: &'static str = "repos";
pub const DEFAULT_DATA_PATH: &'static str = "data";
pub const DEFAULT_INTERNAL_PATH: &'static str = "internal";
/// The data directory used when the configuration names none.
pub const DEFAULT_DATA_DIR: &'static str = "~/.microci";

impl ServiceConfig {
    /// The runner's configuration from its parts: the data directory
    /// (its home prefix already expanded) with `data`, `repos` and
    /// `internal` under it, the worker's address, the secrets and, when
    /// a tokens list is given, the rights it grants (see `load_tokens`).
    pub fn from_parts(
        data_dir: String,
        worker_url: Option<String>,
        secrets: Vec<(String, String)>,
        tokens: Option<Vec<TokenSpec>>,
        vars: &Value,
    ) -> (r: Result<ServiceConfig, LoadConfigError>)
        ensures
            match r {
                Ok(c) => c.data_dir == data_dir
                    && c.data_path@ == join_spec(data_dir@, DEFAULT_DATA_PATH@)
                    && c.repos_path@ == join_spec(data_dir@, DEFAULT_REPOS_PATH@)
                    && c.internal_path@ == join_spec(data_dir@, DEFAULT_INTERNAL_PATH@)
                    && c.worker_url == worker_url
                    && c.secrets@ == secrets@
                    && (tokens is None <==> c.tokens is None)
                    && (tokens matches Some(ts) ==> tokens_spec(vars@, ts@) is Ok),
                Err(e) => tokens matches Some(ts) && tokens_spec(vars@, ts@) is Err
                    && e is SubstitutionError,
            },
    {
        let data_path = path_join(data_dir.as_str(), DEFAULT_DATA_PATH);
        let repos_path = path_join(data_dir.as_str(), DEFAULT_REPOS_PATH);
        let internal_path = path_join(data_dir.as_str(), DEFAULT_INTERNAL_PATH);
        let tokens = match tokens {
            Some(ts) => match load_tokens(&ts, vars) {
                Ok(t) => Some(t),
                Err(e) => { return Err(e); },
            },
            None => None,
        };
        Ok(ServiceConfig { data_dir, repos_path, data_path, internal_path, worker_url, secrets, tokens })
    }
}

} // verus!
