//! Actions of the first configuration format: an action pulls some
//! repositories, then runs the pipelines of each of its cases whose
//! condition matches.

use vstd::prelude::*;
use crate::keyed::{clone_strings, table_get, table_insert};
use crate::loading::texts;
use crate::text::str_to_string;
use crate::dynconf::eval::{push_path, push_spec};

verus! {

/// A repository pulled from `source` on `branch`.
#[derive(Debug)]
pub struct Repo {
    pub source: String,
    pub branch: String,
}

/// When a case applies.
#[derive(Debug, Clone, Copy, PartialEq, Eq)]
pub enum Condition {
    Always,
}

/// Pipelines to run when a condition matches.
#[derive(Debug)]
pub struct Case {
    pub condition: Condition,
    pub run_pipelines: Vec<String>,
}

/// Repositories to pull, then cases to check.
#[derive(Debug)]
pub struct Action {
    pub update_repos: Vec<String>,
    pub cases: Vec<Case>,
}

/// A repository as the configuration file writes it: the branch may be
/// left out.
#[derive(Debug)]
pub struct RawRepo {
    pub id: String,
    pub source: String,
    pub branch: Option<String>,
}

/// Whether a condition matches, whatever the repositories' changes.
pub open spec fn condition_matches(c: Condition) -> bool {
    match c {
        Condition::Always => true,
    }
}

/// The pipelines of the first `n` cases whose condition matches, in order.
pub open spec fn case_pipelines(cases: Seq<Case>, n: int) -> Seq<Seq<char>>
    decreases n,
{
    if n <= 0 || n > cases.len() {
        Seq::empty()
    } else {
        let before = case_pipelines(cases, n - 1);
        if condition_matches(cases[n - 1].condition) {
            before + texts(cases[n - 1].run_pipelines@)
        } else {
            before
        }
    }
}

/// The last repository written with `id` among the first `n`, if any.
pub open spec fn last_raw(raw: Seq<RawRepo>, id: Seq<char>, n: int) -> Option<RawRepo>
    decreases n,
{
    if n <= 0 || n > raw.len() {
        None
    } else if raw[n - 1].id@ == id {
        Some(raw[n - 1])
    } else {
        last_raw(raw, id, n - 1)
    }
}

/// Whether the repository held for `id` in a table is the one written
/// last for `id` among the first `n` raw entries (where one is held).
pub open spec fn held_as_written(table: Seq<(String, Repo)>, raw: Seq<RawRepo>, n: int, id: Seq<char>) -> bool {
    match table_get(table, id) {
        Some(x) => match last_raw(raw, id, n) {
            Some(w) => x.source@ == w.source@ && x.branch@ == branch_or_master(w.branch),
            None => false,
        },
        None => true,
    }
}

/// The branch a repository is pulled on: the one written, else `master`.
pub open spec fn branch_or_master(b: Option<String>) -> Seq<char> {
    match b {
        Some(s) => s@,
        None => "master"@,
    }
}

impl Condition {
    /// Whether the condition matches the repositories' changes (see
    /// `condition_matches`).
    pub fn check_matched(&self, diffs: &Vec<(String, Vec<String>)>) -> (r: bool)
        ensures
            r == condition_matches(*self),
    {
        match self {
            Condition::Always => true,
        }
    }
}

impl Action {
    /// The pipelines to run once the repositories are pulled: those of each
    /// case whose condition matches, in order (see `case_pipelines`).
    pub fn matched_pipelines(&self, diffs: &Vec<(String, Vec<String>)>) -> (r: Vec<String>)
        ensures
            texts(r@) == case_pipelines(self.cases@, self.cases@.len() as int),
    {
        let mut out: Vec<String> = Vec::new();
        let mut i: usize = 0;
        assert(texts(out@) =~= Seq::<Seq<char>>::empty());
        while i < self.cases.len()
            invariant
                i <= self.cases@.len(),
                texts(out@) == case_pipelines(self.cases@, i as int),
            decreases self.cases.len() - i,
        {
            if self.cases[i].condition.check_matched(diffs) {
                let ps = &self.cases[i].run_pipelines;
                let ghost start = texts(out@);
                let mut j: usize = 0;
                while j < ps.len()
                    invariant
                        j <= ps@.len(),
                        ps == &self.cases@[i as int].run_pipelines,
                        texts(out@) == start + texts(ps@).take(j as int),
                    decreases ps.len() - j,
                {
                    let ghost before = out@;
                    out.push(ps[j].clone());
                    proof {
                        assert(texts(out@) =~= texts(before).push(ps@[j as int]@));
                        assert(texts(ps@).take(j + 1) =~= texts(ps@).take(j as int).push(ps@[j as int]@));
                    }
                    j = j + 1;
                }
                assert(texts(ps@).take(j as int) =~= texts(ps@));
            }
            i = i + 1;
        }
        out
    }
}

/// The repositories of a configuration file by id: a later entry of an id
/// replaces an earlier one, and a missing branch is `master`.
pub fn repos_from_raw(raw: Vec<RawRepo>) -> (r: Vec<(String, Repo)>)
    ensures
        forall|id: Seq<char>| #[trigger] held_as_written(r@, raw@, raw@.len() as int, id),
        forall|id: Seq<char>|
            #[trigger] last_raw(raw@, id, raw@.len() as int) is Some ==> table_get(r@, id) is Some,
{
    let mut out: Vec<(String, Repo)> = Vec::new();
    let mut i: usize = 0;
    while i < raw.len()
        invariant
            i <= raw@.len(),
            forall|id: Seq<char>| #[trigger] held_as_written(out@, raw@, i as int, id),
            forall|id: Seq<char>| #[trigger] last_raw(raw@, id, i as int) is Some ==> table_get(out@, id) is Some,
        decreases raw.len() - i,
    {
        let branch = match &raw[i].branch {
            Some(b) => b.clone(),
            None => {
                proof {
                    reveal_strlit("master");
                }
                str_to_string("master")
            },
        };
        let repo = Repo { source: raw[i].source.clone(), branch };
        let ghost before = out@;
        let ghost nid = raw@[i as int].id@;
        table_insert(&mut out, raw[i].id.clone(), repo);
        proof {
            assert forall|id: Seq<char>| #[trigger] held_as_written(out@, raw@, i + 1, id) by {
                if id != nid {
                    assert(table_get(out@, id) == table_get(before, id));
                    assert(held_as_written(before, raw@, i as int, id));
                }
            }
            assert forall|id: Seq<char>| #[trigger] last_raw(raw@, id, i + 1) is Some implies table_get(out@, id) is Some by {
                if id != nid {
                    assert(table_get(out@, id) == table_get(before, id));
                    assert(last_raw(raw@, id, i + 1) == last_raw(raw@, id, i as int));
                }
            }
        }
        i = i + 1;
    }
    out
}

/// A condition as the configuration file writes it.
#[derive(Debug, Clone, Copy, PartialEq, Eq)]
pub enum ConditionType {
    Always,
}

/// A case as the configuration file writes it.
#[derive(Debug)]
pub struct RawCase {
    pub condition: ConditionType,
    pub run_pipelines: Vec<String>,
}

/// An action as the configuration file writes it.
#[derive(Debug)]
pub struct RawAction {
    pub id: String,
    pub update_repos: Vec<String>,
    pub conditions: Vec<RawCase>,
}

/// The condition that a written condition stands for.
pub open spec fn condition_of(t: ConditionType) -> Condition {
    match t {
        ConditionType::Always => Condition::Always,
    }
}

/// Whether `a` is the action written as `w`: the same repositories, and
/// one case per written case, with its condition and pipelines.
pub open spec fn action_as_written(a: Action, w: RawAction) -> bool {
    &&& a.update_repos@ == w.update_repos@
    &&& a.cases@.len() == w.conditions@.len()
    &&& forall|j: int|
        0 <= j < a.cases@.len() ==> (#[trigger] a.cases@[j]).condition == condition_of(w.conditions@[j].condition)
            && a.cases@[j].run_pipelines@ == w.conditions@[j].run_pipelines@
}

/// The last action written with `id` among the first `n`, if any.
pub open spec fn last_action(raw: Seq<RawAction>, id: Seq<char>, n: int) -> Option<RawAction>
    decreases n,
{
    if n <= 0 || n > raw.len() {
        None
    } else if raw[n - 1].id@ == id {
        Some(raw[n - 1])
    } else {
        last_action(raw, id, n - 1)
    }
}

/// Whether the action held for `id` in a table is the one written last for
/// `id` among the first `n` (where one is held).
pub open spec fn action_held_as_written(table: Seq<(String, Action)>, raw: Seq<RawAction>, n: int, id: Seq<char>) -> bool {
    match table_get(table, id) {
        Some(a) => match last_action(raw, id, n) {
            Some(w) => action_as_written(a, w),
            None => false,
        },
        None => true,
    }
}

/// The action that `w` writes.
fn action_from_raw(w: &RawAction) -> (r: Action)
    ensures
        action_as_written(r, *w),
{
    let mut cases: Vec<Case> = Vec::new();
    let mut j: usize = 0;
    while j < w.conditions.len()
        invariant
            j <= w.conditions@.len(),
            cases@.len() == j,
            forall|k: int|
                0 <= k < j ==> (#[trigger] cases@[k]).condition == condition_of(w.conditions@[k].condition)
                    && cases@[k].run_pipelines@ == w.conditions@[k].run_pipelines@,
        decreases w.conditions.len() - j,
    {
        let condition = match w.conditions[j].condition {
            ConditionType::Always => Condition::Always,
        };
        cases.push(Case { condition, run_pipelines: clone_strings(&w.conditions[j].run_pipelines) });
        j = j + 1;
    }
    Action { update_repos: clone_strings(&w.update_repos), cases }
}

/// The actions of a configuration file by id: a later action of an id
/// replaces an earlier one; each written condition becomes a case.
pub fn actions_from_raw(raw: Vec<RawAction>) -> (r: Vec<(String, Action)>)
    ensures
        forall|id: Seq<char>| #[trigger] action_held_as_written(r@, raw@, raw@.len() as int, id),
        forall|id: Seq<char>|
            #[trigger] last_action(raw@, id, raw@.len() as int) is Some ==> table_get(r@, id) is Some,
{
    let mut out: Vec<(String, Action)> = Vec::new();
    let mut i: usize = 0;
    while i < raw.len()
        invariant
            i <= raw@.len(),
            forall|id: Seq<char>| #[trigger] action_held_as_written(out@, raw@, i as int, id),
            forall|id: Seq<char>| #[trigger] last_action(raw@, id, i as int) is Some ==> table_get(out@, id) is Some,
        decreases raw.len() - i,
    {
        let action = action_from_raw(&raw[i]);
        let ghost before = out@;
        let ghost nid = raw@[i as int].id@;
        table_insert(&mut out, raw[i].id.clone(), action);
        proof {
            assert forall|id: Seq<char>| #[trigger] action_held_as_written(out@, raw@, i + 1, id) by {
                if id != nid {
                    assert(table_get(out@, id) == table_get(before, id));
                    assert(action_held_as_written(before, raw@, i as int, id));
                }
            }
            assert forall|id: Seq<char>| #[trigger] last_action(raw@, id, i + 1) is Some implies table_get(out@, id) is Some by {
                if id != nid {
                    assert(table_get(out@, id) == table_get(before, id));
                    assert(last_action(raw@, id, i + 1) == last_action(raw@, id, i as int));
                }
            }
        }
        i = i + 1;
    }
    out
}

/// Why an action could not be run.
#[derive(Debug, Clone, PartialEq, Eq)]
pub enum ActionError {
    /// The action names a repository that is not configured.
    NoSuchRepo(String),
}

/// For the first `n` repository ids, in order, the path under `base` and
/// the branch to pull; the first id with no repository is the error.
pub open spec fn pull_list(ids: Seq<String>, repos: Seq<(String, Repo)>, base: Seq<char>, n: int) -> Result<
    Seq<(Seq<char>, Seq<char>)>,
    Seq<char>,
>
    decreases n,
{
    if n <= 0 || n > ids.len() {
        Ok(Seq::empty())
    } else {
        match pull_list(ids, repos, base, n - 1) {
            Err(id) => Err(id),
            Ok(acc) => match table_get(repos, ids[n - 1]@) {
                None => Err(ids[n - 1]@),
                Some(x) => Ok(acc.push((push_spec(base, ids[n - 1]@), x.branch@))),
            },
        }
    }
}

proof fn lemma_pull_list_err(ids: Seq<String>, repos: Seq<(String, Repo)>, base: Seq<char>, i: int, n: int)
    requires
        0 <= i <= n <= ids.len(),
        pull_list(ids, repos, base, i) is Err,
    ensures
        pull_list(ids, repos, base, n) == pull_list(ids, repos, base, i),
    decreases n - i,
{
    if n > i {
        lemma_pull_list_err(ids, repos, base, i, n - 1);
    }
}

/// The pairs of a list of (path, branch) pairs as plain values.
pub open spec fn pairs_view(ps: Seq<(String, String)>) -> Seq<(Seq<char>, Seq<char>)> {
    ps.map_values(|p: (String, String)| (p.0@, p.1@))
}

impl Action {
    /// What to pull before the cases are checked: for each repository the
    /// action updates, in order, its path under `repos_path` and its branch
    /// (see `pull_list`).
    pub fn repos_to_pull(&self, repos: &Vec<(String, Repo)>, repos_path: &str) -> (r: Result<Vec<(String, String)>, ActionError>)
        ensures
            match pull_list(self.update_repos@, repos@, repos_path@, self.update_repos@.len() as int) {
                Ok(ps) => (r matches Ok(out) && pairs_view(out@) == ps),
                Err(id) => (r matches Err(ActionError::NoSuchRepo(e)) && e@ == id),
            },
    {
        let ghost n = self.update_repos@.len() as int;
        let mut out: Vec<(String, String)> = Vec::new();
        let mut i: usize = 0;
        assert(pairs_view(out@) =~= Seq::<(Seq<char>, Seq<char>)>::empty());
        while i < self.update_repos.len()
            invariant
                i <= self.update_repos@.len(),
                n == self.update_repos@.len(),
                pull_list(self.update_repos@, repos@, repos_path@, i as int) == Ok::<
                    Seq<(Seq<char>, Seq<char>)>,
                    Seq<char>,
                >(pairs_view(out@)),
            decreases self.update_repos.len() - i,
        {
            let id = &self.update_repos[i];
            match crate::keyed::find_entry(repos, id.as_str()) {
                Some(j) => {
                    let mut path = str_to_string(repos_path);
                    push_path(&mut path, id.as_str());
                    let ghost before = out@;
                    out.push((path, repos[j].1.branch.clone()));
                    assert(pairs_view(out@) =~= pairs_view(before).push((path@, repos@[j as int].1.branch@)));
                },
                None => {
                    proof {
                        lemma_pull_list_err(self.update_repos@, repos@, repos_path@, i + 1, n);
                    }
                    return Err(ActionError::NoSuchRepo(id.clone()));
                },
            }
            i = i + 1;
        }
        Ok(out)
    }
}

} // verus!
