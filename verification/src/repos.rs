//! The repositories of a project: where each lives, whether the runner
//! pulls it from a source or leaves it to be managed by hand, and how they
//! are seen by variable substitution.

use vstd::prelude::*;
use crate::keyed::{find_entry, table_get};
use crate::permissions::Tokens;
use crate::text::str_to_string;
use crate::vars::{entries_view, lemma_entries_view, lemma_entries_view_push, Value, VarTree};

verus! {

/// A repository: pulled from `source` on `branch` into `path`, or managed
/// by hand at `path`.
#[derive(Debug, Clone)]
pub enum Repo {
    Regular { path: String, source: String, branch: String },
    Manual { path: String },
}

/// The repositories of a project, by id (the first entry of an id is the
/// one that counts).
#[derive(Debug, Clone)]
pub struct Repos {
    pub repos: Vec<(String, Repo)>,
}

/// Where a repository lives.
pub open spec fn repo_path(r: Repo) -> Seq<char> {
    match r {
        Repo::Regular { path, .. } => path@,
        Repo::Manual { path } => path@,
    }
}

/// How a repository is seen by variable substitution: an object whose
/// `path` is where it lives.
pub open spec fn repo_tree(r: Repo) -> VarTree {
    VarTree::Object(seq![("path"@, VarTree::Text(repo_path(r)))])
}

/// How repositories are seen by variable substitution: an object with
/// one entry per repository, its id to its object, in order.
pub open spec fn repos_tree(es: Seq<(String, Repo)>) -> VarTree {
    VarTree::Object(es.map_values(|e: (String, Repo)| (e.0@, repo_tree(e.1))))
}

/// What pulling a repository asks for: the path and branch to pull for a
/// regular one, nothing for one managed by hand.
pub open spec fn pull_spec(r: Repo) -> Option<(Seq<char>, Seq<char>)> {
    match r {
        Repo::Regular { path, branch, .. } => Some((path@, branch@)),
        Repo::Manual { .. } => None,
    }
}

/// Why a repository could not be pulled.
#[derive(Debug, Clone, PartialEq, Eq)]
pub enum RepoError {
    /// No repository has this id.
    NoSuchRepo(String),
}

impl Repo {
    /// Where the repository lives.
    pub fn path(&self) -> (r: &String)
        ensures
            r@ == repo_path(*self),
    {
        match self {
            Repo::Regular { path, .. } => path,
            Repo::Manual { path } => path,
        }
    }

    /// The repository as variable substitution sees it (see `repo_tree`).
    pub fn vars(&self) -> (r: Value)
        ensures
            r@ == repo_tree(*self),
    {
        let mut entries: Vec<(String, Value)> = Vec::new();
        let key = str_to_string("path");
        let v = Value::String(self.path().clone());
        entries.push((key, v));
        proof {
            reveal_strlit("path");
            lemma_entries_view(entries@);
            assert(entries_view(entries@) =~= seq![("path"@, VarTree::Text(repo_path(*self)))]);
        }
        Value::Object(entries)
    }

    /// What pulling the repository asks for (see `pull_spec`): the path and
    /// branch of a regular repository, nothing for one managed by hand.
    pub fn pull_target(&self) -> (r: Option<(String, String)>)
        ensures
            match pull_spec(*self) {
                Some((p, b)) => r matches Some(t) && t.0@ == p && t.1@ == b,
                None => r is None,
            },
    {
        match self {
            Repo::Regular { path, branch, .. } => Some((path.clone(), branch.clone())),
            Repo::Manual { .. } => None,
        }
    }
}

impl Repos {
    /// The repository of `repo_id`, if any.
    pub fn get(&self, repo_id: &str) -> (r: Option<&Repo>)
        ensures
            match table_get(self.repos@, repo_id@) {
                Some(x) => r == Some(&x),
                None => r is None,
            },
    {
        match find_entry(&self.repos, repo_id) {
            Some(i) => Some(&self.repos[i].1),
            None => None,
        }
    }

    /// What pulling the repository `repo_id` asks for (see `pull_spec`),
    /// or the error that no repository has that id.
    pub fn pull_repo_target(&self, repo_id: &str) -> (r: Result<Option<(String, String)>, RepoError>)
        ensures
            match table_get(self.repos@, repo_id@) {
                Some(x) => match pull_spec(x) {
                    Some((p, b)) => r matches Ok(Some(t)) && t.0@ == p && t.1@ == b,
                    None => r matches Ok(None),
                },
                None => r matches Err(RepoError::NoSuchRepo(id)) && id@ == repo_id@,
            },
    {
        match self.get(repo_id) {
            Some(repo) => Ok(repo.pull_target()),
            None => Err(RepoError::NoSuchRepo(str_to_string(repo_id))),
        }
    }

    /// The repositories as variable substitution sees them (see
    /// `repos_tree`).
    pub fn vars(&self) -> (r: Value)
        ensures
            r@ == repos_tree(self.repos@),
    {
        let mut entries: Vec<(String, Value)> = Vec::new();
        let mut i: usize = 0;
        while i < self.repos.len()
            invariant
                i <= self.repos@.len(),
                entries_view(entries@) == repos_tree(self.repos@.take(i as int))->Object_0,
            decreases self.repos.len() - i,
        {
            let ghost before = entries@;
            let k = self.repos[i].0.clone();
            let v = self.repos[i].1.vars();
            entries.push((k, v));
            proof {
                lemma_entries_view_push(before, (k, v));
                assert(self.repos@.take(i + 1) =~= self.repos@.take(i as int).push(self.repos@[i as int]));
                assert(repos_tree(self.repos@.take(i + 1))->Object_0 =~= repos_tree(self.repos@.take(i as int))->Object_0.push(
                    (k@, repo_tree(self.repos@[i as int].1)),
                ));
            }
            i = i + 1;
        }
        assert(self.repos@.take(i as int) =~= self.repos@);
        Value::Object(entries)
    }
}

/// A project's secrets, by name.
#[derive(Debug, Default)]
pub struct Secrets {
    pub secrets: Vec<(String, String)>,
}

/// What the runner knows of a project before loading it.
#[derive(Debug)]
pub struct ProjectInfo {
    pub id: String,
    pub enabled: bool,
    pub path: String,
    pub repos: Repos,
    pub tokens: Tokens,
    pub secrets: Secrets,
    pub data_path: String,
}

/// How a project is seen by variable substitution: its repositories under
/// `repos`, its data directory under `data.path`.
pub open spec fn project_tree(repos: Seq<(String, Repo)>, data_path: Seq<char>) -> VarTree {
    VarTree::Object(
        seq![
            ("repos"@, repos_tree(repos)),
            ("data"@, VarTree::Object(seq![("path"@, VarTree::Text(data_path))])),
        ],
    )
}

impl ProjectInfo {
    /// The project as variable substitution sees it (see `project_tree`).
    pub fn vars(&self) -> (r: Value)
        ensures
            r@ == project_tree(self.repos.repos@, self.data_path@),
    {
        let mut data: Vec<(String, Value)> = Vec::new();
        data.push((str_to_string("path"), Value::String(self.data_path.clone())));
        let mut top: Vec<(String, Value)> = Vec::new();
        top.push((str_to_string("repos"), self.repos.vars()));
        top.push((str_to_string("data"), Value::Object(data)));
        proof {
            reveal_strlit("path");
            reveal_strlit("repos");
            reveal_strlit("data");
            lemma_entries_view(data@);
            lemma_entries_view(top@);
            assert(entries_view(data@) =~= seq![("path"@, VarTree::Text(self.data_path@))]);
            assert(entries_view(top@) =~= project_tree(self.repos.repos@, self.data_path@)->Object_0);
        }
        Value::Object(top)
    }
}

} // verus!
