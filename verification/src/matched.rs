//! What an event asks the runner to do: reload the configuration, reload
//! projects, run pipelines and act on services, gathered over projects.

use vstd::prelude::*;
use crate::keyed::{
    clone_strings, contains_str, find_entry, key_index, keys_of, lemma_key_index, opt_text,
    table_get, table_insert,
};
use crate::permissions::{config_allows, ActionType, ServiceConfig};

verus! {

broadcast use vstd::seq_lib::group_seq_properties;

/// What can be done to a service.
#[derive(Debug, Clone, Copy, PartialEq, Eq)]
pub enum ServiceAction {
    Deploy,
}

/// What an event asks of one project.
#[derive(Debug)]
pub struct ProjectMatchedActions {
    pub reload_config: bool,
    pub reload_project: bool,
    /// A set of pipeline names.
    pub run_pipelines: Vec<String>,
    /// Actions by service name.
    pub services: Vec<(String, ServiceAction)>,
}

/// What an event asks of all projects.
#[derive(Debug)]
pub struct MatchedActions {
    pub reload_config: bool,
    /// Per project, a set of pipeline names.
    pub run_pipelines: Vec<(String, Vec<String>)>,
    /// Per project, actions by service name.
    pub services: Vec<(String, Vec<(String, ServiceAction)>)>,
    /// A set of project names.
    pub reload_projects: Vec<String>,
}

/// A list of texts as a set.
pub open spec fn text_set(v: Seq<String>) -> Set<Seq<char>> {
    v.map_values(|s: String| s@).to_set()
}

/// Service actions by service name.
pub open spec fn action_map(es: Seq<(String, ServiceAction)>) -> Map<Seq<char>, ServiceAction> {
    Map::new(|k: Seq<char>| table_get(es, k) is Some, |k: Seq<char>| table_get(es, k)->0)
}

/// Pipeline sets by project name.
pub open spec fn pipelines_map(es: Seq<(String, Vec<String>)>) -> Map<Seq<char>, Set<Seq<char>>> {
    Map::new(|k: Seq<char>| table_get(es, k) is Some, |k: Seq<char>| text_set(table_get(es, k)->0@))
}

/// Service actions by project name.
pub open spec fn services_map(es: Seq<(String, Vec<(String, ServiceAction)>)>) -> Map<
    Seq<char>,
    Map<Seq<char>, ServiceAction>,
> {
    Map::new(|k: Seq<char>| table_get(es, k) is Some, |k: Seq<char>| action_map(table_get(es, k)->0@))
}

/// What an event asks of one project, as plain values.
pub struct ProjectMatchedView {
    pub reload_config: bool,
    pub reload_project: bool,
    pub run_pipelines: Set<Seq<char>>,
    pub services: Map<Seq<char>, ServiceAction>,
}

/// What an event asks of all projects, as plain values.
pub struct MatchedView {
    pub reload_config: bool,
    pub run_pipelines: Map<Seq<char>, Set<Seq<char>>>,
    pub services: Map<Seq<char>, Map<Seq<char>, ServiceAction>>,
    pub reload_projects: Set<Seq<char>>,
}

impl View for ProjectMatchedActions {
    type V = ProjectMatchedView;

    open spec fn view(&self) -> ProjectMatchedView {
        ProjectMatchedView {
            reload_config: self.reload_config,
            reload_project: self.reload_project,
            run_pipelines: text_set(self.run_pipelines@),
            services: action_map(self.services@),
        }
    }
}

impl View for MatchedActions {
    type V = MatchedView;

    open spec fn view(&self) -> MatchedView {
        MatchedView {
            reload_config: self.reload_config,
            run_pipelines: pipelines_map(self.run_pipelines@),
            services: services_map(self.services@),
            reload_projects: text_set(self.reload_projects@),
        }
    }
}

/// Whether a project's actions ask for nothing.
pub open spec fn project_view_empty(v: ProjectMatchedView) -> bool {
    !v.reload_config && !v.reload_project && v.run_pipelines =~= Set::empty()
        && v.services.dom() =~= Set::empty()
}

/// Whether the actions ask for nothing.
pub open spec fn view_empty(v: MatchedView) -> bool {
    !v.reload_config && v.reload_projects =~= Set::empty() && v.run_pipelines.dom() =~= Set::empty()
        && v.services.dom() =~= Set::empty()
}

/// A set of texts is empty exactly when its list is.
pub proof fn lemma_text_set_empty(v: Seq<String>)
    ensures
        (text_set(v) =~= Set::empty()) == (v.len() == 0),
{
    if v.len() > 0 {
        assert(text_set(v).contains(v[0]@)) by {
            assert(v.map_values(|s: String| s@)[0] == v[0]@);
        }
    }
}

/// A table's map is empty exactly when the table is.
pub proof fn lemma_table_dom_empty<T>(es: Seq<(String, T)>)
    ensures
        (Set::new(|k: Seq<char>| table_get(es, k) is Some) =~= Set::empty()) == (es.len() == 0),
{
    if es.len() > 0 {
        let k = es[0].0@;
        lemma_key_index(keys_of(es), k);
        assert(keys_of(es)[0] == k);
        assert(table_get(es, k) is Some);
        assert(Set::new(|k: Seq<char>| table_get(es, k) is Some).contains(k));
    }
}

/// Well formed: no project occurs twice in the per-project tables.
pub open spec fn matched_wf(m: MatchedActions) -> bool {
    keys_of(m.run_pipelines@).no_duplicates() && keys_of(m.services@).no_duplicates()
}

impl Default for MatchedActions {
    fn default() -> (r: MatchedActions)
        ensures
            matched_wf(r),
            view_empty(r@),
    {
        let r = MatchedActions {
            reload_config: false,
            run_pipelines: Vec::new(),
            services: Vec::new(),
            reload_projects: Vec::new(),
        };
        proof {
            lemma_text_set_empty(r.reload_projects@);
            lemma_table_dom_empty(r.run_pipelines@);
            lemma_table_dom_empty(r.services@);
        }
        r
    }
}

impl ProjectMatchedActions {
    /// Whether nothing is asked of the project.
    pub fn is_empty(&self) -> (r: bool)
        ensures
            r == project_view_empty(self@),
    {
        proof {
            lemma_text_set_empty(self.run_pipelines@);
            lemma_table_dom_empty(self.services@);
        }
        !self.reload_config && !self.reload_project && self.run_pipelines.len() == 0
            && self.services.len() == 0
    }
}

fn clone_actions(es: &Vec<(String, ServiceAction)>) -> (r: Vec<(String, ServiceAction)>)
    ensures
        r@ == es@,
{
    let mut r: Vec<(String, ServiceAction)> = Vec::new();
    for i in 0..es.len()
        invariant
            r@ == es@.take(i as int),
    {
        r.push((es[i].0.clone(), es[i].1));
        assert(r@ =~= es@.take(i + 1));
    }
    assert(es@.take(es@.len() as int) =~= es@);
    r
}

/// Adds a text to a list held as a set, unless it is there already.
pub(crate) fn set_insert(v: &mut Vec<String>, s: String)
    ensures
        text_set(final(v)@) == text_set(old(v)@).insert(s@),
{
    if !contains_str(v, s.as_str()) {
        let ghost before = v@;
        v.push(s);
        proof {
            assert(v@.map_values(|s: String| s@) =~= before.map_values(|s: String| s@).push(s@));
        }
    } else {
        assert(text_set(v@).contains(s@));
        assert(text_set(v@).insert(s@) =~= text_set(v@));
    }
}

impl MatchedActions {
    /// Whether nothing is asked at all.
    pub fn is_empty(&self) -> (r: bool)
        ensures
            r == view_empty(self@),
    {
        proof {
            lemma_text_set_empty(self.reload_projects@);
            lemma_table_dom_empty(self.run_pipelines@);
            lemma_table_dom_empty(self.services@);
        }
        !self.reload_config && self.reload_projects.len() == 0 && self.run_pipelines.len() == 0
            && self.services.len() == 0
    }

    /// Records what is asked of project `project_id`: the configuration
    /// reload is or-ed in, the pipelines and service actions (when there
    /// are any) replace those recorded for the project, and a project
    /// reload marks the project.
    pub fn add_project(&mut self, project_id: &str, actions: ProjectMatchedActions)
        requires
            matched_wf(*old(self)),
        ensures
            matched_wf(*final(self)),
            final(self)@ == added(old(self)@, project_id@, actions@),
    {
        let ProjectMatchedActions { reload_config, reload_project, run_pipelines, services } = actions;
        let ghost rp = run_pipelines;
        let ghost sv = services;
        proof {
            lemma_text_set_empty(rp@);
            lemma_table_dom_empty(sv@);
            assert(action_map(sv@).dom() =~= Set::new(|k: Seq<char>| table_get(sv@, k) is Some));
        }
        self.reload_config = self.reload_config || reload_config;
        if run_pipelines.len() > 0 {
            let ghost before = self.run_pipelines@;
            table_insert(&mut self.run_pipelines, crate::text::str_to_string(project_id), run_pipelines);
            assert(pipelines_map(self.run_pipelines@) =~= pipelines_map(before).insert(project_id@, text_set(rp@)));
        }
        if services.len() > 0 {
            let ghost before = self.services@;
            table_insert(&mut self.services, crate::text::str_to_string(project_id), services);
            assert(services_map(self.services@) =~= services_map(before).insert(project_id@, action_map(sv@)));
        }
        if reload_project {
            set_insert(&mut self.reload_projects, crate::text::str_to_string(project_id));
        }
    }

    /// What is asked of project `project_id` (never a configuration
    /// reload), or nothing when nothing is asked of it.
    pub fn get_project(&self, project_id: &str) -> (r: Option<ProjectMatchedActions>)
        ensures
            match r {
                Some(p) => !project_view_empty(project_of(self@, project_id@)) && p@ == project_of(self@, project_id@),
                None => project_view_empty(project_of(self@, project_id@)),
            },
    {
        let run_pipelines = match find_entry(&self.run_pipelines, project_id) {
            Some(i) => clone_strings(&self.run_pipelines[i].1),
            None => Vec::new(),
        };
        let services = match find_entry(&self.services, project_id) {
            Some(i) => clone_actions(&self.services[i].1),
            None => Vec::new(),
        };
        let reload_project = contains_str(&self.reload_projects, project_id);
        let res = ProjectMatchedActions {
            reload_config: false,
            run_pipelines,
            services,
            reload_project,
        };
        proof {
            lemma_text_set_empty(Seq::<String>::empty());
            assert(action_map(Seq::<(String, ServiceAction)>::empty()) =~= Map::empty());
            assert(text_set(self.reload_projects@).contains(project_id@) == self.reload_projects@.map_values(|s: String| s@).contains(project_id@));
        }
        if res.is_empty() {
            None
        } else {
            Some(res)
        }
    }

    /// Merges `other` into these actions: the configuration reload is
    /// or-ed in, project reloads are joined, and for each project of
    /// `other` its pipelines and service actions replace the ones
    /// recorded here. Every project of `other` must already have its
    /// pipelines and service actions recorded here.
    pub fn merge(&mut self, other: MatchedActions)
        requires
            matched_wf(*old(self)),
            matched_wf(other),
            other@.run_pipelines.dom().subset_of(old(self)@.run_pipelines.dom()),
            other@.services.dom().subset_of(old(self)@.services.dom()),
        ensures
            matched_wf(*final(self)),
            final(self)@ == merged(old(self)@, other@),
    {
        let MatchedActions {
            reload_config,
            run_pipelines: other_pipelines,
            services: other_services,
            reload_projects: other_reload,
        } = other;
        let ghost ov = other@;
        let mut reload_projects: Vec<String> = Vec::new();
        let mut pipelines: Vec<(String, Vec<String>)> = Vec::new();
        let mut services: Vec<(String, Vec<(String, ServiceAction)>)> = Vec::new();
        std::mem::swap(&mut reload_projects, &mut self.reload_projects);
        std::mem::swap(&mut pipelines, &mut self.run_pipelines);
        std::mem::swap(&mut services, &mut self.services);

        let ghost rp0 = text_set(reload_projects@);
        for i in 0..other_reload.len()
            invariant
                text_set(reload_projects@) == rp0.union(text_set(other_reload@.take(i as int))),
        {
            let ghost before = text_set(reload_projects@);
            set_insert(&mut reload_projects, other_reload[i].clone());
            proof {
                let t = other_reload@.take(i + 1);
                assert(t =~= other_reload@.take(i as int).push(other_reload@[i as int]));
                assert(t.map_values(|s: String| s@) =~= other_reload@.take(i as int).map_values(|s: String| s@).push(other_reload@[i as int]@));
                assert(text_set(t) =~= text_set(other_reload@.take(i as int)).insert(other_reload@[i as int]@));
                assert(text_set(reload_projects@) =~= rp0.union(text_set(t)));
            }
        }
        assert(other_reload@.take(other_reload@.len() as int) =~= other_reload@);

        let ghost pm0 = pipelines_map(pipelines@);
        assert(other_pipelines@.take(0) =~= Seq::<(String, Vec<String>)>::empty());
        assert(pm0.union_prefer_right(pipelines_map(other_pipelines@.take(0))) =~= pm0);
        for i in 0..other_pipelines.len()
            invariant
                keys_of(pipelines@).no_duplicates(),
                keys_of(other_pipelines@).no_duplicates(),
                pipelines_map(pipelines@) == pm0.union_prefer_right(
                    pipelines_map(other_pipelines@.take(i as int)),
                ),
        {
            let k = other_pipelines[i].0.clone();
            let v = clone_strings(&other_pipelines[i].1);
            let ghost before = pipelines@;
            proof {
                lemma_table_get_take_next(other_pipelines@, i as int);
            }
            table_insert(&mut pipelines, k, v);
            proof {
                let e = other_pipelines@[i as int];
                assert(pipelines_map(pipelines@) =~= pipelines_map(before).insert(e.0@, text_set(e.1@)));
                assert(pipelines_map(other_pipelines@.take(i + 1)) =~= pipelines_map(
                    other_pipelines@.take(i as int),
                ).insert(e.0@, text_set(e.1@)));
                assert(pipelines_map(pipelines@) =~= pm0.union_prefer_right(
                    pipelines_map(other_pipelines@.take(i + 1)),
                ));
            }
        }
        assert(other_pipelines@.take(other_pipelines@.len() as int) =~= other_pipelines@);

        let ghost sm0 = services_map(services@);
        assert(other_services@.take(0) =~= Seq::<(String, Vec<(String, ServiceAction)>)>::empty());
        assert(sm0.union_prefer_right(services_map(other_services@.take(0))) =~= sm0);
        for i in 0..other_services.len()
            invariant
                keys_of(services@).no_duplicates(),
                keys_of(other_services@).no_duplicates(),
                services_map(services@) == sm0.union_prefer_right(
                    services_map(other_services@.take(i as int)),
                ),
        {
            let k = other_services[i].0.clone();
            let v = clone_actions(&other_services[i].1);
            let ghost before = services@;
            proof {
                lemma_table_get_take_next(other_services@, i as int);
            }
            table_insert(&mut services, k, v);
            proof {
                let e = other_services@[i as int];
                assert(services_map(services@) =~= services_map(before).insert(e.0@, action_map(e.1@)));
                assert(services_map(other_services@.take(i + 1)) =~= services_map(
                    other_services@.take(i as int),
                ).insert(e.0@, action_map(e.1@)));
                assert(services_map(services@) =~= sm0.union_prefer_right(
                    services_map(other_services@.take(i + 1)),
                ));
            }
        }
        assert(other_services@.take(other_services@.len() as int) =~= other_services@);
        self.reload_config = self.reload_config || reload_config;
        self.reload_projects = reload_projects;
        self.run_pipelines = pipelines;
        self.services = services;
    }
}

/// The entry after a prefix of a table without repeated keys extends
/// the prefix's lookups by its own key.
pub proof fn lemma_table_get_take_next<T>(es: Seq<(String, T)>, i: int)
    requires
        0 <= i < es.len(),
        keys_of(es).no_duplicates(),
    ensures
        forall|q: Seq<char>|
            #[trigger] table_get(es.take(i + 1), q) == if q == es[i].0@ {
                Some(es[i].1)
            } else {
                table_get(es.take(i), q)
            },
{
    let pre = es.take(i);
    let k = es[i].0@;
    assert(es.take(i + 1) =~= pre.push(es[i]));
    crate::keyed::lemma_keys_of_push(pre, es[i]);
    assert(!keys_of(pre).contains(k)) by {
        if keys_of(pre).contains(k) {
            let w = choose|w: int| 0 <= w < keys_of(pre).len() && keys_of(pre)[w] == k;
            assert(keys_of(es)[w] == keys_of(es)[i]);
        }
    }
    assert forall|q: Seq<char>|
        #[trigger] table_get(es.take(i + 1), q) == if q == k {
            Some(es[i].1)
        } else {
            table_get(pre, q)
        } by {
        crate::keyed::lemma_key_index_push(keys_of(pre), k, q);
        lemma_key_index(keys_of(pre), q);
        lemma_key_index(keys_of(pre), k);
    }
}

/// Whether the configuration lets a caller with `token` have these
/// actions done: a configuration reload needs global write rights, a
/// project reload write rights on the project, pipelines and service
/// actions execute rights on their project.
pub open spec fn matched_allowed(v: MatchedView, config: ServiceConfig, token: Option<Seq<char>>) -> bool {
    &&& v.reload_config ==> config_allows(config.tokens, token, None, ActionType::Write)
    &&& forall|p: Seq<char>| #[trigger] v.reload_projects.contains(p)
        ==> config_allows(config.tokens, token, Some(p), ActionType::Write)
    &&& forall|p: Seq<char>| #[trigger] v.run_pipelines.contains_key(p)
        ==> config_allows(config.tokens, token, Some(p), ActionType::Execute)
    &&& forall|p: Seq<char>| #[trigger] v.services.contains_key(p)
        ==> config_allows(config.tokens, token, Some(p), ActionType::Execute)
}

/// Whether every key of a table passes a check of the configuration.
fn table_keys_allowed<T>(
    es: &Vec<(String, T)>,
    token: Option<&str>,
    config: &ServiceConfig,
    action: ActionType,
) -> (r: bool)
    ensures
        r == forall|p: Seq<char>| #[trigger] table_get(es@, p) is Some ==> config_allows(
            config.tokens,
            opt_text(token),
            Some(p),
            action,
        ),
{
    let ghost tv = opt_text(token);
    let ghost ks = keys_of(es@);
    let mut i: usize = 0;
    while i < es.len()
        invariant
            i <= es@.len(),
            ks == keys_of(es@),
            tv == opt_text(token),
            forall|j: int| 0 <= j < i ==> config_allows(config.tokens, tv, Some(#[trigger] ks[j]), action),
        decreases es.len() - i,
    {
        if !config.check_allowed(token, Some(es[i].0.as_str()), action) {
            proof {
                let p = ks[i as int];
                lemma_key_index(ks, p);
                assert(ks.contains(p)) by {
                    assert(ks[i as int] == p);
                }
                assert(table_get(es@, p) is Some);
                assert(!config_allows(config.tokens, tv, Some(p), action));
            }
            return false;
        }
        i = i + 1;
    }
    proof {
        assert forall|p: Seq<char>| #[trigger] table_get(es@, p) is Some implies config_allows(config.tokens, tv, Some(p), action) by {
            lemma_key_index(ks, p);
            let j = key_index(ks, p);
            assert(ks[j] == p);
        }
    }
    true
}

impl MatchedActions {
    /// Whether a caller with `token` may have these actions done (see
    /// `matched_allowed`).
    pub fn check_allowed(&self, token: Option<&str>, config: &ServiceConfig) -> (r: bool)
        ensures
            r == matched_allowed(
                self@,
                *config,
                opt_text(token),
            ),
    {
        let ghost tv = opt_text(token);
        if self.reload_config {
            if !config.check_allowed(token, None, ActionType::Write) {
                assert(!config_allows(config.tokens, tv, None, ActionType::Write));
                return false;
            }
        }
        assert(self.reload_config ==> config_allows(config.tokens, tv, None, ActionType::Write));
        let ghost names = self.reload_projects@.map_values(|s: String| s@);
        let mut i: usize = 0;
        while i < self.reload_projects.len()
            invariant
                i <= self.reload_projects@.len(),
                names == self.reload_projects@.map_values(|s: String| s@),
                tv == opt_text(token),
                forall|j: int| 0 <= j < i ==> config_allows(config.tokens, tv, Some(#[trigger] names[j]), ActionType::Write),
            decreases self.reload_projects.len() - i,
        {
            if !config.check_allowed(token, Some(self.reload_projects[i].as_str()), ActionType::Write) {
                assert(self@.reload_projects.contains(names[i as int]));
                assert(!config_allows(config.tokens, tv, Some(names[i as int]), ActionType::Write));
                return false;
            }
            i = i + 1;
        }
        assert forall|p: Seq<char>| #[trigger] text_set(self.reload_projects@).contains(p)
            implies config_allows(config.tokens, tv, Some(p), ActionType::Write) by {
            let j = choose|j: int| 0 <= j < names.len() && names[j] == p;
        }
        if !table_keys_allowed(&self.run_pipelines, token, config, ActionType::Execute) {
            proof {
                let p = choose|p: Seq<char>| table_get(self.run_pipelines@, p) is Some
                    && !config_allows(config.tokens, tv, Some(p), ActionType::Execute);
                assert(self@.run_pipelines.contains_key(p));
            }
            return false;
        }
        if !table_keys_allowed(&self.services, token, config, ActionType::Execute) {
            proof {
                let p = choose|p: Seq<char>| table_get(self.services@, p) is Some
                    && !config_allows(config.tokens, tv, Some(p), ActionType::Execute);
                assert(self@.services.contains_key(p));
            }
            return false;
        }
        true
    }
}

/// The actions after recording what is asked of project `id` (see
/// `MatchedActions::add_project`).
pub open spec fn added(v: MatchedView, id: Seq<char>, x: ProjectMatchedView) -> MatchedView {
    MatchedView {
        reload_config: v.reload_config || x.reload_config,
        run_pipelines: if x.run_pipelines == Set::<Seq<char>>::empty() {
            v.run_pipelines
        } else {
            v.run_pipelines.insert(id, x.run_pipelines)
        },
        services: if x.services.dom() == Set::<Seq<char>>::empty() {
            v.services
        } else {
            v.services.insert(id, x.services)
        },
        reload_projects: if x.reload_project {
            v.reload_projects.insert(id)
        } else {
            v.reload_projects
        },
    }
}

/// What is asked of project `id` (never a configuration reload).
pub open spec fn project_of(v: MatchedView, id: Seq<char>) -> ProjectMatchedView {
    ProjectMatchedView {
        reload_config: false,
        reload_project: v.reload_projects.contains(id),
        run_pipelines: if v.run_pipelines.contains_key(id) {
            v.run_pipelines[id]
        } else {
            Set::empty()
        },
        services: if v.services.contains_key(id) {
            v.services[id]
        } else {
            Map::empty()
        },
    }
}

/// Nothing asked at all.
pub open spec fn empty_view() -> MatchedView {
    MatchedView {
        reload_config: false,
        run_pipelines: Map::empty(),
        services: Map::empty(),
        reload_projects: Set::empty(),
    }
}

/// What is recorded for a project into empty actions is what is read
/// back for it, but for the configuration reload, which is not a
/// project's.
pub proof fn lemma_get_after_add(id: Seq<char>, x: ProjectMatchedView)
    ensures
        project_of(added(empty_view(), id, x), id) == (ProjectMatchedView { reload_config: false, ..x }),
{
    let got = project_of(added(empty_view(), id, x), id);
    assert(got.run_pipelines =~= x.run_pipelines);
    assert(got.services =~= x.services);
}

/// Recording for one project leaves what is read back for another
/// project unchanged.
pub proof fn lemma_add_other_project(v: MatchedView, id: Seq<char>, x: ProjectMatchedView, other: Seq<char>)
    requires
        other != id,
    ensures
        project_of(added(v, id, x), other) == project_of(v, other),
{
}

/// Merging in actions that ask for nothing changes nothing.
pub proof fn lemma_merge_empty(v: MatchedView)
    ensures
        merged(v, empty_view()) == v,
{
    assert(merged(v, empty_view()).run_pipelines =~= v.run_pipelines);
    assert(merged(v, empty_view()).services =~= v.services);
    assert(merged(v, empty_view()).reload_projects =~= v.reload_projects);
}

/// Merging actions into themselves changes nothing.
pub proof fn lemma_merge_self(v: MatchedView)
    ensures
        merged(v, v) == v,
{
    assert(merged(v, v).run_pipelines =~= v.run_pipelines);
    assert(merged(v, v).services =~= v.services);
    assert(merged(v, v).reload_projects =~= v.reload_projects);
}

/// The actions after merging `b` into `a`.
pub open spec fn merged(a: MatchedView, b: MatchedView) -> MatchedView {
    MatchedView {
        reload_config: a.reload_config || b.reload_config,
        run_pipelines: a.run_pipelines.union_prefer_right(b.run_pipelines),
        services: a.services.union_prefer_right(b.services),
        reload_projects: a.reload_projects.union(b.reload_projects),
    }
}

/// The projects among `names` that a trigger may reload, in order: all of
/// them when permissions are not checked, else those on which `token` has
/// write rights.
pub open spec fn reloadable(names: Seq<Seq<char>>, config: ServiceConfig, token: Option<Seq<char>>, check: bool) -> Seq<
    Seq<char>,
>
    decreases names.len(),
{
    if names.len() == 0 {
        Seq::empty()
    } else {
        let before = reloadable(names.drop_last(), config, token, check);
        if !check || config_allows(config.tokens, token, Some(names.last()), ActionType::Write) {
            before.push(names.last())
        } else {
            before
        }
    }
}

impl MatchedActions {
    /// Whether a trigger that matched these actions may go on: one that
    /// asks for the configuration to be reloaded needs global write rights
    /// when permissions are checked.
    pub fn may_reload_config(&self, token: Option<&str>, check_permissions: bool, config: &ServiceConfig) -> (r: bool)
        ensures
            r == !(self.reload_config && check_permissions && !config_allows(
                config.tokens,
                opt_text(token),
                None,
                ActionType::Write,
            )),
    {
        !(self.reload_config && check_permissions && !config.check_allowed(token, None, ActionType::Write))
    }

    /// Whether the configuration is to be reloaded before going on: when
    /// it or some project is to be reloaded.
    pub fn needs_reload(&self) -> (r: bool)
        ensures
            r == (self.reload_config || self.reload_projects@.len() > 0),
    {
        self.reload_config || self.reload_projects.len() > 0
    }

    /// The projects to reload, in order (see `reloadable`); the others are
    /// skipped.
    pub fn projects_to_reload(&self, token: Option<&str>, check_permissions: bool, config: &ServiceConfig) -> (r: Vec<String>)
        ensures
            r@.map_values(|s: String| s@) == reloadable(
                self.reload_projects@.map_values(|s: String| s@),
                *config,
                opt_text(token),
                check_permissions,
            ),
    {
        let ghost names = self.reload_projects@.map_values(|s: String| s@);
        let mut out: Vec<String> = Vec::new();
        let mut i: usize = 0;
        assert(names.take(0) =~= Seq::<Seq<char>>::empty());
        assert(out@.map_values(|s: String| s@) =~= Seq::<Seq<char>>::empty());
        while i < self.reload_projects.len()
            invariant
                i <= self.reload_projects@.len(),
                names == self.reload_projects@.map_values(|s: String| s@),
                out@.map_values(|s: String| s@) == reloadable(names.take(i as int), *config, opt_text(token), check_permissions),
            decreases self.reload_projects.len() - i,
        {
            proof {
                assert(names.take(i + 1).drop_last() =~= names.take(i as int));
                assert(names.take(i + 1).last() == self.reload_projects@[i as int]@);
            }
            let p = &self.reload_projects[i];
            if !check_permissions || config.check_allowed(token, Some(p.as_str()), ActionType::Write) {
                let ghost before = out@;
                out.push(p.clone());
                assert(out@.map_values(|s: String| s@) =~= before.map_values(|s: String| s@).push(p@));
            }
            i = i + 1;
        }
        assert(names.take(i as int) =~= names);
        out
    }
}

/// Where the handling of a trigger stands: the actions gathered so far,
/// and the projects still to be asked for what their reload matches, in
/// order.
pub struct TriggerRun {
    pub matched: MatchedActions,
    pub pending: Vec<String>,
}

/// What the runner reports back while handling a trigger: the actions the
/// trigger matched, those matched once the configuration was reloaded, and
/// those matched once the next pending project was reloaded.
pub enum TriggerEvent {
    Matched(MatchedActions),
    ConfigReloaded(MatchedActions),
    ProjectReloaded(MatchedActions),
}

/// What the runner is to do next: give up (the configuration may not be
/// reloaded), reload the configuration, reload a project and report what
/// it matches, or run the gathered actions.
#[derive(Debug, PartialEq, Eq)]
pub enum TriggerAction {
    Refuse,
    ReloadConfig,
    QueryProject(String),
    Run,
}

/// Every project that may be reloaded is one the caller may write to, or
/// permissions are not checked.
pub proof fn lemma_reloadable_allowed(names: Seq<Seq<char>>, config: ServiceConfig, token: Option<Seq<char>>, check: bool)
    ensures
        forall|i: int| 0 <= i < reloadable(names, config, token, check).len() ==> !check
            || config_allows(config.tokens, token, Some(#[trigger] reloadable(names, config, token, check)[i]), ActionType::Write),
    decreases names.len(),
{
    if names.len() > 0 {
        lemma_reloadable_allowed(names.drop_last(), config, token, check);
        let before = reloadable(names.drop_last(), config, token, check);
        assert forall|i: int| 0 <= i < reloadable(names, config, token, check).len() implies !check
            || config_allows(config.tokens, token, Some(#[trigger] reloadable(names, config, token, check)[i]), ActionType::Write) by {
            if i < before.len() {
                assert(reloadable(names, config, token, check)[i] == before[i]);
            }
        }
    }
}

/// Whether every pending project is one the caller may write to, or
/// permissions are not checked.
pub open spec fn pending_allowed(pending: Seq<String>, config: ServiceConfig, token: Option<Seq<char>>, check: bool) -> bool {
    forall|i: int| 0 <= i < pending.len() ==> !check || config_allows(config.tokens, token, Some(#[trigger] pending[i]@), ActionType::Write)
}

/// The next action while `pending` projects are still to be asked for.
pub open spec fn next_query(pending: Seq<Seq<char>>) -> Option<Seq<char>> {
    if pending.len() > 0 {
        Some(pending[0])
    } else {
        None
    }
}

/// One step of handling a trigger, from what the runner reports to what
/// it is to do next:
/// - the matched actions are taken; a reload of the configuration that the
///   caller may not ask for is refused (nothing is reloaded and nothing
///   runs); otherwise the configuration is reloaded first when the actions
///   ask for it or for some project to be reloaded, and the actions run
///   when they do not;
/// - once the configuration is reloaded, what that matches is merged in,
///   the projects to reload that the caller may write to become pending
///   (see `reloadable`), and the first of them is asked for;
/// - once a pending project is reloaded, what that matches is merged in and
///   the next pending project is asked for;
/// - with none pending, the gathered actions run.
pub fn trigger_step(
    run: TriggerRun,
    event: TriggerEvent,
    token: Option<&str>,
    check_permissions: bool,
    config: &ServiceConfig,
) -> (r: (TriggerRun, TriggerAction))
    requires
        match event {
            TriggerEvent::Matched(m) => matched_wf(m),
            TriggerEvent::ConfigReloaded(n) => {
                &&& matched_wf(run.matched)
                &&& matched_wf(n)
                &&& n@.run_pipelines.dom().subset_of(run.matched@.run_pipelines.dom())
                &&& n@.services.dom().subset_of(run.matched@.services.dom())
            },
            TriggerEvent::ProjectReloaded(n) => {
                &&& pending_allowed(run.pending@, *config, opt_text(token), check_permissions)
                &&& matched_wf(run.matched)
                &&& matched_wf(n)
                &&& n@.run_pipelines.dom().subset_of(run.matched@.run_pipelines.dom())
                &&& n@.services.dom().subset_of(run.matched@.services.dom())
            },
        },
    ensures
        matched_wf(r.0.matched),
        pending_allowed(r.0.pending@, *config, opt_text(token), check_permissions),
        r.1 matches TriggerAction::QueryProject(p) ==> !check_permissions
            || config_allows(config.tokens, opt_text(token), Some(p@), ActionType::Write),
        match event {
            TriggerEvent::Matched(m) => {
                &&& r.0.matched@ == m@
                &&& r.0.pending@.len() == 0
                &&& r.1 == if m.reload_config && check_permissions && !config_allows(
                    config.tokens,
                    opt_text(token),
                    None,
                    ActionType::Write,
                ) {
                    TriggerAction::Refuse
                } else if m.reload_config || m.reload_projects@.len() > 0 {
                    TriggerAction::ReloadConfig
                } else {
                    TriggerAction::Run
                }
            },
            TriggerEvent::ConfigReloaded(n) => {
                &&& r.0.matched@ == merged(run.matched@, n@)
                &&& r.0.pending@.map_values(|s: String| s@) == reloadable(
                    r.0.matched.reload_projects@.map_values(|s: String| s@),
                    *config,
                    opt_text(token),
                    check_permissions,
                )
                &&& match next_query(r.0.pending@.map_values(|s: String| s@)) {
                    Some(p) => r.1 matches TriggerAction::QueryProject(q) && q@ == p,
                    None => r.1 == TriggerAction::Run,
                }
            },
            TriggerEvent::ProjectReloaded(n) => {
                &&& r.0.matched@ == merged(run.matched@, n@)
                &&& r.0.pending@ == if run.pending@.len() > 0 {
                    run.pending@.drop_first()
                } else {
                    run.pending@
                }
                &&& match next_query(r.0.pending@.map_values(|s: String| s@)) {
                    Some(p) => r.1 matches TriggerAction::QueryProject(q) && q@ == p,
                    None => r.1 == TriggerAction::Run,
                }
            },
        },
{
    let TriggerRun { matched, pending } = run;
    let ghost pending0 = pending@;
    match event {
        TriggerEvent::Matched(m) => {
            let action = if !m.may_reload_config(token, check_permissions, config) {
                TriggerAction::Refuse
            } else if m.needs_reload() {
                TriggerAction::ReloadConfig
            } else {
                TriggerAction::Run
            };
            (TriggerRun { matched: m, pending: Vec::new() }, action)
        },
        TriggerEvent::ConfigReloaded(n) => {
            let mut matched = matched;
            matched.merge(n);
            let pending = matched.projects_to_reload(token, check_permissions, config);
            proof {
                lemma_reloadable_allowed(
                    matched.reload_projects@.map_values(|s: String| s@),
                    *config,
                    opt_text(token),
                    check_permissions,
                );
            }
            proof {
                let names = pending@.map_values(|s: String| s@);
                assert forall|i: int| 0 <= i < pending@.len() implies !check_permissions || config_allows(
                    config.tokens,
                    opt_text(token),
                    Some(#[trigger] pending@[i]@),
                    ActionType::Write,
                ) by {
                    assert(names[i] == pending@[i]@);
                }
            }
            let action = if pending.len() > 0 {
                assert(pending@.map_values(|s: String| s@)[0] == pending@[0]@);
                TriggerAction::QueryProject(pending[0].clone())
            } else {
                TriggerAction::Run
            };
            (TriggerRun { matched, pending }, action)
        },
        TriggerEvent::ProjectReloaded(n) => {
            let mut matched = matched;
            matched.merge(n);
            let mut pending = pending;
            if pending.len() > 0 {
                pending.remove(0);
                assert forall|i: int| 0 <= i < pending@.len() implies !check_permissions || config_allows(
                    config.tokens,
                    opt_text(token),
                    Some(#[trigger] pending@[i]@),
                    ActionType::Write,
                ) by {
                    assert(pending@[i] == pending0[i + 1]);
                }
            }
            let action = if pending.len() > 0 {
                assert(pending@.map_values(|s: String| s@)[0] == pending@[0]@);
                TriggerAction::QueryProject(pending[0].clone())
            } else {
                TriggerAction::Run
            };
            (TriggerRun { matched, pending }, action)
        },
    }
}

} // verus!
