//! A project's actions: triggers that react to events (a call, a project
//! reload, changed files in repositories, a configuration reload) by
//! asking for pipelines, service actions and reloads.

use vstd::prelude::*;
use crate::keyed::{find_entry, table_get, table_insert};
use crate::matched::{
    action_map, added, empty_view, matched_wf, set_insert, text_set, MatchedActions, MatchedView, ProjectMatchedActions,
    ProjectMatchedView, ServiceAction,
};
use crate::services::LoadConfigError;

verus! {

broadcast use vstd::seq_lib::group_seq_properties;

#[verifier::external_type_specification]
#[verifier::external_body]
pub struct ExRegex(regex::Regex);

#[verifier::external_type_specification]
#[verifier::external_body]
pub struct ExRegexError(regex::Error);

/// Whether `pattern` compiles as a regular expression.
pub uninterp spec fn regex_compiles(pattern: Seq<char>) -> bool;

/// Whether the regular expression `pattern` matches somewhere in `text`.
pub uninterp spec fn regex_matches(pattern: Seq<char>, text: Seq<char>) -> bool;

/// Calls `regex::Regex::new`, which compiles a pattern; whether it
/// succeeds is named `regex_compiles`.
#[verifier::external_body]
fn regex_new(pattern: &str) -> (r: Result<regex::Regex, regex::Error>)
    ensures
        r is Ok == regex_compiles(pattern@),
{
    regex::Regex::new(pattern)
}

/// A file name pattern of a trigger, compiled from its source.
#[derive(Debug)]
pub struct TriggerPattern {
    source: String,
    regex: regex::Regex,
}

impl View for TriggerPattern {
    type V = Seq<char>;

    closed spec fn view(&self) -> Seq<char> {
        self.source@
    }
}

/// Calls `regex::Regex::is_match` on the compiled pattern, which was
/// compiled from the pattern's source (the only way a `TriggerPattern`
/// is made, see `TriggerPattern::new`); the result is named
/// `regex_matches` of the source and the text.
#[verifier::external_body]
fn regex_is_match(p: &TriggerPattern, text: &str) -> (r: bool)
    ensures
        r == regex_matches(p@, text@),
{
    p.regex.is_match(text)
}

impl TriggerPattern {
    /// Compiles a pattern; fails exactly when it does not compile.
    pub fn new(source: String) -> (r: Result<TriggerPattern, LoadConfigError>)
        ensures
            match r {
                Ok(p) => regex_compiles(source@) && p@ == source@,
                Err(e) => !regex_compiles(source@) && (e matches LoadConfigError::InvalidPattern(s, _) && s@ == source@),
            },
    {
        match regex_new(source.as_str()) {
            Ok(regex) => Ok(TriggerPattern { source, regex }),
            Err(e) => Err(LoadConfigError::InvalidPattern(source, e)),
        }
    }

    /// Whether the pattern matches somewhere in `text`.
    pub fn is_match(&self, text: &str) -> (r: bool)
        ensures
            r == regex_matches(self@, text@),
    {
        regex_is_match(self, text)
    }
}

/// What a trigger reacts to.
#[derive(Debug)]
pub enum TriggerType {
    Call { project_id: String, trigger_id: String },
    ProjectReload { project_id: String },
    /// Changed files matching a pattern, per repository.
    ReposUpdated { patterns: Vec<(String, Vec<TriggerPattern>)> },
    ConfigReload,
}

/// A trigger: what it reacts to and what it asks for.
#[derive(Debug)]
pub struct Trigger {
    pub on: TriggerType,
    pub run_pipelines: Option<Vec<String>>,
    pub services: Option<Vec<(String, ServiceAction)>>,
    pub reload_config: bool,
    pub reload_project: bool,
}

/// Something that happened.
#[derive(Debug)]
pub enum Event {
    ProjectReloaded { project_id: String },
    Call { project_id: String, trigger_id: String },
    /// Changed files per repository.
    RepoUpdate { diffs: Vec<(String, Vec<String>)> },
    ConfigReload,
}

/// A project's actions: triggers by action name.
#[derive(Debug)]
pub struct Actions {
    pub actions: Vec<(String, Vec<Trigger>)>,
}

/// File name of a project's actions configuration.
pub const ACTIONS_CONFIG: &'static str = "actions.yaml";

impl Default for Actions {
    fn default() -> (r: Actions)
        ensures
            r.actions@.len() == 0,
    {
        Actions { actions: Vec::new() }
    }
}

/// Whether a repository update matches file patterns: a repository
/// with patterns has changed files of which one matches one of its
/// patterns.
pub open spec fn repos_match(patterns: Seq<(String, Vec<TriggerPattern>)>, diffs: Seq<(String, Vec<String>)>) -> bool {
    exists|i: int, j: int, k: int|
        0 <= i < patterns.len() && 0 <= j < diffs_of(diffs, patterns[i].0@).len() && 0 <= k < patterns[i].1@.len()
            && #[trigger] regex_matches(patterns[i].1@[k]@, diffs_of(diffs, patterns[i].0@)[j]@)
}

/// The changed files of a repository (none when it has no entry).
pub open spec fn diffs_of(diffs: Seq<(String, Vec<String>)>, repo: Seq<char>) -> Seq<String> {
    match table_get(diffs, repo) {
        Some(ds) => ds@,
        None => Seq::empty(),
    }
}

/// Whether a trigger reacts to an event: a call of the same project and
/// trigger, a reload of the same project, a repository update with a
/// matching changed file, or a configuration reload.
pub open spec fn event_matches(on: TriggerType, event: Event) -> bool {
    match on {
        TriggerType::Call { project_id, trigger_id } => match event {
            Event::Call { project_id: p, trigger_id: t } => project_id@ == p@ && trigger_id@ == t@,
            _ => false,
        },
        TriggerType::ProjectReload { project_id } => match event {
            Event::ProjectReloaded { project_id: p } => project_id@ == p@,
            _ => false,
        },
        TriggerType::ReposUpdated { patterns } => match event {
            Event::RepoUpdate { diffs } => repos_match(patterns@, diffs@),
            _ => false,
        },
        TriggerType::ConfigReload => event is ConfigReload,
    }
}

fn any_pattern_matches(patterns: &Vec<TriggerPattern>, text: &str) -> (r: bool)
    ensures
        r == exists|k: int| 0 <= k < patterns@.len() && #[trigger] regex_matches(patterns@[k]@, text@),
{
    let mut k: usize = 0;
    while k < patterns.len()
        invariant
            k <= patterns@.len(),
            forall|m: int| 0 <= m < k ==> !#[trigger] regex_matches(patterns@[m]@, text@),
        decreases patterns.len() - k,
    {
        if patterns[k].is_match(text) {
            return true;
        }
        k = k + 1;
    }
    false
}

impl TriggerType {
    /// Whether this trigger reacts to `event` (see `event_matches`).
    pub fn check_matched(&self, event: &Event) -> (r: bool)
        ensures
            r == event_matches(*self, *event),
    {
        match self {
            TriggerType::Call { project_id, trigger_id } => match event {
                Event::Call { project_id: p, trigger_id: t } => *project_id == *p && *trigger_id == *t,
                _ => false,
            },
            TriggerType::ProjectReload { project_id } => match event {
                Event::ProjectReloaded { project_id: p } => *project_id == *p,
                _ => false,
            },
            TriggerType::ReposUpdated { patterns } => match event {
                Event::RepoUpdate { diffs } => {
                    let mut i: usize = 0;
                    assert(event_matches(*self, *event) == repos_match(patterns@, diffs@));
                    while i < patterns.len()
                        invariant
                            event_matches(*self, *event) == repos_match(patterns@, diffs@),
                            i <= patterns@.len(),
                            forall|a: int, j: int, k: int|
                                0 <= a < i && 0 <= j < diffs_of(diffs@, patterns@[a].0@).len() && 0 <= k < patterns@[a].1@.len()
                                    ==> !#[trigger] regex_matches(patterns@[a].1@[k]@, diffs_of(diffs@, patterns@[a].0@)[j]@),
                        decreases patterns.len() - i,
                    {
                        match find_entry(diffs, patterns[i].0.as_str()) {
                            Some(d) => {
                                let ds = &diffs[d].1;
                                assert(diffs_of(diffs@, patterns@[i as int].0@) == diffs@[d as int].1@);
                                let mut j: usize = 0;
                                while j < ds.len()
                                    invariant
                                        event_matches(*self, *event) == repos_match(patterns@, diffs@),
                                        j <= ds@.len(),
                                        ds@ == diffs_of(diffs@, patterns@[i as int].0@),
                                        i < patterns@.len(),
                                        forall|jj: int, k: int|
                                            0 <= jj < j && 0 <= k < patterns@[i as int].1@.len()
                                                ==> !#[trigger] regex_matches(patterns@[i as int].1@[k]@, ds@[jj]@),
                                    decreases ds.len() - j,
                                {
                                    if any_pattern_matches(&patterns[i].1, ds[j].as_str()) {
                                        assert(repos_match(patterns@, diffs@)) by {
                                            let k = choose|k: int| 0 <= k < patterns@[i as int].1@.len()
                                                && #[trigger] regex_matches(patterns@[i as int].1@[k]@, ds@[j as int]@);
                                            assert(diffs_of(diffs@, patterns@[i as int].0@)[j as int] == ds@[j as int]);
                                        }
                                        return true;
                                    }
                                    j = j + 1;
                                }
                            },
                            None => {},
                        }
                        i = i + 1;
                    }
                    false
                },
                _ => false,
            },
            TriggerType::ConfigReload => match event {
                Event::ConfigReload => true,
                _ => false,
            },
        }
    }
}


/// All triggers of all actions, in order.
pub open spec fn flat_triggers(acts: Seq<(String, Vec<Trigger>)>) -> Seq<Trigger>
    decreases acts.len(),
{
    if acts.len() == 0 {
        Seq::empty()
    } else {
        flat_triggers(acts.drop_last()) + acts.last().1@
    }
}

/// Service actions written into a map one by one, in order.
pub open spec fn insert_actions(m: Map<Seq<char>, ServiceAction>, ps: Seq<(String, ServiceAction)>) -> Map<
    Seq<char>,
    ServiceAction,
>
    decreases ps.len(),
{
    if ps.len() == 0 {
        m
    } else {
        insert_actions(m, ps.drop_last()).insert(ps.last().0@, ps.last().1)
    }
}

/// Nothing asked of a project.
pub open spec fn empty_project_view() -> ProjectMatchedView {
    ProjectMatchedView {
        reload_config: false,
        reload_project: false,
        run_pipelines: Set::empty(),
        services: Map::empty(),
    }
}

/// What the triggers that react to `event` ask of the project, gathered
/// in order: reloads if any asks, the union of the pipelines, and the
/// service actions, a later one for a service replacing an earlier one.
pub open spec fn matched_fold(ts: Seq<Trigger>, event: Event) -> ProjectMatchedView
    decreases ts.len(),
{
    if ts.len() == 0 {
        empty_project_view()
    } else {
        let acc = matched_fold(ts.drop_last(), event);
        let t = ts.last();
        if !event_matches(t.on, event) {
            acc
        } else {
            ProjectMatchedView {
                reload_config: acc.reload_config || t.reload_config,
                reload_project: acc.reload_project || t.reload_project,
                run_pipelines: match t.run_pipelines {
                    Some(ps) => acc.run_pipelines.union(text_set(ps@)),
                    None => acc.run_pipelines,
                },
                services: match t.services {
                    Some(ss) => insert_actions(acc.services, ss@),
                    None => acc.services,
                },
            }
        }
    }
}

/// Whether trigger `t` reacts to `event` and names pipeline `p`.
pub open spec fn trigger_runs(t: Trigger, event: Event, p: Seq<char>) -> bool {
    event_matches(t.on, event) && (t.run_pipelines matches Some(ps) && exists|j: int| 0 <= j < ps@.len() && #[trigger] ps@[j]@ == p)
}

/// The pipelines gathered from triggers are exactly those that some
/// trigger reacting to the event names, and a reload is asked for exactly
/// when some trigger reacting to the event asks for it.
pub proof fn lemma_matched_triggers(ts: Seq<Trigger>, event: Event)
    ensures
        forall|p: Seq<char>| #[trigger] matched_fold(ts, event).run_pipelines.contains(p)
            <==> exists|i: int| 0 <= i < ts.len() && #[trigger] trigger_runs(ts[i], event, p),
        matched_fold(ts, event).reload_config <==> exists|i: int| 0 <= i < ts.len() && event_matches(#[trigger] ts[i].on, event)
            && ts[i].reload_config,
        matched_fold(ts, event).reload_project <==> exists|i: int| 0 <= i < ts.len() && event_matches(#[trigger] ts[i].on, event)
            && ts[i].reload_project,
    decreases ts.len(),
{
    if ts.len() > 0 {
        let init = ts.drop_last();
        let t = ts.last();
        lemma_matched_triggers(init, event);
        assert forall|i: int| 0 <= i < init.len() implies #[trigger] init[i] == ts[i] by {}
        let acc = matched_fold(init, event);
        assert forall|p: Seq<char>| #[trigger] matched_fold(ts, event).run_pipelines.contains(p)
            <==> exists|i: int| 0 <= i < ts.len() && #[trigger] trigger_runs(ts[i], event, p) by {
            if matched_fold(ts, event).run_pipelines.contains(p) {
                if acc.run_pipelines.contains(p) {
                    let i: int = choose|i: int| 0 <= i < init.len() && #[trigger] trigger_runs(init[i], event, p);
                    assert(trigger_runs(ts[i], event, p));
                } else {
                    let ps = t.run_pipelines->0;
                    assert(text_set(ps@).contains(p));
                    let pv = ps@.map_values(|s: String| s@);
                    let j: int = choose|j: int| 0 <= j < pv.len() && pv[j] == p;
                    assert(ps@[j]@ == p);
                    assert(trigger_runs(ts[ts.len() - 1], event, p));
                }
            }
            if exists|i: int| 0 <= i < ts.len() && #[trigger] trigger_runs(ts[i], event, p) {
                let i: int = choose|i: int| 0 <= i < ts.len() && #[trigger] trigger_runs(ts[i], event, p);
                if i < init.len() {
                    assert(trigger_runs(init[i], event, p));
                    assert(acc.run_pipelines.contains(p));
                } else {
                    let ps = t.run_pipelines->0;
                    let j: int = choose|j: int| 0 <= j < ps@.len() && #[trigger] ps@[j]@ == p;
                    assert(ps@.map_values(|s: String| s@)[j] == p);
                    assert(text_set(ps@).contains(p));
                }
            }
        }
        if exists|i: int| 0 <= i < init.len() && event_matches(#[trigger] init[i].on, event) && init[i].reload_config {
            let i: int = choose|i: int| 0 <= i < init.len() && event_matches(#[trigger] init[i].on, event) && init[i].reload_config;
            assert(event_matches(ts[i].on, event) && ts[i].reload_config);
        }
        if exists|i: int| 0 <= i < ts.len() && event_matches(#[trigger] ts[i].on, event) && ts[i].reload_config {
            let i: int = choose|i: int| 0 <= i < ts.len() && event_matches(#[trigger] ts[i].on, event) && ts[i].reload_config;
            if i < init.len() {
                assert(event_matches(init[i].on, event) && init[i].reload_config);
            }
        }
        if exists|i: int| 0 <= i < init.len() && event_matches(#[trigger] init[i].on, event) && init[i].reload_project {
            let i: int = choose|i: int| 0 <= i < init.len() && event_matches(#[trigger] init[i].on, event) && init[i].reload_project;
            assert(event_matches(ts[i].on, event) && ts[i].reload_project);
        }
        if exists|i: int| 0 <= i < ts.len() && event_matches(#[trigger] ts[i].on, event) && ts[i].reload_project {
            let i: int = choose|i: int| 0 <= i < ts.len() && event_matches(#[trigger] ts[i].on, event) && ts[i].reload_project;
            if i < init.len() {
                assert(event_matches(init[i].on, event) && init[i].reload_project);
            }
        }
    }
}

/// Whether trigger `i` of action `a` is among all the triggers.
pub open spec fn in_flat(acts: Seq<(String, Vec<Trigger>)>, a: int, i: int) -> bool {
    exists|k: int| 0 <= k < flat_triggers(acts).len() && flat_triggers(acts)[k] == acts[a].1@[i]
}

/// Whether entry `k` of all the triggers is a trigger of some action.
pub open spec fn of_an_action(acts: Seq<(String, Vec<Trigger>)>, k: int) -> bool {
    exists|a: int, i: int| 0 <= a < acts.len() && 0 <= i < acts[a].1@.len() && flat_triggers(acts)[k] == acts[a].1@[i]
}

/// Every trigger of every action is among all the triggers, and nothing
/// else is.
pub proof fn lemma_flat_triggers(acts: Seq<(String, Vec<Trigger>)>)
    ensures
        forall|a: int, i: int| 0 <= a < acts.len() && 0 <= i < acts[a].1@.len() ==> #[trigger] in_flat(acts, a, i),
        forall|k: int| 0 <= k < flat_triggers(acts).len() ==> #[trigger] of_an_action(acts, k),
    decreases acts.len(),
{
    if acts.len() > 0 {
        let init = acts.drop_last();
        lemma_flat_triggers(init);
        let fi = flat_triggers(init);
        let last = acts.last().1@;
        let f = flat_triggers(acts);
        assert(f == fi + last);
        assert forall|a: int, i: int| 0 <= a < acts.len() && 0 <= i < acts[a].1@.len() implies #[trigger] in_flat(acts, a, i) by {
            if a < init.len() {
                assert(init[a] == acts[a]);
                assert(in_flat(init, a, i));
                let k: int = choose|k: int| 0 <= k < fi.len() && fi[k] == init[a].1@[i];
                assert(f[k] == fi[k]);
            } else {
                assert(f[fi.len() + i] == last[i]);
            }
        }
        assert forall|k: int| 0 <= k < f.len() implies #[trigger] of_an_action(acts, k) by {
            if k < fi.len() {
                assert(f[k] == fi[k]);
                assert(of_an_action(init, k));
                let (a, i): (int, int) = choose|a: int, i: int| 0 <= a < init.len() && 0 <= i < init[a].1@.len() && fi[k] == init[a].1@[i];
                assert(init[a] == acts[a]);
            } else {
                assert(f[k] == last[k - fi.len()]);
                assert(acts[acts.len() - 1].1@[k - fi.len()] == last[k - fi.len()]);
            }
        }
    }
}

/// What a project's actions ask for on an event: the pipelines are exactly
/// those named by some trigger of some action that reacts to the event
/// (the union over all of them).
pub proof fn lemma_matched_pipelines(acts: Seq<(String, Vec<Trigger>)>, event: Event, p: Seq<char>)
    ensures
        matched_fold(flat_triggers(acts), event).run_pipelines.contains(p) <==> exists|a: int, i: int|
            0 <= a < acts.len() && 0 <= i < acts[a].1@.len() && #[trigger] trigger_runs(acts[a].1@[i], event, p),
{
    lemma_matched_triggers(flat_triggers(acts), event);
    lemma_flat_triggers(acts);
    let f = flat_triggers(acts);
    if matched_fold(f, event).run_pipelines.contains(p) {
        let k: int = choose|k: int| 0 <= k < f.len() && #[trigger] trigger_runs(f[k], event, p);
        assert(of_an_action(acts, k));
        let (a, i): (int, int) = choose|a: int, i: int| 0 <= a < acts.len() && 0 <= i < acts[a].1@.len() && f[k] == acts[a].1@[i];
        assert(trigger_runs(acts[a].1@[i], event, p));
    }
    if exists|a: int, i: int| 0 <= a < acts.len() && 0 <= i < acts[a].1@.len() && #[trigger] trigger_runs(acts[a].1@[i], event, p) {
        let (a, i): (int, int) = choose|a: int, i: int| 0 <= a < acts.len() && 0 <= i < acts[a].1@.len() && #[trigger] trigger_runs(acts[a].1@[i], event, p);
        assert(in_flat(acts, a, i));
        let k: int = choose|k: int| 0 <= k < f.len() && f[k] == acts[a].1@[i];
        assert(trigger_runs(f[k], event, p));
    }
}

impl Actions {
    /// What the project's triggers ask for on `event` (see
    /// `matched_fold`).
    pub fn get_matched_actions(&self, event: &Event) -> (r: ProjectMatchedActions)
        ensures
            r@ == matched_fold(flat_triggers(self.actions@), *event),
    {
        let mut reload_config = false;
        let mut reload_project = false;
        let mut run_pipelines: Vec<String> = Vec::new();
        let mut services: Vec<(String, ServiceAction)> = Vec::new();
        let ghost acts = self.actions@;
        proof {
            assert(acts.take(0) =~= Seq::<(String, Vec<Trigger>)>::empty());
            assert(text_set(run_pipelines@) =~= Set::<Seq<char>>::empty());
            assert(action_map(services@) =~= Map::<Seq<char>, ServiceAction>::empty());
        }
        let mut i: usize = 0;
        while i < self.actions.len()
            invariant
                acts == self.actions@,
                i <= acts.len(),
                (ProjectMatchedView {
                    reload_config,
                    reload_project,
                    run_pipelines: text_set(run_pipelines@),
                    services: action_map(services@),
                }) == matched_fold(flat_triggers(acts.take(i as int)), *event),
            decreases self.actions.len() - i,
        {
            let triggers = &self.actions[i].1;
            let ghost done = flat_triggers(acts.take(i as int));
            proof {
                assert(done + triggers@.take(0) =~= done);
            }
            let mut j: usize = 0;
            while j < triggers.len()
                invariant
                    j <= triggers@.len(),
                    (ProjectMatchedView {
                        reload_config,
                        reload_project,
                        run_pipelines: text_set(run_pipelines@),
                        services: action_map(services@),
                    }) == matched_fold(done + triggers@.take(j as int), *event),
                decreases triggers.len() - j,
            {
                let t = &triggers[j];
                let ghost seen = done + triggers@.take(j as int);
                proof {
                    assert((done + triggers@.take(j + 1)).drop_last() =~= seen);
                    assert((done + triggers@.take(j + 1)).last() == triggers@[j as int]);
                }
                if t.on.check_matched(event) {
                    reload_config = reload_config || t.reload_config;
                    reload_project = reload_project || t.reload_project;
                    match &t.run_pipelines {
                        Some(ps) => {
                            let ghost base = text_set(run_pipelines@);
                            assert(ps@.take(0) =~= Seq::<String>::empty());
                            assert(base.union(text_set(ps@.take(0))) =~= base);
                            let mut k: usize = 0;
                            while k < ps.len()
                                invariant
                                    k <= ps@.len(),
                                    text_set(run_pipelines@) == base.union(text_set(ps@.take(k as int))),
                                decreases ps.len() - k,
                            {
                                set_insert(&mut run_pipelines, ps[k].clone());
                                proof {
                                    let t2 = ps@.take(k + 1);
                                    assert(t2 =~= ps@.take(k as int).push(ps@[k as int]));
                                    assert(t2.map_values(|s: String| s@) =~= ps@.take(k as int).map_values(|s: String| s@).push(ps@[k as int]@));
                                    ps@.take(k as int).map_values(|s: String| s@).lemma_push_to_set_commute(ps@[k as int]@);
                                    assert(text_set(run_pipelines@) =~= base.union(text_set(t2)));
                                }
                                k = k + 1;
                            }
                            assert(ps@.take(ps@.len() as int) =~= ps@);
                        },
                        None => {},
                    }
                    match &t.services {
                        Some(ss) => {
                            let ghost base = action_map(services@);
                            assert(ss@.take(0) =~= Seq::<(String, ServiceAction)>::empty());
                            let mut k: usize = 0;
                            while k < ss.len()
                                invariant
                                    k <= ss@.len(),
                                    action_map(services@) == insert_actions(base, ss@.take(k as int)),
                                decreases ss.len() - k,
                            {
                                let ghost before = services@;
                                table_insert(&mut services, ss[k].0.clone(), ss[k].1);
                                proof {
                                    let t2 = ss@.take(k + 1);
                                    assert(t2.drop_last() =~= ss@.take(k as int));
                                    assert(t2.last() == ss@[k as int]);
                                    assert(action_map(services@) =~= action_map(before).insert(ss@[k as int].0@, ss@[k as int].1));
                                }
                                k = k + 1;
                            }
                            assert(ss@.take(ss@.len() as int) =~= ss@);
                        },
                        None => {},
                    }
                }
                j = j + 1;
            }
            proof {
                assert(triggers@.take(triggers@.len() as int) =~= triggers@);
                assert(acts.take(i + 1).drop_last() =~= acts.take(i as int));
                assert(acts.take(i + 1).last() == acts[i as int]);
            }
            i = i + 1;
        }
        assert(acts.take(acts.len() as int) =~= acts);
        ProjectMatchedActions { reload_config, reload_project, run_pipelines, services }
    }
}


/// What a trigger reacts to, as the configuration names it.
#[derive(Debug, Clone, Copy, PartialEq, Eq, Structural)]
pub enum TriggerKind {
    Call,
    ProjectReload,
    FileChanged,
    ConfigReload,
}

/// A trigger as the configuration writes it: what it reacts to, what it
/// asks for (a reload is asked for by the presence of its field), and
/// the file patterns per repository for changed files.
#[derive(Debug)]
pub struct TriggerSpec {
    pub on: TriggerKind,
    pub run_pipelines: Option<Vec<String>>,
    pub services: Option<Vec<(String, ServiceAction)>>,
    pub reload_config: bool,
    pub reload_project: bool,
    pub changes: Option<Vec<(String, Vec<String>)>>,
}

/// The first pattern, across repositories and in order, that does not
/// compile.
pub open spec fn first_bad_pattern(changes: Seq<(String, Vec<String>)>) -> Option<Seq<char>>
    decreases changes.len(),
{
    if changes.len() == 0 {
        None
    } else {
        match first_bad_pattern(changes.drop_last()) {
            Some(p) => Some(p),
            None => first_bad_in(changes.last().1@),
        }
    }
}

/// The first pattern of a list that does not compile.
pub open spec fn first_bad_in(ps: Seq<String>) -> Option<Seq<char>>
    decreases ps.len(),
{
    if ps.len() == 0 {
        None
    } else {
        match first_bad_in(ps.drop_last()) {
            Some(p) => Some(p),
            None => if regex_compiles(ps.last()@) {
                None
            } else {
                Some(ps.last()@)
            },
        }
    }
}

/// Compiled patterns per repository hold the sources given, in order.
pub open spec fn compiled_from(patterns: Seq<(String, Vec<TriggerPattern>)>, changes: Seq<(String, Vec<String>)>) -> bool {
    &&& patterns.len() == changes.len()
    &&& forall|i: int| 0 <= i < patterns.len() ==> #[trigger] patterns[i].0@ == changes[i].0@
        && patterns[i].1@.len() == changes[i].1@.len()
        && forall|k: int| 0 <= k < patterns[i].1@.len() ==> #[trigger] patterns[i].1@[k]@ == changes[i].1@[k]@
}

proof fn lemma_first_bad_in_prefix(ps: Seq<String>, n: int)
    requires
        0 <= n <= ps.len(),
        first_bad_in(ps.take(n)) is Some,
    ensures
        first_bad_in(ps) == first_bad_in(ps.take(n)),
    decreases ps.len() - n,
{
    if n < ps.len() {
        assert(ps.take(n + 1).drop_last() =~= ps.take(n));
        lemma_first_bad_in_prefix(ps, n + 1);
    } else {
        assert(ps.take(n) =~= ps);
    }
}

proof fn lemma_first_bad_prefix(cs: Seq<(String, Vec<String>)>, n: int)
    requires
        0 <= n <= cs.len(),
        first_bad_pattern(cs.take(n)) is Some,
    ensures
        first_bad_pattern(cs) == first_bad_pattern(cs.take(n)),
    decreases cs.len() - n,
{
    if n < cs.len() {
        assert(cs.take(n + 1).drop_last() =~= cs.take(n));
        lemma_first_bad_prefix(cs, n + 1);
    } else {
        assert(cs.take(n) =~= cs);
    }
}

fn compile_patterns(changes: Vec<(String, Vec<String>)>) -> (r: Result<Vec<(String, Vec<TriggerPattern>)>, LoadConfigError>)
    ensures
        match first_bad_pattern(changes@) {
            Some(bad) => r matches Err(LoadConfigError::InvalidPattern(s, _)) && s@ == bad,
            None => r matches Ok(ps) && compiled_from(ps@, changes@),
        },
{
    let mut out: Vec<(String, Vec<TriggerPattern>)> = Vec::new();
    let ghost cs = changes@;
    let mut i: usize = 0;
    assert(cs.take(0) =~= Seq::<(String, Vec<String>)>::empty());
    while i < changes.len()
        invariant
            cs == changes@,
            i <= cs.len(),
            first_bad_pattern(cs.take(i as int)) is None,
            compiled_from(out@, cs.take(i as int)),
        decreases changes.len() - i,
    {
        let ps = &changes[i].1;
        let mut compiled: Vec<TriggerPattern> = Vec::new();
        let mut k: usize = 0;
        assert(ps@.take(0) =~= Seq::<String>::empty());
        while k < ps.len()
            invariant
                cs == changes@,
                i < cs.len(),
                first_bad_pattern(cs.take(i as int)) is None,
                compiled_from(out@, cs.take(i as int)),
                k <= ps@.len(),
                *ps == cs[i as int].1,
                first_bad_in(ps@.take(k as int)) is None,
                compiled@.len() == k,
                forall|m: int| 0 <= m < k ==> #[trigger] compiled@[m]@ == ps@[m]@,
            decreases ps.len() - k,
        {
            proof {
                assert(ps@.take(k + 1).drop_last() =~= ps@.take(k as int));
                assert(ps@.take(k + 1).last() == ps@[k as int]);
            }
            match TriggerPattern::new(ps[k].clone()) {
                Ok(p) => {
                    compiled.push(p);
                },
                Err(e) => {
                    proof {
                        lemma_first_bad_in_prefix(ps@, k + 1);
                        assert(cs.take(i + 1).drop_last() =~= cs.take(i as int));
                        assert(cs.take(i + 1).last() == cs[i as int]);
                        lemma_first_bad_prefix(cs, i + 1);
                    }
                    return Err(e);
                },
            }
            k = k + 1;
        }
        assert(ps@.take(ps@.len() as int) =~= ps@);
        proof {
            assert(cs.take(i + 1).drop_last() =~= cs.take(i as int));
            assert(cs.take(i + 1).last() == cs[i as int]);
        }
        let ghost before = out@;
        out.push((changes[i].0.clone(), compiled));
        proof {
            assert forall|a: int| 0 <= a < out@.len() implies #[trigger] out@[a].0@ == cs.take(i + 1)[a].0@
                && out@[a].1@.len() == cs.take(i + 1)[a].1@.len()
                && forall|m: int| 0 <= m < out@[a].1@.len() ==> #[trigger] out@[a].1@[m]@ == cs.take(i + 1)[a].1@[m]@ by {
                if a < i {
                    assert(out@[a] == before[a]);
                    assert(cs.take(i + 1)[a] == cs.take(i as int)[a]);
                    assert(before[a].0@ == cs.take(i as int)[a].0@);
                    assert(forall|m: int| 0 <= m < before[a].1@.len() ==> #[trigger] before[a].1@[m]@ == cs.take(i as int)[a].1@[m]@);
                } else {
                    assert(cs.take(i + 1)[a] == cs[i as int]);
                }
            }
            assert(compiled_from(out@, cs.take(i + 1)));
        }
        i = i + 1;
    }
    assert(cs.take(cs.len() as int) =~= cs);
    Ok(out)
}

impl Trigger {
    /// A trigger of action `trigger_id` of project `project_id`, from its
    /// configuration. A trigger on a project reload may not ask for a
    /// configuration or project reload; one on changed files needs its
    /// patterns, each of which must compile.
    pub fn load_raw(raw: TriggerSpec, project_id: &str, trigger_id: &str) -> (r: Result<Trigger, LoadConfigError>)
        ensures
            if raw.on == TriggerKind::ProjectReload && raw.reload_config {
                r matches Err(LoadConfigError::Disallowed(_))
            } else if raw.on == TriggerKind::ProjectReload && raw.reload_project {
                r matches Err(LoadConfigError::Disallowed(_))
            } else if raw.on == TriggerKind::FileChanged && raw.changes is None {
                r matches Err(LoadConfigError::MissingField(_))
            } else if raw.on == TriggerKind::FileChanged && first_bad_pattern(raw.changes->0@) is Some {
                r matches Err(LoadConfigError::InvalidPattern(s, _)) && s@ == first_bad_pattern(raw.changes->0@)->0
            } else {
                r matches Ok(t) && t.run_pipelines == raw.run_pipelines && t.services == raw.services
                    && t.reload_config == raw.reload_config && t.reload_project == raw.reload_project
                    && match raw.on {
                        TriggerKind::Call => t.on matches TriggerType::Call { project_id: p, trigger_id: q }
                            && p@ == project_id@ && q@ == trigger_id@,
                        TriggerKind::ProjectReload => t.on matches TriggerType::ProjectReload { project_id: p }
                            && p@ == project_id@,
                        TriggerKind::FileChanged => t.on matches TriggerType::ReposUpdated { patterns }
                            && compiled_from(patterns@, raw.changes->0@),
                        TriggerKind::ConfigReload => t.on is ConfigReload,
                    }
            },
    {
        let TriggerSpec { on, run_pipelines, services, reload_config, reload_project, changes } = raw;
        if on == TriggerKind::ProjectReload {
            if reload_config {
                return Err(LoadConfigError::Disallowed(crate::text::str_to_string("reload_config")));
            }
            if reload_project {
                return Err(LoadConfigError::Disallowed(crate::text::str_to_string("reload_project")));
            }
        }
        let on = match on {
            TriggerKind::Call => TriggerType::Call {
                project_id: crate::text::str_to_string(project_id),
                trigger_id: crate::text::str_to_string(trigger_id),
            },
            TriggerKind::ProjectReload => TriggerType::ProjectReload {
                project_id: crate::text::str_to_string(project_id),
            },
            TriggerKind::FileChanged => {
                let changes = match changes {
                    Some(c) => c,
                    None => { return Err(LoadConfigError::MissingField(crate::text::str_to_string("changes"))); },
                };
                match compile_patterns(changes) {
                    Ok(patterns) => TriggerType::ReposUpdated { patterns },
                    Err(e) => { return Err(e); },
                }
            },
            TriggerKind::ConfigReload => TriggerType::ConfigReload,
        };
        Ok(Trigger { on, run_pipelines, services, reload_config, reload_project })
    }
}

/// What an event asks of the first `n` projects, each project's triggers
/// matched (see `matched_fold`) and recorded in order (see `added`).
pub open spec fn projects_matched(ps: Seq<(String, Actions)>, event: Event, n: int) -> MatchedView
    decreases n,
{
    if n <= 0 || n > ps.len() {
        empty_view()
    } else {
        added(
            projects_matched(ps, event, n - 1),
            ps[n - 1].0@,
            matched_fold(flat_triggers(ps[n - 1].1.actions@), event),
        )
    }
}

/// What an event asks of every project, gathered over the projects in
/// order (see `projects_matched`).
pub fn get_matched(projects: &Vec<(String, Actions)>, event: &Event) -> (r: MatchedActions)
    ensures
        matched_wf(r),
        r@ == projects_matched(projects@, *event, projects@.len() as int),
{
    let mut matched = MatchedActions::default();
    let mut i: usize = 0;
    proof {
        assert(matched@.run_pipelines =~= empty_view().run_pipelines);
        assert(matched@.services =~= empty_view().services);
        assert(matched@.reload_projects =~= empty_view().reload_projects);
    }
    while i < projects.len()
        invariant
            i <= projects@.len(),
            matched_wf(matched),
            matched@ == projects_matched(projects@, *event, i as int),
        decreases projects.len() - i,
    {
        let actions = projects[i].1.get_matched_actions(event);
        let ghost before = matched@;
        matched.add_project(projects[i].0.as_str(), actions);
        assert(matched@ == added(before, projects@[i as int].0@, matched_fold(flat_triggers(projects@[i as int].1.actions@), *event)));
        i = i + 1;
    }
    matched
}

} // verus!
