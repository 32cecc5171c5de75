use microci::actions::{get_matched, Actions, Event, Trigger, TriggerKind, TriggerPattern, TriggerSpec, TriggerType};
use microci::matched::ServiceAction;
use microci::repo_actions::{
    actions_from_raw, repos_from_raw, Action, ActionError, Case, Condition, ConditionType, RawAction, RawCase,
    RawRepo,
};
use microci::repos::{ProjectInfo, Repo, RepoError, Repos, Secrets};
use microci::permissions::{Permission, Permissions, Tokens};
use microci::services::LoadConfigError;
use microci::vars::Value;

fn s(t: &str) -> String {
    t.to_string()
}

fn spec(on: TriggerKind) -> TriggerSpec {
    TriggerSpec {
        on,
        run_pipelines: None,
        services: None,
        reload_config: false,
        reload_project: false,
        changes: None,
    }
}

#[test]
fn patterns_match_with_regex_semantics() {
    let p = TriggerPattern::new(s(r"^src/.*\.rs$")).unwrap();
    assert!(p.is_match("src/main.rs"));
    assert!(!p.is_match("docs/src/main.rs"));
    assert!(!p.is_match("src/main.rs.bak"));
    // Unanchored patterns match anywhere.
    let q = TriggerPattern::new(s("lock")).unwrap();
    assert!(q.is_match("Cargo.lock"));
    assert!(matches!(TriggerPattern::new(s("(")), Err(LoadConfigError::InvalidPattern(p, _)) if p == "("));
    match TriggerPattern::new(s("a[")) {
        Err(LoadConfigError::InvalidPattern(p, e)) => {
            assert_eq!(p, "a[");
            assert!(!e.to_string().is_empty());
        },
        _ => panic!("an unclosed class is not a pattern"),
    }
}

#[test]
fn trigger_loading_rules() {
    let t = Trigger::load_raw(spec(TriggerKind::Call), "p", "deploy").unwrap();
    assert!(matches!(&t.on, TriggerType::Call { project_id, trigger_id } if project_id == "p" && trigger_id == "deploy"));

    let mut bad = spec(TriggerKind::ProjectReload);
    bad.reload_config = true;
    assert!(matches!(Trigger::load_raw(bad, "p", "t"), Err(LoadConfigError::Disallowed(f)) if f == "reload_config"));
    let mut bad = spec(TriggerKind::ProjectReload);
    bad.reload_project = true;
    assert!(matches!(Trigger::load_raw(bad, "p", "t"), Err(LoadConfigError::Disallowed(f)) if f == "reload_project"));

    assert!(matches!(
        Trigger::load_raw(spec(TriggerKind::FileChanged), "p", "t"),
        Err(LoadConfigError::MissingField(f)) if f == "changes"
    ));
    let mut files = spec(TriggerKind::FileChanged);
    files.changes = Some(vec![(s("repo"), vec![s("ok"), s("[")])]);
    assert!(matches!(Trigger::load_raw(files, "p", "t"), Err(LoadConfigError::InvalidPattern(p, _)) if p == "["));

    let mut reload = spec(TriggerKind::ConfigReload);
    reload.reload_config = true;
    let t = Trigger::load_raw(reload, "p", "t").unwrap();
    assert!(matches!(t.on, TriggerType::ConfigReload));
    assert!(t.reload_config);
}

fn actions() -> Actions {
    let mut on_call = spec(TriggerKind::Call);
    on_call.run_pipelines = Some(vec![s("build")]);
    on_call.services = Some(vec![(s("web"), ServiceAction::Deploy)]);
    let mut on_files = spec(TriggerKind::FileChanged);
    on_files.changes = Some(vec![(s("main"), vec![s(r"\.yaml$")])]);
    on_files.reload_project = true;
    on_files.run_pipelines = Some(vec![s("lint")]);
    let mut on_config = spec(TriggerKind::ConfigReload);
    on_config.run_pipelines = Some(vec![s("all")]);
    Actions {
        actions: vec![
            (
                s("deploy"),
                vec![
                    Trigger::load_raw(on_call, "p", "deploy").unwrap(),
                    Trigger::load_raw(on_files, "p", "deploy").unwrap(),
                ],
            ),
            (s("config"), vec![Trigger::load_raw(on_config, "p", "config").unwrap()]),
        ],
    }
}

#[test]
fn matched_actions_for_events() {
    let a = actions();
    let m = a.get_matched_actions(&Event::Call { project_id: s("p"), trigger_id: s("deploy") });
    assert_eq!(m.run_pipelines, vec![s("build")]);
    assert_eq!(m.services, vec![(s("web"), ServiceAction::Deploy)]);
    assert!(!m.reload_project);

    let m = a.get_matched_actions(&Event::Call { project_id: s("p"), trigger_id: s("other") });
    assert!(m.is_empty());

    let m = a.get_matched_actions(&Event::RepoUpdate { diffs: vec![(s("main"), vec![s("a.txt"), s("conf/x.yaml")])] });
    assert!(m.reload_project);
    assert_eq!(m.run_pipelines, vec![s("lint")]);

    let m = a.get_matched_actions(&Event::RepoUpdate { diffs: vec![(s("other"), vec![s("x.yaml")])] });
    assert!(m.is_empty());

    let m = a.get_matched_actions(&Event::ConfigReload);
    assert_eq!(m.run_pipelines, vec![s("all")]);
}

#[test]
fn trigger_types_check_events() {
    let t = TriggerType::ProjectReload { project_id: s("p") };
    assert!(t.check_matched(&Event::ProjectReloaded { project_id: s("p") }));
    assert!(!t.check_matched(&Event::ProjectReloaded { project_id: s("q") }));
    assert!(!t.check_matched(&Event::ConfigReload));
}

// ---- repositories ----

fn repos() -> Repos {
    Repos {
        repos: vec![
            (s("app"), Repo::Regular { path: s("/r/app"), source: s("git@x:app"), branch: s("main") }),
            (s("notes"), Repo::Manual { path: s("/r/notes") }),
        ],
    }
}

#[test]
fn repos_pull_targets() {
    let r = repos();
    assert_eq!(r.pull_repo_target("app"), Ok(Some((s("/r/app"), s("main")))));
    assert_eq!(r.pull_repo_target("notes"), Ok(None));
    assert_eq!(r.pull_repo_target("nope"), Err(RepoError::NoSuchRepo(s("nope"))));
    assert_eq!(r.get("notes").unwrap().path(), "/r/notes");
}

#[test]
fn repos_as_variables() {
    let v = repos().vars();
    assert_eq!(v.eval("${app.path} ${notes.path}").unwrap(), "/r/app /r/notes");
    let info = ProjectInfo {
        id: s("p"),
        enabled: true,
        path: s("/p"),
        repos: repos(),
        tokens: Tokens {
            anonymous: Permissions { global: Permission { read: false, write: false, execute: false }, projects: vec![] },
            tokens: vec![],
        },
        secrets: Secrets::default(),
        data_path: s("/data/p"),
    };
    let v: Value = info.vars();
    assert_eq!(v.eval("${repos.app.path} in ${data.path}").unwrap(), "/r/app in /data/p");
}

#[test]
fn first_format_repos_and_actions() {
    let repos = repos_from_raw(vec![
        RawRepo { id: s("a"), source: s("s1"), branch: None },
        RawRepo { id: s("b"), source: s("s2"), branch: Some(s("dev")) },
        RawRepo { id: s("a"), source: s("s3"), branch: None },
    ]);
    assert_eq!(repos.len(), 2);
    let a = &repos.iter().find(|(k, _)| k == "a").unwrap().1;
    assert_eq!((a.source.as_str(), a.branch.as_str()), ("s3", "master"));
    let b = &repos.iter().find(|(k, _)| k == "b").unwrap().1;
    assert_eq!(b.branch, "dev");

    let acts = actions_from_raw(vec![RawAction {
        id: s("go"),
        update_repos: vec![s("a"), s("b")],
        conditions: vec![
            RawCase { condition: ConditionType::Always, run_pipelines: vec![s("p1")] },
            RawCase { condition: ConditionType::Always, run_pipelines: vec![s("p2"), s("p3")] },
        ],
    }]);
    let go = &acts[0].1;
    assert_eq!(go.cases.len(), 2);
    assert_eq!(go.cases[1].condition, Condition::Always);
    assert_eq!(go.matched_pipelines(&vec![]), vec![s("p1"), s("p2"), s("p3")]);
    assert_eq!(
        go.repos_to_pull(&repos, "/repos").unwrap(),
        vec![(s("/repos/a"), s("master")), (s("/repos/b"), s("dev"))]
    );
    let lonely = Action {
        update_repos: vec![s("zzz")],
        cases: vec![Case { condition: Condition::Always, run_pipelines: vec![] }],
    };
    assert_eq!(lonely.repos_to_pull(&repos, "/repos"), Err(ActionError::NoSuchRepo(s("zzz"))));
    assert!(Condition::Always.check_matched(&vec![]));
}

#[test]
fn matched_over_projects() {
    let projects = vec![(s("p"), actions()), (s("q"), Actions::default())];
    let m = get_matched(&projects, &Event::Call { project_id: s("p"), trigger_id: s("deploy") });
    let p = m.get_project("p").unwrap();
    assert_eq!(p.run_pipelines, vec![s("build")]);
    assert!(m.get_project("q").is_none());
    let m = get_matched(&projects, &Event::ConfigReload);
    assert!(!m.is_empty());
    assert_eq!(m.get_project("p").unwrap().run_pipelines, vec![s("all")]);
}
