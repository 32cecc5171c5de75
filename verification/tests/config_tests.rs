use microci::loading::{
    LoadContext,
    load_params, parse_bool, substitute_vars, substitute_vars_dict, substitute_vars_list, AsString, Enabled, LoadRawSync,
};
use microci::matched::{trigger_step, MatchedActions, ProjectMatchedActions, ServiceAction, TriggerAction, TriggerEvent, TriggerRun};
use microci::permissions::{
    load_tokens, path_join, permission_from_kinds, ActionType, Permission, PermissionKind, Permissions,
    ServiceConfig, TokenSpec, Tokens,
};
use microci::pipeline::Step;
use microci::services::{
    get_container_name, get_image_name, parse_one_port_mapping, parse_port_mapping, Build, LoadConfigError,
    Service, Services,
};
use microci::text::IntParseError;
use microci::repos::{Repo, Repos};
use microci::vars::Value;

fn s(t: &str) -> String {
    t.to_string()
}

fn vars() -> Value {
    let entries: Vec<(String, Value)> = vec![
        (s("name"), Value::String(s("web"))),
        (s("port"), Value::String(s("8080"))),
        (s("on"), Value::String(s("true"))),
    ];
    entries.into()
}

// ---- port mappings ----

#[test]
fn port_mapping_forms() {
    let p = parse_one_port_mapping(&s("8080:80")).unwrap();
    assert_eq!((p.host_port, p.container_port, p.proto.as_str(), p.host.clone()), (8080, 80, "tcp", None));
    let p = parse_one_port_mapping(&s("127.0.0.1:53:5353/udp")).unwrap();
    assert_eq!(
        (p.host_port, p.container_port, p.proto.as_str(), p.host.clone()),
        (53, 5353, "udp", Some(s("127.0.0.1")))
    );
}

#[test]
fn port_mapping_errors() {
    assert!(matches!(parse_one_port_mapping(&s("80")), Err(LoadConfigError::InvalidPortMapping(p)) if p == "80"));
    assert!(matches!(parse_one_port_mapping(&s("a:b:c:d")), Err(LoadConfigError::InvalidPortMapping(_))));
    assert!(matches!(parse_one_port_mapping(&s("1:2/tcp/x")), Err(LoadConfigError::InvalidPortMapping(_))));
    assert!(matches!(parse_one_port_mapping(&s("70000:80")), Err(LoadConfigError::InvalidPort(_))));
    assert!(matches!(parse_one_port_mapping(&s("x:80")), Err(LoadConfigError::InvalidPort(_))));
}

#[test]
fn port_mapping_list_stops_at_first_error() {
    let ps = parse_port_mapping(vec![s("1:2"), s("3:4/udp")]).unwrap();
    assert_eq!(ps.len(), 2);
    assert_eq!((ps[1].host_port, ps[1].container_port, ps[1].proto.as_str()), (3, 4, "udp"));
    assert!(matches!(
        parse_port_mapping(vec![s("1:2"), s("bad"), s("x:1")]),
        Err(LoadConfigError::InvalidPortMapping(p)) if p == "bad"
    ));
}

#[test]
fn port_number_error_kind() {
    match parse_one_port_mapping(&s("65536:1")) {
        Err(LoadConfigError::InvalidPort(e)) => assert_eq!(e, IntParseError::PosOverflow),
        other => panic!("unexpected {:?}", other),
    }
}

// ---- services ----

fn service() -> Service {
    Service {
        container: s("proj_web"),
        build: Some(Build { path: s("/src/web"), dockerfile: Some(s("Dockerfile.web")) }),
        image: s("proj_web_image"),
        volumes: vec![(s("data"), s("/data"))],
        networks: vec![s("net")],
        ports: parse_port_mapping(vec![s("80:8080")]).unwrap(),
        command: Some(vec![s("run"), s("--fast")]),
        restart: s("always"),
        env: vec![(s("A"), s("1"))],
    }
}

#[test]
fn service_configs() {
    let svc = service();
    let b = svc.get_build_config().unwrap();
    assert_eq!(b.image, "proj_web_image");
    assert!(b.tag.is_none());
    let src = b.source.unwrap();
    assert_eq!(src.dockerfile, Some(s("Dockerfile.web")));
    let run = svc.get_run_config().unwrap();
    assert_eq!(run.name, "proj_web_image");
    assert_eq!(run.image, "proj_web");
    assert_eq!(run.restart_policy, "always");
    assert_eq!(run.command, Some(vec![s("run"), s("--fast")]));
    assert_eq!(run.ports.len(), 1);
    assert_eq!(svc.get_stop_config().unwrap().name, "proj_web");
}

#[test]
fn service_deploy_job() {
    let job = service().get_deploy_job().unwrap();
    assert!(job.enabled);
    assert!(job.needs.is_empty());
    assert_eq!(job.steps.len(), 3);
    assert!(matches!(&job.steps[0], Step::BuildImage(b) if b.image == "proj_web_image"));
    assert!(matches!(&job.steps[1], Step::StopContainer(c) if c.name == "proj_web"));
    assert!(matches!(&job.steps[2], Step::RunContainer(c) if c.image == "proj_web"));
}

#[test]
fn services_lookup() {
    let mut services = Services::default();
    services.services.push((s("web"), service()));
    assert!(services.get("web").is_some());
    assert!(services.get("db").is_none());
}

#[test]
fn image_and_container_names() {
    assert_eq!(get_image_name(Some("p"), Some("s"), Some(s("img")), false).unwrap(), "img");
    assert_eq!(get_image_name(Some("p"), Some("s"), None, false).unwrap(), "p_s");
    assert_eq!(get_image_name(None, Some("s"), None, true).unwrap(), "s");
    assert!(matches!(get_image_name(None, Some("s"), None, false), Err(LoadConfigError::MissingContext(n)) if n == "project_id"));
    assert!(matches!(get_image_name(Some("p"), None, None, false), Err(LoadConfigError::MissingContext(n)) if n == "service_id"));
    assert_eq!(get_container_name(Some("p"), Some("s"), false).unwrap(), "p_s");
    assert_eq!(get_container_name(Some("p"), Some("s"), true).unwrap(), "s");
}

// ---- permissions ----

fn perm(read: bool, write: bool, execute: bool) -> Permission {
    Permission { read, write, execute }
}

fn config_with_tokens() -> ServiceConfig {
    let tokens = Tokens {
        anonymous: Permissions { global: perm(true, false, false), projects: vec![] },
        tokens: vec![(
            s("admin"),
            Permissions { global: perm(true, true, false), projects: vec![(s("p1"), perm(false, false, true))] },
        )],
    };
    ServiceConfig {
        data_dir: s("/d"),
        repos_path: s("/d/repos"),
        data_path: s("/d/data"),
        internal_path: s("/d/internal"),
        worker_url: None,
        secrets: vec![],
        tokens: Some(tokens),
    }
}

#[test]
fn permissions_checks() {
    let c = config_with_tokens();
    assert!(c.check_allowed(None, None, ActionType::Read));
    assert!(!c.check_allowed(None, None, ActionType::Write));
    assert!(c.check_allowed(Some("admin"), None, ActionType::Write));
    assert!(!c.check_allowed(Some("admin"), None, ActionType::Execute));
    // Per-project rights replace the global ones.
    assert!(c.check_allowed(Some("admin"), Some("p1"), ActionType::Execute));
    assert!(!c.check_allowed(Some("admin"), Some("p1"), ActionType::Write));
    assert!(!c.check_allowed(Some("admin"), Some("p2"), ActionType::Read));
    // An unknown token has no rights.
    assert!(!c.check_allowed(Some("nobody"), None, ActionType::Read));
    // Without a tokens list everything is allowed.
    let open = ServiceConfig { tokens: None, ..config_with_tokens() };
    assert!(open.check_allowed(Some("x"), Some("y"), ActionType::Write));
}

#[test]
fn permission_kinds_grant_rights() {
    let p = permission_from_kinds(&vec![PermissionKind::Read, PermissionKind::Execute]);
    assert_eq!(p, perm(true, false, true));
    assert_eq!(permission_from_kinds(&vec![]), perm(false, false, false));
    assert!(p.check_allowed(ActionType::Execute));
    assert!(!p.check_allowed(ActionType::Write));
}

#[test]
fn tokens_loading() {
    let specs = vec![
        TokenSpec { token: None, global: vec![PermissionKind::Read], projects: vec![] },
        TokenSpec {
            token: Some(s("t-${name}")),
            global: vec![PermissionKind::Write],
            projects: vec![(s("p"), vec![PermissionKind::Execute])],
        },
        TokenSpec { token: None, global: vec![PermissionKind::Write], projects: vec![] },
    ];
    let t = load_tokens(&specs, &vars()).unwrap();
    // The first anonymous entry counts.
    assert_eq!(t.anonymous.global, perm(true, false, false));
    assert_eq!(t.tokens.len(), 1);
    assert_eq!(t.tokens[0].0, "t-web");
    assert_eq!(t.tokens[0].1.projects[0].1, perm(false, false, true));
    let bad = vec![TokenSpec { token: Some(s("${missing}")), global: vec![], projects: vec![] }];
    assert!(matches!(load_tokens(&bad, &vars()), Err(LoadConfigError::SubstitutionError(_))));
}

#[test]
fn service_config_from_parts() {
    let c = ServiceConfig::from_parts(s("/home/u/.microci"), Some(s("http://w")), vec![], None, &vars()).unwrap();
    assert_eq!(c.data_path, "/home/u/.microci/data");
    assert_eq!(c.repos_path, "/home/u/.microci/repos");
    assert_eq!(c.internal_path, "/home/u/.microci/internal");
    assert!(c.tokens.is_none());
    assert_eq!(path_join("a/", "b"), "a/b");
    assert_eq!(path_join("", "b"), "b");
}

// ---- matched actions ----

fn project_actions(pipelines: &[&str], reload: bool) -> ProjectMatchedActions {
    ProjectMatchedActions {
        reload_config: false,
        reload_project: reload,
        run_pipelines: pipelines.iter().map(|p| s(p)).collect(),
        services: vec![],
    }
}

#[test]
fn add_then_get_project() {
    let mut m = MatchedActions::default();
    assert!(m.is_empty());
    m.add_project("p1", project_actions(&["build"], true));
    assert!(!m.is_empty());
    let got = m.get_project("p1").unwrap();
    assert_eq!(got.run_pipelines, vec![s("build")]);
    assert!(got.reload_project);
    assert!(!got.reload_config);
    assert!(m.get_project("p2").is_none());
    // Empty actions add nothing.
    m.add_project("p3", project_actions(&[], false));
    assert!(m.get_project("p3").is_none());
}

#[test]
fn merge_gathers_both_sides() {
    let mut a = MatchedActions::default();
    a.add_project("p1", project_actions(&["build"], false));
    let mut b = MatchedActions::default();
    b.add_project("p1", project_actions(&["deploy"], true));
    b.reload_config = true;
    a.merge(b);
    assert!(a.reload_config);
    let p = a.get_project("p1").unwrap();
    assert!(p.reload_project);
    assert!(p.run_pipelines.contains(&s("deploy")));
}

#[test]
fn matched_permissions_and_reload_steps() {
    let c = config_with_tokens();
    let mut m = MatchedActions::default();
    m.add_project("p1", project_actions(&["x"], true));
    m.add_project("p2", project_actions(&[], true));
    // Execute on p1 is allowed for admin, but not write for the reloads.
    assert!(!m.check_allowed(Some("admin"), &c));
    assert!(m.needs_reload());
    assert_eq!(m.projects_to_reload(Some("admin"), false, &c), vec![s("p1"), s("p2")]);
    assert_eq!(m.projects_to_reload(None, true, &c), Vec::<String>::new());
    assert!(m.may_reload_config(None, true, &c));
    m.reload_config = true;
    assert!(!m.may_reload_config(None, true, &c));
    assert!(m.may_reload_config(Some("admin"), true, &c));
    assert!(m.may_reload_config(None, false, &c));
    let mut deploy = project_actions(&[], false);
    deploy.services.push((s("web"), ServiceAction::Deploy));
    let mut only = MatchedActions::default();
    only.add_project("p1", deploy);
    assert!(only.check_allowed(Some("admin"), &c));
    assert!(!only.check_allowed(None, &c));
    assert!(!only.needs_reload());
}

// ---- loading helpers ----

#[test]
fn substitution_helpers() {
    let v = vars();
    assert_eq!(substitute_vars(&v, s("${name}:${port}")).unwrap(), "web:8080");
    assert_eq!(substitute_vars_list(&v, vec![s("a"), s("${name}")]).unwrap(), vec![s("a"), s("web")]);
    assert_eq!(
        substitute_vars_dict(&v, vec![(s("k"), s("${port}"))]).unwrap(),
        vec![(s("k"), s("8080"))]
    );
    assert!(matches!(substitute_vars_list(&v, vec![s("${nope}")]), Err(LoadConfigError::SubstitutionError(_))));
}

fn known_repos() -> Repos {
    Repos {
        repos: vec![
            (s("app"), Repo::Regular { path: s("/r/app"), source: s("git@x:app"), branch: s("main") }),
            (s("flag"), Repo::Manual { path: s("true") }),
        ],
    }
}

#[test]
fn bool_and_text_fields() {
    assert_eq!(parse_bool("true"), Some(true));
    assert_eq!(parse_bool("false"), Some(false));
    assert_eq!(parse_bool("True"), None);
    let repos = known_repos();
    let mut c = LoadContext::default();
    c.set_repos(&repos);
    assert!(Enabled::Bool(false).load_raw(&c).unwrap() == false);
    assert!(Enabled::String(s("${repos.flag.path}")).load_raw(&c).unwrap());
    assert!(matches!(Enabled::String(s("${repos.app.path}")).load_raw(&c), Err(LoadConfigError::InvalidValue(t)) if t == "/r/app"));
    assert_eq!(AsString::Int(-3).load_raw(&c).unwrap(), "-3");
    assert_eq!(AsString::Bool(true).load_raw(&c).unwrap(), "true");
    assert_eq!(AsString::String(s("${repos.app.path}/src")).load_raw(&c).unwrap(), "/r/app/src");
    let list = vec![AsString::Int(1), AsString::String(s("${repos.app.path}"))];
    assert_eq!(list.load_raw(&c).unwrap(), vec![s("1"), s("/r/app")]);
    let bad = vec![Enabled::Bool(true), Enabled::String(s("maybe")), Enabled::String(s("${nope}"))];
    assert!(matches!(bad.load_raw(&c), Err(LoadConfigError::InvalidValue(t)) if t == "maybe"));
    assert_eq!(Some(Enabled::String(s("${repos.flag.path}"))).load_raw(&c).unwrap(), Some(true));
    assert_eq!(None::<AsString>.load_raw(&c).unwrap(), None);
}

#[test]
fn texts_without_known_repos_do_not_substitute() {
    let c = LoadContext::default();
    assert!(matches!(
        AsString::String(s("${repos.app.path}")).load_raw(&c),
        Err(LoadConfigError::SubstitutionError(_))
    ));
    assert_eq!(AsString::String(s("plain")).load_raw(&c).unwrap(), "plain");
}

#[test]
fn named_texts_of_a_context() {
    let mut c = LoadContext::default();
    assert!(matches!(c.get_named("env"), Err(LoadConfigError::MissingContext(k)) if k == "env"));
    c.set_named("env", "prod");
    c.set_named("project_id", "shop");
    assert_eq!(c.get_named("env").unwrap(), "prod");
    c.set_named("env", "dev");
    assert_eq!(c.get_named("env").unwrap(), "dev");
    assert_eq!(c.get_named("project_id").unwrap(), "shop");
    let d = c.duplicate();
    assert_eq!(d.get_named("env").unwrap(), "dev");
}

struct EntryId;

impl LoadRawSync for EntryId {
    type Output = String;

    fn load_raw(self, context: &LoadContext) -> Result<String, LoadConfigError> {
        context.get_named("_id")
    }
}

#[test]
fn table_entries_load_with_their_key() {
    let mut c = LoadContext::default();
    c.set_named("_id", "outer");
    let table = vec![(s("web"), EntryId), (s("db"), EntryId)];
    assert_eq!(table.load_raw(&c).unwrap(), vec![(s("web"), s("web")), (s("db"), s("db"))]);
    assert_eq!(c.get_named("_id").unwrap(), "outer");
    let fields = vec![(s("on"), Enabled::Bool(true)), (s("off"), Enabled::String(s("maybe")))];
    assert!(matches!(fields.load_raw(&c), Err(LoadConfigError::InvalidValue(t)) if t == "maybe"));
}

fn table(entries: &[(&str, &str)]) -> Vec<(String, String)> {
    entries.iter().map(|(k, v)| (s(k), s(v))).collect()
}

fn lookup(t: &[(String, String)], k: &str) -> Option<String> {
    t.iter().find(|(key, _)| key == k).map(|(_, v)| v.clone())
}

#[test]
fn params_per_environment() {
    let params = vec![
        (s("__default__"), table(&[("a", "1"), ("b", "${name}")])),
        (s("prod"), table(&[("a", "9"), ("c", "${port}")])),
    ];
    let prod = load_params(&params, "prod", &vars()).unwrap();
    assert_eq!(lookup(&prod, "a"), Some(s("9")));
    assert_eq!(lookup(&prod, "b"), Some(s("web")));
    assert_eq!(lookup(&prod, "c"), Some(s("8080")));
    let dev = load_params(&params, "dev", &vars()).unwrap();
    assert_eq!(dev.len(), 2);
    assert_eq!(lookup(&dev, "a"), Some(s("1")));
    // A default that the environment overrides is not substituted at all.
    let params = vec![(s("__default__"), table(&[("a", "${missing}")])), (s("prod"), table(&[("a", "x")]))];
    assert_eq!(load_params(&params, "prod", &vars()).unwrap(), table(&[("a", "x")]));
    assert!(matches!(load_params(&params, "dev", &vars()), Err(LoadConfigError::SubstitutionError(_))));
}

fn reloading_matched() -> MatchedActions {
    let mut m = MatchedActions::default();
    m.add_project("p1", project_actions(&["x"], true));
    m.add_project("p2", project_actions(&[], true));
    m.reload_config = true;
    m
}

fn empty_run() -> TriggerRun {
    TriggerRun { matched: MatchedActions::default(), pending: vec![] }
}

#[test]
fn trigger_steps_refuse_a_forbidden_reload() {
    let c = config_with_tokens();
    let (_, a) = trigger_step(empty_run(), TriggerEvent::Matched(reloading_matched()), None, true, &c);
    assert_eq!(a, TriggerAction::Refuse);
    let (_, a) = trigger_step(empty_run(), TriggerEvent::Matched(MatchedActions::default()), None, true, &c);
    assert_eq!(a, TriggerAction::Run);
}

#[test]
fn trigger_steps_reload_then_query_writable_projects() {
    let c = config_with_tokens();
    let (run, a) = trigger_step(empty_run(), TriggerEvent::Matched(reloading_matched()), Some("admin"), true, &c);
    assert_eq!(a, TriggerAction::ReloadConfig);
    // The admin token may not write to p1 or p2: nothing is queried.
    let (_, a) = trigger_step(run, TriggerEvent::ConfigReloaded(MatchedActions::default()), Some("admin"), true, &c);
    assert_eq!(a, TriggerAction::Run);
    // Without checks, both projects are queried in turn, then the actions run.
    let (run, a) = trigger_step(empty_run(), TriggerEvent::Matched(reloading_matched()), None, false, &c);
    assert_eq!(a, TriggerAction::ReloadConfig);
    let (run, a) = trigger_step(run, TriggerEvent::ConfigReloaded(MatchedActions::default()), None, false, &c);
    assert_eq!(a, TriggerAction::QueryProject(s("p1")));
    let (run, a) = trigger_step(run, TriggerEvent::ProjectReloaded(MatchedActions::default()), None, false, &c);
    assert_eq!(a, TriggerAction::QueryProject(s("p2")));
    let (run, a) = trigger_step(run, TriggerEvent::ProjectReloaded(MatchedActions::default()), None, false, &c);
    assert_eq!(a, TriggerAction::Run);
    assert!(run.matched.reload_config);
    assert!(run.matched.get_project("p1").is_some());
}
