use microci::bind::{Bind, BindBuilder, BindError, Zone, ZoneBuilder};
use microci::caddy::{Caddy, CaddyBuilder};
use microci::caddyfile;
use microci::codegen::{plan_internal_project, GenProject};
use microci::vars::Value;

fn s(t: &str) -> String {
    t.to_string()
}

fn zone(ip: &str, ns: &[(&str, &str)], cnames: &[&str]) -> Zone {
    Zone {
        ip: s(ip),
        nameservers: ns.iter().map(|(a, b)| (s(a), s(b))).collect(),
        cnames: cnames.iter().map(|c| s(c)).collect(),
    }
}

fn bind(zones: Vec<(&str, Zone)>) -> Bind {
    Bind { zones: zones.into_iter().map(|(n, z)| (s(n), z)).collect() }
}

fn caddy(hosts: &[(&str, &str)]) -> Caddy {
    Caddy { hostnames: hosts.iter().map(|(h, c)| (s(h), s(c))).collect() }
}

#[test]
fn zone_builder_gathers_and_checks() {
    let mut zb = ZoneBuilder::new();
    zb.add(&zone("1.2.3.4", &[("ns1", "1.2.3.5")], &["www"])).unwrap();
    zb.add(&zone("1.2.3.4", &[("ns1", "1.2.3.5"), ("ns2", "1.2.3.6")], &["api"])).unwrap();
    // Another address for the zone.
    let e = zb.add(&zone("9.9.9.9", &[], &[])).unwrap_err();
    assert!(matches!(e, BindError::ZoneIpMismatch(a, b) if a == "1.2.3.4" && b == "9.9.9.9"));
    // Another address for a nameserver.
    let e = zb.add(&zone("1.2.3.4", &[("ns2", "7.7.7.7")], &[])).unwrap_err();
    assert!(matches!(e, BindError::NameserverIpMismatch(a, b) if a == "7.7.7.7" && b == "1.2.3.6"));
    // A name declared twice.
    let e = zb.add(&zone("1.2.3.4", &[], &["www"])).unwrap_err();
    assert!(matches!(e, BindError::CnameExists(c) if c == "www"));
    // Names added before the one met twice stay gathered.
    let e = zb.add(&zone("1.2.3.4", &[], &["mail", "api"])).unwrap_err();
    assert!(matches!(e, BindError::CnameExists(c) if c == "api"));
    let g = zb.build();
    assert_eq!(g.ip, Some(s("1.2.3.4")));
    assert_eq!(g.cnames, vec![s("www"), s("api"), s("mail")]);
    assert_eq!(g.nameservers.len(), 2);
}

#[test]
fn bind_builder_keeps_what_came_before_a_conflict() {
    let mut bb = BindBuilder::new(vec![]);
    bb.add(&bind(vec![("example.com", zone("1.1.1.1", &[], &["a"]))])).unwrap();
    let e = bb
        .add(&bind(vec![("other.org", zone("2.2.2.2", &[], &[])), ("example.com", zone("1.1.1.1", &[], &["a"]))]))
        .unwrap_err();
    assert!(matches!(e, BindError::CnameExists(c) if c == "a"));
    // The zone gathered before the conflict stays.
    let g = bb.build();
    assert_eq!(g.zones.len(), 2);
    assert_eq!(g.zones[0].0, "example.com");
    assert_eq!(g.zones[1].0, "other.org");
}

#[test]
fn bind_files() {
    let mut bb = BindBuilder::new(vec![]);
    bb.add(&bind(vec![("ex.com", zone("1.1.1.1", &[("ns1", "1.1.1.2")], &["www"]))])).unwrap();
    let g = bb.build();
    assert!(!g.is_empty());
    let local = g.get_named_conf_local();
    assert!(local.contains("\nzone \"ex.com\" {\n        type master;\n        file \"/etc/bind/db.ex.com\";\n};\n"));
    assert!(g.get_dockerfile().contains("FROM ubuntu/bind9:latest"));
    assert!(g.get_named_conf_options().contains("allow-query { any; };"));
    let db = g.zones[0].1.get_db_zone("ex.com");
    assert!(db.contains("\n@         IN    NS      ns1.ex.com.\n"));
    assert!(db.contains("\n@       IN    A       1.1.1.1\n"));
    assert!(db.contains("\nns1       IN    A       1.1.1.2\n"));
    assert!(db.contains("\nwww.ex.com.       IN    CNAME       ex.com.\n"));
    let ns_at = db.find("IN    NS").unwrap();
    let cname_at = db.find("CNAME").unwrap();
    assert!(ns_at < cname_at);
}

#[test]
fn caddy_gathers_blocks_per_host() {
    let mut cb = CaddyBuilder::default();
    cb.add(&caddy(&[("a.com", "reverse_proxy :1"), ("b.com", "root *")])).unwrap();
    cb.add(&caddy(&[("a.com", "\nencode gzip")])).unwrap();
    let g = cb.build();
    assert_eq!(
        g.caddyfile(),
        "\na.com {\nreverse_proxy :1\nencode gzip\n}\n\nb.com {\nroot *\n}\n"
    );
}

#[test]
fn caddy_from_raw_substitutes() {
    let v: Value = vec![(s("port"), Value::String(s("81")))].into();
    let c = Caddy::from_raw(vec![(s("h"), s("reverse_proxy :${port}"))], &v).unwrap();
    assert_eq!(c.hostnames, vec![(s("h"), s("reverse_proxy :81"))]);
    assert!(Caddy::from_raw(vec![(s("h"), s("${nope}"))], &v).is_err());
}

#[test]
fn caddyfile_pieces_are_joined() {
    let v: Value = vec![(s("x"), Value::String(s("1")))].into();
    let mut b = caddyfile::CaddyBuilder::default();
    assert_eq!(b.build(), None);
    b.add(&caddyfile::Caddy::from_raw(s("a ${x}\n"), &v).unwrap()).unwrap();
    b.add(&caddyfile::Caddy::from_raw(s("b\n"), &v).unwrap()).unwrap();
    assert_eq!(b.build(), Some(s("a 1\nb\n")));
}

#[test]
fn internal_project_plan() {
    let projects = vec![
        (Some(caddy(&[("a.com", "x")])), None),
        (None, Some(bind(vec![("ex.com", zone("1.1.1.1", &[], &[]))]))),
        (None, None),
    ];
    let plan = plan_internal_project(&projects).unwrap();
    assert_eq!(plan.project, GenProject { caddy: true, bind: true });
    assert_eq!(plan.caddy.hostnames.len(), 1);
    assert_eq!(plan.bind.zones.len(), 1);

    let none: Vec<(Option<Caddy>, Option<microci::bind::Bind>)> = vec![(None, None)];
    let plan = plan_internal_project(&none).unwrap();
    assert_eq!(plan.project, GenProject { caddy: false, bind: false });
    assert!(plan.project.is_empty());

    let clash = vec![
        (None, Some(bind(vec![("ex.com", zone("1.1.1.1", &[], &[]))]))),
        (None, Some(bind(vec![("ex.com", zone("2.2.2.2", &[], &[]))]))),
    ];
    assert!(matches!(plan_internal_project(&clash), Err(BindError::ZoneIpMismatch(_, _))));
}

#[test]
fn internal_project_files() {
    let both = GenProject { caddy: true, bind: true };
    assert!(both.services_config().contains("microci-bind9-configured:"));
    assert!(both.actions_config().contains("microci-bind9-configured: deploy"));
    assert!(both.actions_config().contains("- caddy_reload_pipeline"));
    assert!(both.pipelines_config().contains("caddy_reload_pipeline.yaml"));
    assert!(both.caddy_reload_pipeline().unwrap().contains("caddy reload"));
    let none = GenProject { caddy: false, bind: false };
    assert_eq!(none.services_config(), "\nservices: {}\n");
    assert_eq!(none.pipelines_config(), "\npipelines: {}\n");
    assert_eq!(none.actions_config(), "\nactions:\n  __restart__:\n    - on: call\n");
    assert_eq!(none.caddy_reload_pipeline(), None);
}
