use hasu::config::{check_address, parse_interval, Config, ConfigError};
use hasu::document::{build, build_entry, common_port, is_http, service_mode, sorted_nodes};
use hasu::model::{HealthyInstance, Mode, RenderDocument, TickError};
use hasu::order::{name_le, sort_names};
use hasu::reconcile::{candidate_services, ExternalServiceMap};
use hasu::schedule::{pass_document, step, Action, Event, Pass, Phase};

fn s(x: &str) -> String {
    x.to_string()
}

fn names(xs: &[&str]) -> Vec<String> {
    xs.iter().map(|x| x.to_string()).collect()
}

fn inst(service: &str, node: &str, port: u16, tags: &[&str]) -> HealthyInstance {
    HealthyInstance {
        node: s(node),
        address: s("10.0.0.1"),
        port,
        tags: names(tags),
        service: s(service),
    }
}

/// Runs one pass against a registry given as plain values: `health` answers
/// a query with `Err(())` when the registry fails.
fn run_pass(
    catalog: &[&str],
    local: &[&str],
    health: &dyn Fn(&str) -> Result<Vec<HealthyInstance>, ()>,
) -> Result<RenderDocument, TickError> {
    let mut pass = Pass::start(&names(catalog), &names(local));
    loop {
        let name = match pass.next_query() {
            Some(n) => n.clone(),
            None => break,
        };
        match health(&name) {
            Ok(insts) => pass.record(insts),
            Err(()) => return Err(TickError::RegistryUnavailable),
        }
    }
    pass_document(pass)
}

fn scenario_a_health(name: &str) -> Result<Vec<HealthyInstance>, ()> {
    if name == "api" {
        Ok(vec![inst("api", "n1", 8080, &["release"])])
    } else {
        Ok(vec![])
    }
}

#[test]
fn scenario_a_tcp_service() {
    let doc = run_pass(&["web", "api"], &["web"], &scenario_a_health).unwrap();
    assert_eq!(doc.services.len(), 1);
    let e = &doc.services[0];
    assert_eq!(e.name, "api");
    assert_eq!(e.port, 8080);
    assert_eq!(e.mode, Mode::Tcp);
    assert_eq!(e.mode.as_str(), "tcp");
    assert_eq!(e.nodes, names(&["n1"]));
}

#[test]
fn scenario_a_external_map() {
    let mut pass = Pass::start(&names(&["web", "api"]), &names(&["web"]));
    assert_eq!(pass.next_query().unwrap(), "api");
    pass.record(vec![inst("api", "n1", 8080, &["release"])]);
    assert!(pass.next_query().is_none());
    let m = pass.finish();
    assert_eq!(m.len(), 1);
    assert_eq!(m.names(), names(&["api"]));
    let insts = m.get(&s("api")).unwrap();
    assert_eq!(insts.len(), 1);
    assert_eq!(insts[0].node, "n1");
    assert!(m.get(&s("web")).is_none());
}

#[test]
fn scenario_b_http_tag() {
    let health = |name: &str| -> Result<Vec<HealthyInstance>, ()> {
        if name == "api" {
            Ok(vec![inst("api", "n1", 8080, &["release", "http"])])
        } else {
            Ok(vec![])
        }
    };
    let doc = run_pass(&["web", "api"], &["web"], &health).unwrap();
    assert_eq!(doc.services.len(), 1);
    assert_eq!(doc.services[0].mode, Mode::Http);
    assert_eq!(doc.services[0].mode.as_str(), "http");
    assert_eq!(doc.services[0].port, 8080);
}

#[test]
fn scenario_c_no_healthy_instance() {
    let health = |_: &str| -> Result<Vec<HealthyInstance>, ()> { Ok(vec![]) };
    let doc = run_pass(&["web", "api"], &["web"], &health).unwrap();
    assert!(doc.services.is_empty());
}

#[test]
fn scenario_d_failure_then_recovery() {
    let failing = |_: &str| -> Result<Vec<HealthyInstance>, ()> { Err(()) };
    let mut phase = Phase::Idle;
    let (p, a) = step(phase, Event::IntervalElapsed);
    assert_eq!((p, a), (Phase::Running, Action::RunPass));
    phase = p;
    let first = run_pass(&["web", "api"], &["web"], &failing);
    assert_eq!(first.as_ref().err(), Some(&TickError::RegistryUnavailable));
    let (p, a) = step(phase, Event::PassFinished { succeeded: false });
    assert_eq!((p, a), (Phase::Idle, Action::Sleep));
    phase = p;
    let (p, a) = step(phase, Event::IntervalElapsed);
    assert_eq!((p, a), (Phase::Running, Action::RunPass));
    phase = p;
    let doc = run_pass(&["web", "api"], &["web"], &scenario_a_health).unwrap();
    assert_eq!(doc.services.len(), 1);
    assert_eq!(doc.services[0].name, "api");
    assert_eq!(doc.services[0].port, 8080);
    assert_eq!(doc.services[0].mode, Mode::Tcp);
    assert_eq!(doc.services[0].nodes, names(&["n1"]));
    let (p, a) = step(phase, Event::PassFinished { succeeded: true });
    assert_eq!((p, a), (Phase::Idle, Action::Sleep));
}

#[test]
fn step_ignores_events_out_of_phase() {
    assert_eq!(step(Phase::Idle, Event::PassFinished { succeeded: true }), (Phase::Idle, Action::Ignore));
    assert_eq!(step(Phase::Running, Event::IntervalElapsed), (Phase::Running, Action::Ignore));
}

#[test]
fn candidates_are_catalog_minus_local() {
    let c = candidate_services(&names(&["b", "a", "c", "a", "d"]), &names(&["c", "x"]));
    assert_eq!(c, names(&["a", "b", "d"]));
}

#[test]
fn candidates_edge_cases() {
    assert!(candidate_services(&names(&[]), &names(&["a"])).is_empty());
    assert!(candidate_services(&names(&["a", "b"]), &names(&["b", "a"])).is_empty());
    assert_eq!(candidate_services(&names(&["z", "y"]), &names(&[])), names(&["y", "z"]));
}

#[test]
fn unhealthy_candidate_is_left_out() {
    let mut m = ExternalServiceMap::new();
    assert!(!m.insert_healthy(s("api"), vec![]));
    assert_eq!(m.len(), 0);
    assert!(m.insert_healthy(s("db"), vec![inst("db", "n2", 5432, &[])]));
    assert!(!m.insert_healthy(s("db"), vec![inst("db", "n3", 5432, &[])]));
    assert_eq!(m.len(), 1);
    assert_eq!(m.get(&s("db")).unwrap()[0].node, "n2");
    let doc = build(&m).unwrap();
    assert_eq!(doc.services.len(), 1);
    assert_eq!(doc.services[0].name, "db");
}

#[test]
fn mode_flips_with_http_instances() {
    let mut insts = vec![inst("api", "n1", 80, &["release"])];
    assert_eq!(service_mode(&insts), Mode::Tcp);
    insts.push(inst("api", "n2", 80, &["http"]));
    assert_eq!(service_mode(&insts), Mode::Http);
    insts.pop();
    assert_eq!(service_mode(&insts), Mode::Tcp);
    let later = vec![inst("api", "n1", 80, &[]), inst("api", "n2", 80, &["release", "http"])];
    assert_eq!(service_mode(&later), Mode::Http);
}

#[test]
fn http_tag_is_matched_exactly() {
    assert!(is_http(&s("http")));
    assert!(!is_http(&s("HTTP")));
    assert!(!is_http(&s("https")));
    assert!(!is_http(&s("htt")));
    assert!(!is_http(&s("")));
}

#[test]
fn documents_do_not_depend_on_order() {
    let mut m1 = ExternalServiceMap::new();
    m1.insert_healthy(s("web"), vec![inst("web", "b", 80, &["http"]), inst("web", "a", 80, &[])]);
    m1.insert_healthy(s("api"), vec![inst("api", "n2", 8080, &[]), inst("api", "n1", 8080, &[])]);
    let mut m2 = ExternalServiceMap::new();
    m2.insert_healthy(s("api"), vec![inst("api", "n1", 8080, &[]), inst("api", "n2", 8080, &[])]);
    m2.insert_healthy(s("web"), vec![inst("web", "a", 80, &[]), inst("web", "b", 80, &["http"])]);
    let d1 = build(&m1).unwrap();
    let d2 = build(&m2).unwrap();
    assert_eq!(d1.services.len(), 2);
    for (x, y) in d1.services.iter().zip(d2.services.iter()) {
        assert_eq!(x.name, y.name);
        assert_eq!(x.port, y.port);
        assert_eq!(x.mode, y.mode);
        assert_eq!(x.nodes, y.nodes);
    }
    assert_eq!(d1.services[0].name, "api");
    assert_eq!(d1.services[0].nodes, names(&["n1", "n2"]));
    assert_eq!(d1.services[1].name, "web");
    assert_eq!(d1.services[1].mode, Mode::Http);
    assert_eq!(d1.services[1].nodes, names(&["a", "b"]));
}

#[test]
fn port_disagreement_is_an_integrity_error() {
    let mut m = ExternalServiceMap::new();
    m.insert_healthy(s("ok"), vec![inst("ok", "n1", 1, &[])]);
    m.insert_healthy(s("bad"), vec![inst("bad", "n1", 80, &[]), inst("bad", "n2", 81, &[])]);
    assert_eq!(build(&m).err(), Some(TickError::DataIntegrity(s("bad"))));
    let insts = vec![inst("bad", "n1", 80, &[]), inst("bad", "n2", 81, &[])];
    assert_eq!(common_port(&insts), None);
    assert_eq!(build_entry(&s("bad"), &insts).err(), Some(TickError::DataIntegrity(s("bad"))));
    let same = vec![inst("x", "n1", 9000, &[]), inst("x", "n2", 9000, &[])];
    assert_eq!(common_port(&same), Some(9000));
}

#[test]
fn empty_map_gives_empty_document() {
    let m = ExternalServiceMap::new();
    assert!(build(&m).unwrap().services.is_empty());
}

#[test]
fn nodes_are_sorted_with_duplicates_kept() {
    let insts = vec![inst("s", "n3", 1, &[]), inst("s", "n1", 1, &[]), inst("s", "n3", 1, &[])];
    assert_eq!(sorted_nodes(&insts), names(&["n1", "n3", "n3"]));
}

#[test]
fn names_order_by_bytes() {
    assert!(name_le("a", "b"));
    assert!(!name_le("b", "a"));
    assert!(name_le("ab", "abc"));
    assert!(!name_le("abc", "ab"));
    assert!(name_le("", ""));
    assert!(name_le("Z", "a"));
    assert_eq!(sort_names(names(&["web", "api", "Db", "api"])), names(&["Db", "api", "api", "web"]));
}

#[test]
fn interval_parsing() {
    assert_eq!(parse_interval("10"), Ok(10));
    assert_eq!(parse_interval("0"), Ok(0));
    assert_eq!(parse_interval("18446744073709551615"), Ok(u64::MAX));
    assert_eq!(parse_interval("18446744073709551616"), Err(ConfigError::InvalidInterval));
    assert_eq!(parse_interval(""), Err(ConfigError::InvalidInterval));
    assert_eq!(parse_interval("1x"), Err(ConfigError::InvalidInterval));
    assert_eq!(parse_interval("-5"), Err(ConfigError::InvalidInterval));
}

#[test]
fn address_checking() {
    assert!(check_address("http://localhost:8500/v1"));
    assert!(check_address("https://registry"));
    assert!(!check_address("http://"));
    assert!(!check_address("localhost:8500"));
    assert!(!check_address("ftp://host"));
}

#[test]
fn config_defaults() {
    let c = Config::from_options(None, None, None, None, None).unwrap();
    assert_eq!(c.template, "/etc/hasu/haproxy.mustache");
    assert_eq!(c.output, "/etc/haproxy/haproxy.cfg");
    assert_eq!(c.tags, "release");
    assert_eq!(c.address, "http://localhost:8500/v1");
    assert_eq!(c.interval_secs, 10);
}

#[test]
fn config_given_values_and_errors() {
    let c = Config::from_options(Some(s("t.mustache")), Some(s("out.cfg")), Some(s("canary")), Some(s("https://c:8500/v1")), Some(s("3"))).unwrap();
    assert_eq!(c.template, "t.mustache");
    assert_eq!(c.output, "out.cfg");
    assert_eq!(c.tags, "canary");
    assert_eq!(c.address, "https://c:8500/v1");
    assert_eq!(c.interval_secs, 3);
    assert_eq!(Config::from_options(None, None, None, None, Some(s("ten"))).err(), Some(ConfigError::InvalidInterval));
    assert_eq!(Config::from_options(None, None, None, Some(s("localhost")), None).err(), Some(ConfigError::InvalidAddress));
}
