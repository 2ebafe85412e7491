use tailsvc::backend::Backend;
use tailsvc::dns::{
    loop_guard, plan_query, positive_cache_ttl, registry_pairs, response_code, DnsRegistry, DnsServerConfig, Endpoint,
    QueryOutcome, QueryPlan, ResponseCache,
};
use tailsvc::net::{
    cli_ip_from_output, configured_ts_ip, format_ipv4, interfaces_ip_from_output, parse_ipv4, parse_status_json_ip,
    parse_ts_ip,
};
use tailsvc::proxy::{
    backend_error_reply, forwarded_for, forwarded_headers, is_websocket_upgrade, keep_response_header, plan_request,
    route_key, target_uri, tunnel_failure_reply, upgrade_accepted, BackendRoute, ProxyAction, RouteStore, RouteTable,
    SharedRouteStore, TunnelFailure,
};
use tailsvc::store::DnsRoute;
use tailsvc::Error;

#[test]
fn rejects_non_ts() {
    assert!(parse_ts_ip("127.0.0.1").is_err());
    assert!(parse_ts_ip("192.168.1.1").is_err());
}

#[test]
fn parse_localapi_snippet() {
    let body = r#"{"Self":{"TailscaleIPs":["100.64.1.2","fd7a:115c::1"]}}"#;
    let ip = parse_status_json_ip(body).unwrap();
    assert_eq!(ip, (100, 64, 1, 2));
}

#[test]
fn parse_ok() {
    assert_eq!(parse_ipv4("100.64.0.1"), Some((100, 64, 0, 1)));
}

#[test]
fn ipv4_text_rules() {
    assert_eq!(parse_ipv4("0.0.0.0"), Some((0, 0, 0, 0)));
    assert_eq!(parse_ipv4("255.255.255.255"), Some((255, 255, 255, 255)));
    assert_eq!(parse_ipv4("256.1.1.1"), None);
    assert_eq!(parse_ipv4("01.1.1.1"), None);
    assert_eq!(parse_ipv4("1.1.1"), None);
    assert_eq!(parse_ipv4("1.1.1.1.1"), None);
    assert_eq!(parse_ipv4("1.1.1."), None);
    assert_eq!(parse_ipv4(" 1.1.1.1"), None);
    assert_eq!(parse_ipv4("+1.1.1.1"), None);
    assert_eq!(format_ipv4((100, 64, 0, 10)), "100.64.0.10");
    assert_eq!(parse_ipv4(&format_ipv4((10, 0, 255, 7))), Some((10, 0, 255, 7)));
}

#[test]
fn tailscale_address_checks() {
    assert_eq!(parse_ts_ip("100.64.0.2").unwrap(), (100, 64, 0, 2));
    match parse_ts_ip("10.0.0.1") {
        Err(Error::Other(m)) => assert_eq!(m, "not a tailscale CGNAT address"),
        other => panic!("unexpected {other:?}"),
    }
    match parse_ts_ip("100.64.0") {
        Err(Error::Other(m)) => assert_eq!(m, "parse ip"),
        other => panic!("unexpected {other:?}"),
    }
    assert_eq!(configured_ts_ip("  100.100.1.1 \n").unwrap(), (100, 100, 1, 1));
    assert!(configured_ts_ip("").is_err());
}

#[test]
fn status_body_without_ts_address() {
    assert_eq!(parse_status_json_ip(r#"{"Self":{}}"#), None);
    assert_eq!(parse_status_json_ip(r#"{"TailscaleIPs":["fd7a::1", " 100.70.0.3 "]}"#), Some((100, 70, 0, 3)));
    assert_eq!(parse_status_json_ip(r#"{"TailscaleIPs":["100.1"]}"#), None);
}

#[test]
fn command_outputs() {
    assert_eq!(cli_ip_from_output("100.101.102.103\n"), Some((100, 101, 102, 103)));
    assert_eq!(cli_ip_from_output("\n100.101.102.103\n"), None);
    let ip_addr = "1: lo: <LOOPBACK>\n    inet 127.0.0.1/8 scope host lo\n3: tailscale0: <UP>\n    inet 100.88.1.2/32 scope global tailscale0\n";
    assert_eq!(interfaces_ip_from_output(ip_addr), Some((100, 88, 1, 2)));
    assert_eq!(interfaces_ip_from_output("    inet 192.168.0.2/24 brd\n"), None);
}

fn route(host: &str, port: u16) -> BackendRoute {
    BackendRoute {
        backend: Backend {
            host: host.into(),
            port,
        },
        container_id: None,
        container_name: None,
    }
}

#[test]
fn route_table_is_a_map() {
    let mut t = RouteTable::new();
    t.insert("a.internal".into(), route("10.0.0.1", 80));
    t.insert("b.internal".into(), route("10.0.0.2", 80));
    t.insert("a.internal".into(), route("10.0.0.3", 81));
    assert_eq!(t.len(), 2);
    assert_eq!(t.get("a.internal").unwrap().backend.host, "10.0.0.3");
    assert!(t.contains_key("b.internal"));
    assert!(!t.contains_key("c.internal"));
}

#[test]
fn host_header_resolution() {
    assert_eq!(route_key("WhoAmI.Internal:8080"), "whoami.internal");
    assert_eq!(route_key("x.internal"), "x.internal");
    let mut t = RouteTable::new();
    t.insert("whoami.internal".into(), route("127.0.0.1", 9));
    let mut store = SharedRouteStore::new();
    assert!(store.resolve("whoami.internal").is_none());
    store.replace(t);
    assert_eq!(store.resolve("WHOAMI.internal:80").unwrap().backend.port, 9);
    assert!(store.resolve("unknown.internal").is_none());
}

#[test]
fn text_404_body() {
    let store = SharedRouteStore::new();
    match plan_request(false, &store, "nothing.internal", None, None) {
        ProxyAction::Reply(status, body) => {
            assert_eq!(status, 404);
            assert_eq!(body, "unknown tailsvc host");
        }
        _ => panic!("expected a reply"),
    }
}

#[test]
fn request_decisions() {
    let mut t = RouteTable::new();
    t.insert("down.internal".into(), route("127.0.0.1", 1));
    let mut store = SharedRouteStore::new();
    store.replace(t);
    match plan_request(true, &store, "down.internal", None, None) {
        ProxyAction::Reply(503, body) => assert_eq!(body, "agent shutting down"),
        _ => panic!("expected 503"),
    }
    assert!(matches!(plan_request(false, &store, "down.internal", None, None), ProxyAction::Http(_)));
    assert!(matches!(
        plan_request(false, &store, "down.internal", Some("WebSocket"), Some("keep-alive, Upgrade")),
        ProxyAction::WebSocket(_)
    ));
    assert!(!is_websocket_upgrade(Some("websocket"), None));
    assert!(!is_websocket_upgrade(Some("h2c"), Some("upgrade")));
}

#[test]
fn forwarding_headers() {
    assert_eq!(forwarded_for(None, "100.64.0.9"), "100.64.0.9");
    assert_eq!(forwarded_for(Some(""), "100.64.0.9"), "100.64.0.9");
    assert_eq!(forwarded_for(Some("1.2.3.4"), "100.64.0.9"), "1.2.3.4, 100.64.0.9");
    let h = forwarded_headers(Some("app.internal"), None, "100.64.0.9");
    let expect: Vec<(String, String)> = vec![
        ("host".into(), "app.internal".into()),
        ("x-forwarded-proto".into(), "http".into()),
        ("x-forwarded-host".into(), "app.internal".into()),
        ("x-forwarded-for".into(), "100.64.0.9".into()),
    ];
    assert_eq!(h, expect);
    assert_eq!(forwarded_headers(None, None, "p").len(), 2);
    assert_eq!(target_uri("127.0.0.1:9", "/a?b=1"), "http://127.0.0.1:9/a?b=1");
    assert!(!keep_response_header("transfer-encoding"));
    assert!(keep_response_header("content-type"));
}

#[test]
fn upstream_error_replies() {
    assert_eq!(backend_error_reply("operation Timed Out"), (504, "backend timeout".to_string()));
    assert_eq!(backend_error_reply("connect timeout"), (504, "backend timeout".to_string()));
    assert_eq!(backend_error_reply("connection refused"), (502, "backend unavailable".to_string()));
}

#[test]
fn registry_lookup_ignores_case_and_dots() {
    let mut r = DnsRegistry::new();
    assert!(!r.contains("a.internal"));
    r.replace(vec![("whoami.internal".into(), (100, 64, 0, 10)), ("x.internal".into(), (100, 64, 0, 1))]);
    assert_eq!(r.lookup_a("WhoAmI.Internal."), Some((100, 64, 0, 10)));
    assert_eq!(r.lookup_a("whoami.internal"), Some((100, 64, 0, 10)));
    assert_eq!(r.lookup_a("other.internal"), None);
    r.replace(vec![("x.internal".into(), (1, 1, 1, 1)), ("x.internal".into(), (2, 2, 2, 2))]);
    assert_eq!(r.lookup_a("x.internal"), Some((2, 2, 2, 2)));
    assert_eq!(r.snapshot().len(), 2);
}

#[test]
fn registry_from_dns_routes_skips_bad_addresses() {
    let routes = vec![
        DnsRoute {
            hostname: "a.internal".into(),
            tailscale_ipv4: "100.64.0.1".into(),
        },
        DnsRoute {
            hostname: "b.internal".into(),
            tailscale_ipv4: "fd7a::1".into(),
        },
    ];
    let pairs = registry_pairs(&routes);
    assert_eq!(pairs, vec![("a.internal".to_string(), (100, 64, 0, 1))]);
}

#[test]
fn query_planning() {
    let mut r = DnsRegistry::new();
    r.replace(vec![("wire-a.internal".into(), (100, 64, 0, 77))]);
    assert!(matches!(plan_query(&r, "wire-a.internal.", 1, 5), QueryPlan::Answer((100, 64, 0, 77), 5)));
    assert!(matches!(plan_query(&r, "wire-a.internal.", 28, 5), QueryPlan::NoData));
    assert!(matches!(plan_query(&r, "wire-a.internal.", 16, 5), QueryPlan::Forward));
    assert!(matches!(plan_query(&r, "example.com.", 1, 5), QueryPlan::Forward));
}

#[test]
fn response_codes() {
    assert_eq!(response_code(&[]), 0);
    assert_eq!(response_code(&[QueryOutcome::Records(1, 0)]), 0);
    assert_eq!(response_code(&[QueryOutcome::Records(0, 3)]), 3);
    assert_eq!(response_code(&[QueryOutcome::Failed]), 2);
    assert_eq!(response_code(&[QueryOutcome::Failed, QueryOutcome::Records(1, 0)]), 0);
    assert_eq!(response_code(&[QueryOutcome::Failed, QueryOutcome::Records(0, 3)]), 2);
}

fn ep(ip: &str, port: u16) -> Endpoint {
    Endpoint { ip: ip.into(), port }
}

#[test]
fn loop_protection() {
    let mut r = DnsRegistry::new();
    r.replace(vec![("a.internal".into(), (100, 64, 0, 1))]);
    let listen = ep("100.100.100.100", 53);
    let names = vec!["example.com.".to_string()];
    assert_eq!(loop_guard(Some(&listen), &listen, &[ep("1.1.1.1", 53)], &r, &names), Some(5));
    assert_eq!(loop_guard(Some(&ep("100.64.0.5", 4000)), &listen, &[ep("1.1.1.1", 53)], &r, &names), None);
    assert_eq!(loop_guard(Some(&ep("100.64.0.5", 4000)), &listen, &[listen.clone()], &r, &names), Some(2));
    let served = vec!["A.internal.".to_string()];
    assert_eq!(loop_guard(Some(&ep("100.64.0.5", 4000)), &listen, &[listen.clone()], &r, &served), None);
    assert_eq!(loop_guard(None, &listen, &[listen.clone()], &r, &names), None);
}

#[test]
fn cache_expiry_and_caps() {
    let mut c: ResponseCache<u32> = ResponseCache::new();
    c.put("Example.COM.", 1, vec![7, 8], 0, 30_000, 1_000);
    assert_eq!(c.get("example.com.", 1, 2_000), Some((vec![7, 8], 0)));
    assert_eq!(c.get("example.com.", 28, 2_000), None);
    assert_eq!(c.get("example.com.", 1, 31_000), None);
    assert_eq!(c.get("example.com.", 1, 2_000), None);
    c.put("zero.", 1, vec![1], 0, 0, 1_000);
    assert_eq!(c.get("zero.", 1, 1_000), None);
    c.put("neg.", 1, vec![], 3, 30_000, 0);
    assert_eq!(c.get("neg.", 1, 10), Some((vec![], 3)));
    assert_eq!(positive_cache_ttl(&[600, 120, 900], 300), 120);
    assert_eq!(positive_cache_ttl(&[600], 300), 300);
    assert_eq!(positive_cache_ttl(&[], 300), 300);
    let cfg = DnsServerConfig::with_defaults(ep("0.0.0.0", 53), vec![ep("1.1.1.1", 53)], 5, 2000);
    assert_eq!(cfg.positive_cache_max_ms, 300_000);
    assert_eq!(cfg.negative_cache_max_ms, 30_000);
    assert_eq!(cfg.query_timeout_ms, 5_000);
}

fn store_with(host: &str, backend_host: &str, port: u16) -> SharedRouteStore {
    let mut t = RouteTable::new();
    t.insert(host.into(), route(backend_host, port));
    let mut store = SharedRouteStore::new();
    store.replace(t);
    store
}

#[test]
fn proxy_routes_by_host_through_registered_backend() {
    let store = store_with("whoami.internal", "127.0.0.1", 18081);
    match plan_request(false, &store, "whoami.internal", None, None) {
        ProxyAction::Http(r) => {
            assert_eq!(r.backend.host, "127.0.0.1");
            assert_eq!(r.backend.port, 18081);
        }
        _ => panic!("expected a forward"),
    }
    match plan_request(false, &store, "unknown.internal", None, None) {
        ProxyAction::Reply(code, body) => {
            assert_eq!(code, 404);
            assert_eq!(body, "unknown tailsvc host");
        }
        _ => panic!("expected 404"),
    }
}

#[test]
fn proxy_preserves_host_and_adds_forwarded_headers() {
    let h = forwarded_headers(Some("app.internal"), None, "127.0.0.1");
    assert!(h.contains(&("host".to_string(), "app.internal".to_string())));
    assert!(h.contains(&("x-forwarded-host".to_string(), "app.internal".to_string())));
    assert!(h.contains(&("x-forwarded-proto".to_string(), "http".to_string())));
    assert!(h.contains(&("x-forwarded-for".to_string(), "127.0.0.1".to_string())));
}

#[test]
fn proxy_returns_503_when_shutting_down() {
    let store = store_with("down.internal", "127.0.0.1", 18082);
    match plan_request(true, &store, "down.internal", None, None) {
        ProxyAction::Reply(code, body) => {
            assert_eq!(code, 503);
            assert_eq!(body, "agent shutting down");
        }
        _ => panic!("expected 503"),
    }
}

#[test]
fn proxy_502_when_backend_down() {
    let store = store_with("dead.internal", "127.0.0.1", 1);
    assert!(matches!(plan_request(false, &store, "dead.internal", None, None), ProxyAction::Http(_)));
    let (code, body) = backend_error_reply("client error (Connect): tcp connect error: Connection refused (os error 111)");
    assert_eq!(code, 502);
    assert_eq!(body, "backend unavailable");
}

#[test]
fn proxy_websocket_upgrade_returns_101() {
    let store = store_with("ws.internal", "127.0.0.1", 18083);
    assert!(matches!(
        plan_request(false, &store, "ws.internal", Some("websocket"), Some("Upgrade")),
        ProxyAction::WebSocket(_)
    ));
    assert!(upgrade_accepted(101));
    assert!(!upgrade_accepted(200));
    assert_eq!(tunnel_failure_reply(&TunnelFailure::Refused), (502, "backend unavailable".to_string()));
    assert_eq!(tunnel_failure_reply(&TunnelFailure::ConnectTimeout), (504, "backend timeout".to_string()));
}

#[test]
fn only_tailscale_range_is_accepted() {
    assert!(parse_ts_ip("100.1.2.3").is_err());
    assert!(parse_ts_ip("100.63.255.255").is_err());
    assert!(parse_ts_ip("100.128.0.1").is_err());
    assert_eq!(parse_ts_ip("100.64.0.1").unwrap(), (100, 64, 0, 1));
    assert_eq!(parse_ts_ip("100.127.255.254").unwrap(), (100, 127, 255, 254));
    match parse_ts_ip("100.1.2.3") {
        Err(Error::Other(m)) => assert_eq!(m, "not a tailscale CGNAT address"),
        _ => panic!("expected a refusal"),
    }
}
