use tailsvc::agent::{
    agent_url, bearer_header, bump_controller_backoff, default_connect_ms, default_docker_sock, default_probe,
    default_proxy_port, default_response_secs, default_state, enroll_url, event_reconnect_delays,
    looks_like_public_domain, probe_retry_after, state_path, status_reply, status_response, AgentReady,
    AgentLoop, LoopAction, LoopEvent, ReadyFlag, StaticRouteConfig, CONTROLLER_BACKOFF_MAX_MS,
};
use tailsvc::api::{HeartbeatRouteRef, RouteEntry};
use tailsvc::backend::Backend;
use tailsvc::docker::{DiscoveredService, PublishedPort};
use tailsvc::hostname::normalize_hostname;
use tailsvc::labels::ServiceLabels;
use tailsvc::proxy::{BackendRoute, RouteTable};
use tailsvc::routeset::{apply_static_routes, desired_from_services, prepare_static_routes};

#[test]
fn prepare_skips_bad_and_keeps_good() {
    let entries = vec![
        StaticRouteConfig {
            hosts: vec!["Admin.Example.com".into(), "bad host".into()],
            backend: "http://127.0.0.1:18080".into(),
        },
        StaticRouteConfig {
            hosts: vec!["x.internal".into()],
            backend: "https://nope".into(),
        },
    ];
    let p = prepare_static_routes(&entries);
    assert_eq!(p.len(), 1);
    assert_eq!(p[0].hosts, vec!["admin.example.com".to_string()]);
}

#[test]
fn static_overrides_docker() {
    let mut local = RouteTable::new();
    local.insert(
        "admin.example.com".into(),
        BackendRoute {
            backend: Backend {
                host: "1.2.3.4".into(),
                port: 9,
            },
            container_id: Some("c".into()),
            container_name: Some("old".into()),
        },
    );
    let mut api = vec![RouteEntry {
        hostname: "admin.example.com".into(),
        backend: "http://1.2.3.4:9/".into(),
        container_id: Some("c".into()),
        container_name: Some("old".into()),
    }];
    let mut hb = vec![];
    let prepared = prepare_static_routes(&[StaticRouteConfig {
        hosts: vec!["admin.example.com".into()],
        backend: "http://127.0.0.1:18080".into(),
    }]);
    let (w, o) = apply_static_routes(&mut local, &mut api, &mut hb, &prepared);
    assert_eq!(w, 1);
    assert_eq!(o, 1);
    assert_eq!(local.get("admin.example.com").unwrap().backend.host, "127.0.0.1");
    assert_eq!(api.len(), 1);
    assert_eq!(api[0].backend, "http://127.0.0.1:18080/");
}

#[test]
fn static_route_without_docker_route_is_added() {
    let mut local = RouteTable::new();
    let mut api: Vec<RouteEntry> = vec![];
    let mut hb: Vec<HeartbeatRouteRef> = vec![];
    let prepared = prepare_static_routes(&[StaticRouteConfig {
        hosts: vec!["a.internal".into(), "b.internal".into()],
        backend: "http://10.0.0.1:81".into(),
    }]);
    let (w, o) = apply_static_routes(&mut local, &mut api, &mut hb, &prepared);
    assert_eq!((w, o), (2, 0));
    assert_eq!(local.len(), 2);
    assert_eq!(api.len(), 2);
    assert_eq!(api[1].hostname, "b.internal");
    assert_eq!(api[1].container_name.as_deref(), Some("static"));
    assert_eq!(hb.len(), 2);
    assert_eq!(hb[0].backend_fingerprint, "http://10.0.0.1:81/");
    assert_eq!(local.get("a.internal").unwrap().backend.port, 81);
}

#[test]
fn same_static_host_twice_keeps_the_last() {
    let mut local = RouteTable::new();
    let mut api: Vec<RouteEntry> = vec![];
    let mut hb: Vec<HeartbeatRouteRef> = vec![];
    let prepared = prepare_static_routes(&[
        StaticRouteConfig {
            hosts: vec!["a.internal".into()],
            backend: "http://10.0.0.1:81".into(),
        },
        StaticRouteConfig {
            hosts: vec!["A.Internal".into()],
            backend: "http://10.0.0.2:82".into(),
        },
    ]);
    let (w, o) = apply_static_routes(&mut local, &mut api, &mut hb, &prepared);
    assert_eq!((w, o), (2, 1));
    assert_eq!(api.len(), 1);
    assert_eq!(api[0].backend, "http://10.0.0.2:82/");
    assert_eq!(hb.len(), 1);
    assert_eq!(local.get("a.internal").unwrap().backend.host, "10.0.0.2");
}

fn service(id: &str, hosts: &[&str], backend: Option<Backend>, exposed: Vec<u16>) -> DiscoveredService {
    DiscoveredService {
        container_id: id.into(),
        container_name: format!("{id}-name"),
        labels: ServiceLabels {
            hosts: hosts.iter().map(|h| normalize_hostname(h).unwrap()).collect(),
            port: None,
            backend,
            network: None,
        },
        network_mode: None,
        published_ports: vec![PublishedPort {
            container_port: 80,
            host_ip: "0.0.0.0".into(),
            host_port: 8080,
        }],
        networks: vec![],
        exposed_ports: exposed,
    }
}

#[test]
fn desired_routes_from_services() {
    let a = service("c1", &["a.internal", "b.internal"], None, vec![80]);
    let mut bad = service("c2", &["bad.internal"], None, vec![80, 81]);
    bad.published_ports.clear();
    let c = service(
        "c3",
        &["a.internal"],
        Some(Backend {
            host: "10.1.1.1".into(),
            port: 9000,
        }),
        vec![],
    );
    let d = desired_from_services(&[a, bad, c]);
    assert_eq!(d.api_routes.len(), 3);
    assert_eq!(d.api_routes[0].hostname, "a.internal");
    assert_eq!(d.api_routes[0].backend, "http://127.0.0.1:8080/");
    assert_eq!(d.api_routes[0].container_id.as_deref(), Some("c1"));
    assert_eq!(d.api_routes[2].backend, "http://10.1.1.1:9000/");
    assert_eq!(d.hb_refs[1].hostname, "b.internal");
    assert_eq!(d.local.len(), 2);
    assert_eq!(d.local.get("a.internal").unwrap().container_name.as_deref(), Some("c3-name"));
    assert!(!d.local.contains_key("bad.internal"));
}

#[test]
fn unresolvable_container_leaves_other_routes_alone() {
    let a = || service("c1", &["a.internal"], None, vec![80]);
    let bad = || {
        let mut b = service("c2", &["a.internal", "z.internal"], None, vec![80, 81]);
        b.published_ports.clear();
        b
    };
    let with_bad = desired_from_services(&[bad(), a(), bad()]);
    let without = desired_from_services(&[a()]);
    assert_eq!(with_bad.api_routes.len(), without.api_routes.len());
    assert_eq!(with_bad.api_routes[0].hostname, without.api_routes[0].hostname);
    assert_eq!(with_bad.api_routes[0].backend, without.api_routes[0].backend);
    assert_eq!(with_bad.local.len(), 1);
    assert_eq!(with_bad.local.get("a.internal").unwrap().container_id.as_deref(), Some("c1"));
    assert!(!with_bad.local.contains_key("z.internal"));
}

#[test]
fn public_domain_heuristic() {
    assert!(!looks_like_public_domain("localhost"));
    assert!(!looks_like_public_domain("grafana.internal"));
    assert!(!looks_like_public_domain("NAS.LAN"));
    assert!(!looks_like_public_domain("x.home"));
    assert!(looks_like_public_domain("github.com"));
    assert!(looks_like_public_domain("app.example.org"));
}

#[test]
fn config_defaults() {
    assert_eq!(default_docker_sock(), "/var/run/docker.sock");
    assert_eq!(default_state(), "/var/lib/tailsvc-agent");
    assert_eq!(default_proxy_port(), 80);
    assert_eq!(default_connect_ms(), 2000);
    assert_eq!(default_response_secs(), 300);
    assert!(default_probe());
}

#[test]
fn state_file_location() {
    assert_eq!(state_path("/var/lib/tailsvc-agent"), "/var/lib/tailsvc-agent/agent.json");
    assert_eq!(state_path("/tmp/"), "/tmp/agent.json");
    assert_eq!(state_path(""), "agent.json");
}

#[test]
fn readiness_needs_every_flag() {
    let mut r = AgentReady::new();
    assert!(!r.is_ready());
    r.set(ReadyFlag::TailscaleOk, true);
    r.set(ReadyFlag::DockerOk, true);
    r.set(ReadyFlag::ProxyOk, true);
    r.set(ReadyFlag::Enrolled, true);
    assert!(!r.is_ready());
    r.set(ReadyFlag::InitialReconcile, true);
    assert!(r.is_ready());
    r.set(ReadyFlag::DockerOk, false);
    assert!(!r.is_ready());
}

#[test]
fn status_server_replies() {
    assert_eq!(status_reply("GET /ready HTTP/1.1", true), ("200 OK".to_string(), "ready".to_string()));
    assert_eq!(
        status_reply("GET /ready HTTP/1.1", false),
        ("503 Service Unavailable".to_string(), "not ready".to_string())
    );
    assert_eq!(status_reply("GET /health HTTP/1.1", false), ("200 OK".to_string(), "ok".to_string()));
    assert_eq!(
        status_response("200 OK", "ok"),
        "HTTP/1.1 200 OK\r\ncontent-type: text/plain\r\ncontent-length: 2\r\nconnection: close\r\n\r\nok"
    );
}

#[test]
fn controller_endpoints() {
    assert_eq!(enroll_url("http://c:8080//"), "http://c:8080/v1/agents/enroll");
    assert_eq!(agent_url("http://c:8080/", "agt_1", "heartbeat"), "http://c:8080/v1/agents/agt_1/heartbeat");
    assert_eq!(agent_url("http://c:8080", "agt_1", "routes"), "http://c:8080/v1/agents/agt_1/routes");
    assert_eq!(bearer_header("tok"), "Bearer tok");
}

#[test]
fn backoff_doubles_to_the_cap() {
    assert_eq!(bump_controller_backoff(500), 1000);
    assert_eq!(bump_controller_backoff(20000), CONTROLLER_BACKOFF_MAX_MS);
    let mut b = 500;
    for _ in 0..10 {
        b = bump_controller_backoff(b);
        assert!(b >= 500 && b <= 30000);
    }
    assert_eq!(b, 30000);
    assert_eq!(event_reconnect_delays(8000, false), (8000, 16000));
    assert_eq!(event_reconnect_delays(8000, true), (1000, 2000));
    assert_eq!(event_reconnect_delays(30000, false), (30000, 30000));
    assert!(probe_retry_after(0));
    assert!(probe_retry_after(3));
    assert!(!probe_retry_after(4));
}

fn state(l: &AgentLoop) -> (Option<u64>, bool, u64, u64) {
    (l.debounce_deadline_ms, l.saw_event, l.reconnect_delay_ms, l.controller_backoff_ms)
}

#[test]
fn loop_steps_change_only_what_they_say() {
    let mut l = AgentLoop::new();
    assert_eq!(state(&l), (None, false, 1000, 500));
    assert!(matches!(
        l.step(LoopEvent::DockerEvent { relevant: true, now_ms: 100 }),
        LoopAction::ScheduleDebounce { deadline_ms: 500 }
    ));
    assert_eq!(state(&l), (Some(500), true, 1000, 500));
    assert!(matches!(l.step(LoopEvent::DockerEvent { relevant: false, now_ms: 200 }), LoopAction::Nothing));
    assert_eq!(state(&l), (Some(500), true, 1000, 500));
    assert!(matches!(l.step(LoopEvent::PeriodicTick), LoopAction::Reconcile));
    assert_eq!(state(&l), (Some(500), true, 1000, 500));
    assert!(matches!(l.step(LoopEvent::HeartbeatTick), LoopAction::Heartbeat));
    assert_eq!(state(&l), (Some(500), true, 1000, 500));
    assert!(matches!(l.step(LoopEvent::ReconcileDone { ok: false }), LoopAction::SleepThenRefreshLocal { delay_ms: 500 }));
    assert_eq!(state(&l), (Some(500), true, 1000, 1000));
    assert!(matches!(l.step(LoopEvent::HeartbeatDone { ok: false }), LoopAction::Nothing));
    assert_eq!(state(&l), (Some(500), true, 1000, 2000));
    assert!(matches!(l.step(LoopEvent::DebounceFired), LoopAction::Reconcile));
    assert_eq!(state(&l), (None, true, 1000, 2000));
    assert!(matches!(l.step(LoopEvent::ReconcileDone { ok: true }), LoopAction::Nothing));
    assert_eq!(state(&l), (None, true, 1000, 500));
    assert!(matches!(l.step(LoopEvent::StreamEnded), LoopAction::ReconcileThenReconnect { delay_ms: 1000 }));
    assert_eq!(state(&l), (None, false, 2000, 500));
    assert!(matches!(l.step(LoopEvent::StreamEnded), LoopAction::ReconcileThenReconnect { delay_ms: 2000 }));
    assert_eq!(state(&l), (None, false, 4000, 500));
}
