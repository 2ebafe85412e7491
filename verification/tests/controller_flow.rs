use tailsvc::api::{EnrollRequest, HeartbeatRequest, PutRoutesRequest, RouteEntry};
use tailsvc::controller::{
    admin_password_from_text, api_error_reply, backup_file_name, backups_to_prune, bearer_token, check_routes_allowed,
    dashboard_route_view, probe_address, probe_request, probe_result_from_head, root_reply, vacuum_into_sql, ApiConfig,
    ApiError, AppState, BackupConfig, ControllerConfig, DnsConfig, LeaseConfig, ProbeResult, RootReply,
    SecurityConfig, SessionStore, StorageConfig, backup_interval_secs, dns_restart_delays,
};
use tailsvc::dns::{plan_query, response_code, DnsRegistry, QueryOutcome, QueryPlan};
use tailsvc::store::{clock_reading, AgentRow, RouteRow, Storage, StorageError, TokenRow, TIME_BOUND};

const NOW: i64 = 1_700_000_000_000;

fn config(allowed: &[&str], blocked: &[&str]) -> ControllerConfig {
    ControllerConfig {
        dns: DnsConfig {
            listen: "127.0.0.1:53".into(),
            upstreams: vec!["1.1.1.1:53".into()],
            service_ttl_seconds: 5,
            upstream_timeout_ms: 2000,
            positive_cache_max_seconds: 300,
            negative_cache_max_seconds: 30,
            query_timeout_ms: 5000,
        },
        api: ApiConfig {
            listen: "127.0.0.1:8080".into(),
            admin_token_file: "/nonexistent".into(),
            admin_password_file: None,
            admin_username: "admin".into(),
            session_ttl_seconds: 0,
        },
        storage: StorageConfig {
            sqlite_path: "controller.db".into(),
        },
        leases: LeaseConfig {
            heartbeat_interval_seconds: 20,
            agent_ttl_seconds: 90,
        },
        backup: BackupConfig::default(),
        security: SecurityConfig {
            allowed_suffixes: allowed.iter().map(|s| s.to_string()).collect(),
            blocked_names: blocked.iter().map(|s| s.to_string()).collect(),
        },
    }
}

fn app() -> AppState {
    AppState::new(
        Storage::connect("controller.db", 90),
        DnsRegistry::new(),
        config(&[], &[]),
        "test-admin-token".into(),
    )
}

const ADMIN: Option<&str> = Some("Bearer test-admin-token");

struct Agent {
    id: String,
    auth: String,
}

fn enroll(app: &mut AppState, ip: &str, now: i64) -> Agent {
    let tok = app.admin_create_enrollment_token(ADMIN, now, 0).unwrap().token;
    let resp = app
        .enroll(
            Some(&format!("Bearer {tok}")),
            &EnrollRequest {
                display_name: "test-agent".into(),
                tailscale_ipv4: ip.into(),
                docker_engine_id: "test-engine".into(),
            },
            now,
        )
        .unwrap();
    assert_eq!(resp.heartbeat_interval_seconds, 20);
    assert_eq!(resp.lease_ttl_seconds, 90);
    assert!(resp.agent_id.starts_with("agt_"));
    assert_eq!(resp.agent_token.len(), 64);
    Agent {
        id: resp.agent_id,
        auth: format!("Bearer {}", resp.agent_token),
    }
}

fn heartbeat(app: &mut AppState, a: &Agent, ip: &str, now: i64) {
    let code = app
        .heartbeat(
            &a.id,
            Some(&a.auth),
            &HeartbeatRequest {
                tailscale_ipv4: ip.into(),
                routes: vec![],
            },
            now,
        )
        .unwrap();
    assert_eq!(code, 204);
}

fn entry(host: &str, backend: &str) -> RouteEntry {
    RouteEntry {
        hostname: host.into(),
        backend: backend.into(),
        container_id: None,
        container_name: None,
    }
}

#[test]
fn enroll_register_dns_and_conflict() {
    let mut app = app();
    let ts_ip = "100.64.0.10";
    let a1 = enroll(&mut app, ts_ip, NOW);
    heartbeat(&mut app, &a1, ts_ip, NOW);
    let put = app
        .put_routes(
            &a1.id,
            Some(&a1.auth),
            &PutRoutesRequest {
                routes: vec![RouteEntry {
                    hostname: "whoami.internal".into(),
                    backend: "http://127.0.0.1:9".into(),
                    container_id: Some("c1".into()),
                    container_name: Some("whoami".into()),
                }],
            },
            NOW,
        )
        .unwrap();
    assert_eq!(put.accepted, vec!["whoami.internal"]);
    assert!(put.conflicts.is_empty());
    assert_eq!(app.registry.lookup_a("whoami.internal"), Some((100, 64, 0, 10)));

    let a2 = enroll(&mut app, "100.64.0.11", NOW + 10);
    heartbeat(&mut app, &a2, "100.64.0.11", NOW + 10);
    let conflict = app
        .put_routes(
            &a2.id,
            Some(&a2.auth),
            &PutRoutesRequest {
                routes: vec![entry("whoami.internal", "http://127.0.0.1:9")],
            },
            NOW + 10,
        )
        .unwrap();
    assert!(conflict.accepted.is_empty());
    assert_eq!(conflict.conflicts.len(), 1);
    assert_eq!(conflict.conflicts[0].owner_agent_id, a1.id);
    assert_eq!(conflict.conflicts[0].lease_expires_at, NOW + 90_000);
    assert_eq!(app.registry.lookup_a("whoami.internal"), Some((100, 64, 0, 10)));
}

#[test]
fn enrollment_token_is_one_time() {
    let mut app = app();
    let token = app.admin_create_enrollment_token(ADMIN, NOW, 0).unwrap().token;
    let req = |ip: &str| EnrollRequest {
        display_name: "test-agent".into(),
        tailscale_ipv4: ip.into(),
        docker_engine_id: "test-engine".into(),
    };
    let auth = format!("Bearer {token}");
    assert!(app.enroll(Some(&auth), &req("100.64.0.1"), NOW).is_ok());
    let second = app.enroll(Some(&auth), &req("100.64.0.2"), NOW + 1);
    assert!(matches!(second, Err(ApiError::Unauthorized)));
    assert!(matches!(app.enroll(None, &req("100.64.0.3"), NOW), Err(ApiError::Unauthorized)));
}

#[test]
fn lease_expiry_removes_dns_after_ttl() {
    let mut app = app();
    let ts = "100.64.0.30";
    let a = enroll(&mut app, ts, NOW);
    heartbeat(&mut app, &a, ts, NOW);
    app.put_routes(
        &a.id,
        Some(&a.auth),
        &PutRoutesRequest {
            routes: vec![entry("lease.internal", "http://127.0.0.1:1")],
        },
        NOW,
    )
    .unwrap();
    assert!(app.registry.lookup_a("lease.internal").is_some());
    let purged = app.storage.purge_expired_agents_at(0, NOW + 80);
    assert_eq!(purged, 1);
    app.refresh_dns_at(NOW + 80);
    assert!(app.registry.lookup_a("lease.internal").is_none(), "expired lease must drop DNS");
}

#[test]
fn lease_lapse_hides_dns_without_purge() {
    let mut app = app();
    let a = enroll(&mut app, "100.64.0.31", NOW);
    app.put_routes(
        &a.id,
        Some(&a.auth),
        &PutRoutesRequest {
            routes: vec![entry("lapse.internal", "http://127.0.0.1:1")],
        },
        NOW,
    )
    .unwrap();
    app.refresh_dns_at(NOW + 89_999);
    assert!(app.registry.lookup_a("lapse.internal").is_some());
    app.refresh_dns_at(NOW + 90_000);
    assert!(app.registry.lookup_a("lapse.internal").is_none());
}

#[test]
fn route_removed_when_agent_replaces_with_empty_set() {
    let mut app = app();
    let ts = "100.64.0.20";
    let a = enroll(&mut app, ts, NOW);
    heartbeat(&mut app, &a, ts, NOW);
    app.put_routes(
        &a.id,
        Some(&a.auth),
        &PutRoutesRequest {
            routes: vec![entry("temp.internal", "http://127.0.0.1:1")],
        },
        NOW,
    )
    .unwrap();
    assert!(app.registry.lookup_a("temp.internal").is_some());
    app.put_routes(&a.id, Some(&a.auth), &PutRoutesRequest { routes: vec![] }, NOW + 5)
        .unwrap();
    assert!(app.registry.lookup_a("temp.internal").is_none());
}

#[test]
fn expired_owner_loses_hostname() {
    let mut app = app();
    let a1 = enroll(&mut app, "100.64.0.1", NOW);
    app.put_routes(
        &a1.id,
        Some(&a1.auth),
        &PutRoutesRequest {
            routes: vec![entry("Shared.Internal", "http://127.0.0.1:1")],
        },
        NOW,
    )
    .unwrap();
    let later = NOW + 91_000;
    let a2 = enroll(&mut app, "100.64.0.2", later);
    let put = app
        .put_routes(
            &a2.id,
            Some(&a2.auth),
            &PutRoutesRequest {
                routes: vec![entry("shared.internal", "http://127.0.0.1:2")],
            },
            later,
        )
        .unwrap();
    assert_eq!(put.accepted, vec!["shared.internal"]);
    assert_eq!(app.registry.lookup_a("shared.internal"), Some((100, 64, 0, 2)));
}

#[test]
fn bad_credentials_and_policy() {
    let mut app = AppState::new(
        Storage::connect("controller.db", 90),
        DnsRegistry::new(),
        config(&[".internal"], &["github.com"]),
        "pw".into(),
    );
    let tok = app.admin_create_enrollment_token(Some("Bearer pw"), NOW, 0).unwrap().token;
    let resp = app
        .enroll(
            Some(&format!("Bearer {tok}")),
            &EnrollRequest {
                display_name: "d".into(),
                tailscale_ipv4: "100.64.0.9".into(),
                docker_engine_id: "e".into(),
            },
            NOW,
        )
        .unwrap();
    let wrong = app.put_routes(
        &resp.agent_id,
        Some("Bearer nope"),
        &PutRoutesRequest { routes: vec![] },
        NOW,
    );
    assert!(matches!(wrong, Err(ApiError::Unauthorized)));
    let auth = format!("Bearer {}", resp.agent_token);
    let forbidden = app.put_routes(
        &resp.agent_id,
        Some(&auth),
        &PutRoutesRequest {
            routes: vec![entry("ok.internal", "http://127.0.0.1:1"), entry("GitHub.com", "http://127.0.0.1:1")],
        },
        NOW,
    );
    match forbidden {
        Err(ApiError::Forbidden(m)) => assert_eq!(m, "hostname blocked by policy: GitHub.com"),
        other => panic!("unexpected {other:?}"),
    }
    assert_eq!(app.storage.route_rows().len(), 0);
    assert!(matches!(app.admin_revoke_agent(Some("Bearer x"), &resp.agent_id, NOW, 0), Err(ApiError::Unauthorized)));
    assert_eq!(app.admin_revoke_agent(Some("Bearer pw"), &resp.agent_id, NOW, 0).unwrap(), 204);
    let after = app.heartbeat(
        &resp.agent_id,
        Some(&auth),
        &HeartbeatRequest {
            tailscale_ipv4: "100.64.0.9".into(),
            routes: vec![],
        },
        NOW + 1,
    );
    assert!(matches!(after, Err(ApiError::Unauthorized)));
}

#[test]
fn registration_policy() {
    let open = config(&[], &[]);
    assert!(open.hostname_allowed("anything.example").is_ok());
    let cfg = config(&[".internal", "lan"], &["GitHub.com"]);
    assert_eq!(cfg.hostname_allowed("github.com"), Err("hostname blocked by policy: github.com".to_string()));
    assert!(cfg.hostname_allowed("a.internal").is_ok());
    assert!(cfg.hostname_allowed("internal").is_ok());
    assert!(cfg.hostname_allowed("nas.lan").is_ok());
    assert_eq!(
        cfg.hostname_allowed("a.example"),
        Err("hostname not under allowed_suffixes: a.example".to_string())
    );
    assert!(check_routes_allowed(&cfg, &[entry("a.internal", "x")]).is_ok());
    assert!(check_routes_allowed(&cfg, &[entry("a.internal", "x"), entry("b.example", "x")]).is_err());
    assert_eq!(
        check_routes_allowed(&cfg, &[entry("a.internal", "x"), entry("github.com", "x"), entry("b.example", "x")]),
        Err("hostname blocked by policy: github.com".to_string())
    );
}

#[test]
fn admin_listing_and_sessions() {
    let mut app = app();
    let a = enroll(&mut app, "100.64.0.40", NOW);
    app.put_routes(
        &a.id,
        Some(&a.auth),
        &PutRoutesRequest {
            routes: vec![entry("list.internal", "http://127.0.0.1:1")],
        },
        NOW,
    )
    .unwrap();
    let agents = app.admin_agents(ADMIN, NOW + 1000, 0).unwrap();
    assert_eq!(agents.len(), 1);
    assert_eq!(agents[0].status, "healthy");
    let agents = app.admin_agents(ADMIN, NOW + 90_000, 0).unwrap();
    assert_eq!(agents[0].status, "stale");
    let routes = app.admin_routes(ADMIN, NOW + 1000, 0).unwrap();
    assert_eq!(routes.len(), 1);
    assert_eq!(routes[0].tailscale_ipv4, "100.64.0.40");
    assert_eq!(routes[0].lease_expires_at, NOW + 90_000);
    assert!(app.admin_routes(None, NOW, 0).is_err());
    assert_eq!(app.admin_delete_route(ADMIN, "LIST.internal", NOW + 2000, 0).unwrap(), 204);
    assert_eq!(app.admin_routes(ADMIN, NOW + 2000, 0).unwrap().len(), 0);

    let tok = app.sessions.create(5_000).unwrap();
    assert_eq!(tok.len(), 64);
    let bearer = format!("Bearer {tok}");
    assert!(app.check_admin(Some(&bearer), 5_000 + 299_999).is_ok());
    assert!(app.check_admin(Some(&bearer), 5_000 + 300_000).is_err());
    assert!(app.verify_password("admin", "test-admin-token"));
    assert!(!app.verify_password("admin", "wrong"));
    assert!(!app.verify_password("root", "test-admin-token"));
}

#[test]
fn sessions_expire_and_revoke() {
    let mut s = SessionStore::new(1000);
    s.insert_session("t1".into(), 0);
    s.insert_session("t2".into(), 500);
    assert!(s.valid("t1", 999));
    assert!(!s.valid("t1", 1000));
    assert!(s.valid("t2", 1000));
    s.revoke("t2");
    assert!(!s.valid("t2", 1001));
    assert!(!s.valid("nope", 0));
}

#[test]
fn saved_tables_are_checked() {
    let agent = AgentRow {
        agent_id: "agt_1".into(),
        display_name: "d".into(),
        tailscale_ipv4: "100.64.0.1".into(),
        docker_engine_id: "e".into(),
        credential_hash: "h".into(),
        created_at: NOW,
        last_seen_at: Some(NOW),
        revoked_at: None,
    };
    let route = |h: &str| RouteRow {
        hostname: h.into(),
        agent_id: "agt_1".into(),
        backend: "http://127.0.0.1:1/".into(),
        container_id: None,
        container_name: None,
        updated_at: NOW,
    };
    let tok = TokenRow {
        token_hash: "x".into(),
        created_at: NOW,
        used_at: None,
    };
    let st = Storage::restore("db", 90, vec![agent.clone()], vec![route("a.internal")], vec![tok.clone()]).unwrap();
    assert_eq!(st.agent_ttl(), 90_000);
    assert_eq!(st.list_agents().len(), 1);
    let dup = Storage::restore("db", 90, vec![agent], vec![route("a.internal"), route("a.internal")], vec![tok]);
    assert!(matches!(dup, Err(StorageError::Other(_))));
}

#[test]
fn http_replies() {
    assert_eq!(bearer_token(Some("Bearer abc")), Some("abc".to_string()));
    assert_eq!(bearer_token(Some("bearer abc")), None);
    assert_eq!(bearer_token(None), None);
    assert_eq!(api_error_reply(&ApiError::Unauthorized), (401, "unauthorized".to_string()));
    assert_eq!(api_error_reply(&ApiError::Forbidden("no".into())), (403, "no".to_string()));
    assert_eq!(api_error_reply(&ApiError::Storage), (500, "storage error".to_string()));
    assert!(matches!(root_reply(Some("text/html,application/xhtml+xml")), RootReply::RedirectToAdmin));
    match root_reply(Some("*/*")) {
        RootReply::Text(t) => assert_eq!(t, "tailsvc-controller\n"),
        _ => panic!("expected text"),
    }
    assert_eq!(admin_password_from_text("  secret \n").unwrap(), "secret");
    assert!(admin_password_from_text(" \n").is_err());
}

#[test]
fn probe_classification() {
    let ok = probe_result_from_head("HTTP/1.1 200 OK\r\nServer: x\r\n", 30, 12);
    assert_eq!(ok.status, "ok");
    assert_eq!(ok.ms, Some(12));
    assert_eq!(ok.detail.as_deref(), Some("HTTP/1.1 200 OK"));
    assert_eq!(probe_result_from_head("HTTP/1.1 404 Not Found\r\n", 20, 1).status, "ok");
    let bad = probe_result_from_head("HTTP/1.1 502 Bad Gateway\r\n", 20, 1);
    assert_eq!(bad.status, "fail");
    assert_eq!(bad.detail.as_deref(), Some("HTTP/1.1 502 Bad Gateway"));
    let junk = probe_result_from_head("SSH-2.0-OpenSSH\r\n", 10, 1);
    assert_eq!(junk.detail.as_deref(), Some("bad status line: SSH-2.0-OpenSSH"));
    assert_eq!(probe_result_from_head("HTTP/1.1\r\n", 10, 1).status, "fail");
    let empty = probe_result_from_head("", 0, 3);
    assert_eq!(empty.detail.as_deref(), Some("empty response"));
    assert_eq!(
        probe_request("a.internal"),
        "GET / HTTP/1.1\r\nHost: a.internal\r\nConnection: close\r\nUser-Agent: tailsvc-admin-probe\r\n\r\n"
    );
    assert_eq!(probe_address("100.64.0.1"), "100.64.0.1:80");
}

#[test]
fn dashboard_rows() {
    let row = (
        "a.internal".to_string(),
        "agt_1".to_string(),
        "http://127.0.0.1:1/".to_string(),
        None,
        Some("c".to_string()),
        NOW + 10,
    );
    let v = dashboard_route_view(&row, "", NOW, None);
    assert_eq!(v.registration, "healthy");
    assert_eq!(v.http_probe, "skipped");
    assert_eq!(v.probe_detail.as_deref(), Some("no agent ip"));
    let p = ProbeResult {
        status: "ok".into(),
        ms: Some(4),
        detail: None,
    };
    let v = dashboard_route_view(&row, "100.64.0.1", NOW + 10, Some(p));
    assert_eq!(v.registration, "stale");
    assert_eq!(v.http_probe, "ok");
    assert_eq!(v.probe_ms, Some(4));
}

#[test]
fn backup_retention() {
    assert_eq!(backup_file_name("20240101T000000Z"), "controller-20240101T000000Z.db");
    assert_eq!(vacuum_into_sql("/b/it's.db"), "VACUUM INTO '/b/it''s.db'");
    let names: Vec<String> = vec![
        "controller-20240102T000000Z.db",
        "notes.txt",
        "controller-20240104T000000Z.db",
        "controller-20240101T000000Z.db",
        "controller-20240103T000000Z.db",
    ]
    .into_iter()
    .map(String::from)
    .collect();
    assert_eq!(
        backups_to_prune(&names, 2),
        vec!["controller-20240102T000000Z.db".to_string(), "controller-20240101T000000Z.db".to_string()]
    );
    assert!(backups_to_prune(&names, 10).is_empty());
    assert_eq!(backups_to_prune(&names, 0).len(), 4);
    let d = BackupConfig::default();
    assert!(d.enabled);
    assert_eq!(d.keep, 48);
    assert_eq!(d.interval_seconds, 3600);
}

/// Registers `host` for an agent at `ts` and returns the controller.
fn registered(ts: &str, host: &str) -> AppState {
    let mut app = app();
    let a = enroll(&mut app, ts, NOW);
    heartbeat(&mut app, &a, ts, NOW);
    let put = app
        .put_routes(
            &a.id,
            Some(&a.auth),
            &PutRoutesRequest {
                routes: vec![entry(host, "http://127.0.0.1:9")],
            },
            NOW,
        )
        .unwrap();
    assert_eq!(put.accepted, vec![host.to_string()]);
    app
}

#[test]
fn dns_a_response_includes_question_section() {
    let app = registered("100.64.0.77", "wire-a.internal");
    match plan_query(&app.registry, "wire-a.internal.", 1, 5) {
        QueryPlan::Answer(ip, ttl) => {
            assert_eq!(ip, (100, 64, 0, 77));
            assert_eq!(ttl, 5);
        }
        _ => panic!("registered A must have an answer"),
    }
    assert_eq!(response_code(&[QueryOutcome::Records(1, 0)]), 0);
}

#[test]
fn dns_aaaa_nodata_includes_question_and_is_not_header_only() {
    let app = registered("100.64.0.78", "wire-aaaa.internal");
    assert!(matches!(plan_query(&app.registry, "wire-aaaa.internal.", 28, 5), QueryPlan::NoData));
    // NODATA is NOERROR with no answers, not SERVFAIL or NXDOMAIN.
    assert_eq!(response_code(&[QueryOutcome::Records(0, 0)]), 0);
}

#[test]
fn dns_upstream_forward_includes_question_section() {
    let app = registered("100.64.0.79", "wire-f.internal");
    assert!(matches!(plan_query(&app.registry, "example.com.", 1, 5), QueryPlan::Forward));
}

#[test]
fn saved_tables_restore_after_restart() {
    let app = registered("100.64.0.80", "kept.internal");
    let st = &app.storage;
    let back = Storage::restore(
        "controller.db",
        90,
        st.agent_rows().clone(),
        st.route_rows().clone(),
        st.token_rows().clone(),
    )
    .unwrap();
    assert_eq!(format!("{:?}", back.agent_rows()), format!("{:?}", st.agent_rows()));
    assert_eq!(format!("{:?}", back.route_rows()), format!("{:?}", st.route_rows()));
    assert_eq!(format!("{:?}", back.token_rows()), format!("{:?}", st.token_rows()));
    assert_eq!(back.route_rows().len(), 1);
    assert_eq!(back.route_rows()[0].hostname, "kept.internal");
}

#[test]
fn clock_readings_in_range_only() {
    assert!(matches!(clock_reading(Ok(NOW as u128)), Ok(t) if t == NOW));
    assert!(matches!(clock_reading(Err(1_000)), Ok(t) if t == -1_000));
    assert!(matches!(clock_reading(Err(TIME_BOUND as u128)), Ok(t) if t == -TIME_BOUND));
    match clock_reading(Ok(TIME_BOUND as u128 + 1)) {
        Err(StorageError::Other(m)) => assert_eq!(m, "clock out of range"),
        _ => panic!("expected the clock error"),
    }
    assert!(matches!(clock_reading(Err(TIME_BOUND as u128 + 1)), Err(StorageError::Other(_))));
}

#[test]
fn clocked_operations_fail_only_as_stated() {
    let mut st = Storage::connect("controller.db", 90);
    // No such agent: the only failure besides the clock is `NotFound`.
    assert!(matches!(st.heartbeat("agt_none", "100.64.0.1"), Err(StorageError::NotFound)));
    assert!(matches!(st.put_routes("agt_none", &[], 90_000), Err(StorageError::NotFound)));
    assert!(st.revoke_agent("agt_none").is_ok());
    assert_eq!(st.purge_expired_agents(90_000).unwrap(), 0);
    assert!(st.active_dns_routes(90_000).unwrap().is_empty());
    assert!(st.list_routes_admin(90_000).unwrap().is_empty());
    let rec = st.create_enrollment_token().unwrap();
    assert_eq!(rec.token_plain.len(), 64);
    assert!(st.consume_enrollment_token(&rec.token_plain).is_ok());
    assert!(matches!(st.consume_enrollment_token(&rec.token_plain), Err(StorageError::Other(_))));
    let (id, tok) = st.enroll_agent("n", "100.64.0.2", "e").unwrap();
    assert!(id.starts_with("agt_") && id.len() == 28);
    assert_eq!(tok.len(), 64);
    assert!(st.heartbeat(&id, "100.64.0.3").is_ok());
}

#[test]
fn dns_restart_and_backup_schedule() {
    assert_eq!(dns_restart_delays(1000, false), (1000, 2000));
    assert_eq!(dns_restart_delays(40_000, false), (40_000, 60_000));
    assert_eq!(dns_restart_delays(60_000, false), (60_000, 60_000));
    assert_eq!(dns_restart_delays(60_000, true), (1000, 2000));
    assert_eq!(backup_interval_secs(10), 60);
    assert_eq!(backup_interval_secs(3600), 3600);
}

#[test]
fn sessions_valid_until_expiry_or_revocation() {
    let mut s = SessionStore::new(1000);
    let a = s.create(0).unwrap();
    let b = s.create(100).unwrap();
    assert!(s.valid(&a, 999));
    assert!(!s.valid("never-issued", 999));
    s.revoke(&a);
    assert!(!s.valid(&a, 999));
    assert!(s.valid(&b, 999));
    assert!(s.valid(&b, 1099));
    assert!(!s.valid(&b, 1100));
    assert!(!s.valid(&b, 1099));
}

#[test]
fn agent_owns_exactly_the_accepted_hostnames() {
    let mut app = app();
    let a1 = enroll(&mut app, "100.64.0.90", NOW);
    heartbeat(&mut app, &a1, "100.64.0.90", NOW);
    let a2 = enroll(&mut app, "100.64.0.91", NOW);
    heartbeat(&mut app, &a2, "100.64.0.91", NOW);
    app.put_routes(&a1.id, Some(&a1.auth), &PutRoutesRequest { routes: vec![entry("taken.internal", "http://127.0.0.1:1")] }, NOW)
        .unwrap();
    app.put_routes(&a2.id, Some(&a2.auth), &PutRoutesRequest { routes: vec![entry("old.internal", "http://127.0.0.1:1")] }, NOW)
        .unwrap();
    let out = app
        .put_routes(
            &a2.id,
            Some(&a2.auth),
            &PutRoutesRequest {
                routes: vec![entry("Taken.internal", "http://127.0.0.1:2"), entry("new.internal", "http://127.0.0.1:2")],
            },
            NOW + 1,
        )
        .unwrap();
    assert_eq!(out.accepted, vec!["new.internal".to_string()]);
    let mut owned: Vec<String> = app
        .storage
        .route_rows()
        .iter()
        .filter(|r| r.agent_id == a2.id)
        .map(|r| r.hostname.clone())
        .collect();
    owned.sort();
    assert_eq!(owned, out.accepted);
}
