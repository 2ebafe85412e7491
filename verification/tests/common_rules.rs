use tailsvc::backend::{parse_backend_url, Backend};
use tailsvc::docker::{resolve_backend, DiscoveredService, PublishedPort};
use tailsvc::hostname::{normalize_hostname, parse_host_list, validate_hostname_syntax};
use tailsvc::labels::{labels_from_map, parse_port, validate_service_labels, ServiceLabels};
use tailsvc::Error;

fn map(pairs: &[(&str, &str)]) -> Vec<(String, String)> {
    pairs
        .iter()
        .map(|(k, v)| (k.to_string(), v.to_string()))
        .collect()
}

#[test]
fn lowercase_and_trim() {
    let h = normalize_hostname("  Grafana.Internal  ").unwrap();
    assert_eq!(h.as_str(), "grafana.internal");
}

#[test]
fn rejects_port_and_path() {
    assert!(normalize_hostname("foo:80").is_err());
    assert!(normalize_hostname("foo/bar").is_err());
    assert!(normalize_hostname("http://x").is_err());
}

#[test]
fn parse_dedupes() {
    let v = parse_host_list("a.internal, b.internal ,a.internal").unwrap();
    assert_eq!(v.len(), 2);
    assert_eq!(v[0].as_str(), "a.internal");
    assert_eq!(v[1].as_str(), "b.internal");
}

#[test]
fn idna_label_becomes_punycode() {
    let h = normalize_hostname("Bücher.Example").unwrap();
    assert_eq!(h.as_str(), "xn--bcher-kva.example");
}

#[test]
fn hostname_syntax_rules() {
    assert!(validate_hostname_syntax("a-b.internal").is_ok());
    assert!(validate_hostname_syntax("-a.internal").is_err());
    assert!(validate_hostname_syntax("a..internal").is_err());
    assert!(validate_hostname_syntax("a.internal.").is_err());
    assert!(validate_hostname_syntax("a_b.internal").is_err());
    let long_label = "a".repeat(64);
    assert!(validate_hostname_syntax(&long_label).is_err());
    assert!(validate_hostname_syntax(&"a".repeat(63)).is_ok());
    assert!(normalize_hostname("   ").is_err());
    assert!(matches!(normalize_hostname(""), Err(Error::InvalidHostname(_))));
}

#[test]
fn host_list_rejects_any_bad_entry() {
    assert!(parse_host_list("a.internal,bad host").is_err());
    assert!(parse_host_list("a.internal,").is_err());
    let v = parse_host_list("A.internal,a.INTERNAL").unwrap();
    assert_eq!(v.len(), 1);
}

#[test]
fn ignores_without_enable() {
    let m = map(&[("tailsvc.hosts", "x.internal")]);
    assert!(labels_from_map(&m).is_none());
}

#[test]
fn parses_full() {
    let m = map(&[
        ("tailsvc.enable", "true"),
        ("tailsvc.hosts", "a.internal"),
        ("tailsvc.port", "3000"),
    ]);
    let s = labels_from_map(&m).unwrap();
    assert_eq!(s.port, Some(3000));
}

#[test]
fn labels_case_insensitive_and_optional_fields() {
    let m = map(&[
        ("TAILSVC.ENABLE", "True"),
        ("tailsvc.hosts", "a.internal,b.internal"),
        ("tailsvc.port", "70000"),
        ("tailsvc.backend", "http://10.0.0.2:81"),
        ("tailsvc.network", "  frontend "),
    ]);
    let s = labels_from_map(&m).unwrap();
    assert_eq!(s.hosts.len(), 2);
    assert_eq!(s.port, None);
    assert_eq!(s.backend.as_ref().unwrap().host, "10.0.0.2");
    assert_eq!(s.backend.as_ref().unwrap().port, 81);
    assert_eq!(s.network.as_deref(), Some("frontend"));
    assert!(validate_service_labels(&s).is_ok());
    let off = map(&[("tailsvc.enable", "yes"), ("tailsvc.hosts", "a.internal")]);
    assert!(labels_from_map(&off).is_none());
}

#[test]
fn port_label_rules() {
    assert_eq!(parse_port(" 80 ").ok(), Some(80));
    assert_eq!(parse_port("+8080").ok(), Some(8080));
    assert!(matches!(parse_port("0"), Err(Error::LabelParse(_))));
    assert!(parse_port("65536").is_err());
    assert!(parse_port("-1").is_err());
    assert!(parse_port("").is_err());
    assert!(parse_port("99999999999").is_err());
}

#[test]
fn accepts_http_host_port() {
    let b = parse_backend_url("http://172.18.0.4:3000").unwrap();
    assert_eq!(b.host, "172.18.0.4");
    assert_eq!(b.port, 3000);
}

#[test]
fn rejects_https_and_creds() {
    assert!(parse_backend_url("https://x:1").is_err());
    assert!(parse_backend_url("http://user@x:1").is_err());
}

#[test]
fn backend_url_rules() {
    let b = parse_backend_url(" http://Example.COM ").unwrap();
    assert_eq!(b.host, "example.com");
    assert_eq!(b.port, 80);
    assert!(parse_backend_url("http://x:1/path").is_err());
    assert!(parse_backend_url("http://x:1/?q=1").is_err());
    assert!(parse_backend_url("http://x\u{1}:1").is_err());
    assert!(parse_backend_url("not a url").is_err());
    assert!(matches!(parse_backend_url(""), Err(Error::InvalidBackend(_))));
    assert!(parse_backend_url("http://x:0").is_err());
}

#[test]
fn backend_formatting() {
    let b = Backend { host: "127.0.0.1".into(), port: 18080 };
    assert_eq!(b.authority(), "127.0.0.1:18080");
    assert_eq!(b.base_url(), "http://127.0.0.1:18080/");
    assert_eq!(b.fingerprint(), "http://127.0.0.1:18080/");
    let v6 = Backend { host: "fd7a::1".into(), port: 80 };
    assert_eq!(v6.authority(), "[fd7a::1]:80");
    let br = Backend { host: "[fd7a::1]".into(), port: 8 };
    assert_eq!(br.authority(), "[fd7a::1]:8");
    let z = Backend { host: "h".into(), port: 0 };
    assert_eq!(z.authority(), "h:0");
}

fn labels(port: Option<u16>, backend: Option<Backend>, network: Option<&str>) -> ServiceLabels {
    ServiceLabels {
        hosts: vec![normalize_hostname("x.internal").unwrap()],
        port,
        backend,
        network: network.map(|s| s.into()),
    }
}

fn svc(
    labels: ServiceLabels,
    nets: &[(&str, &str)],
    network_mode: Option<&str>,
    published: Vec<PublishedPort>,
    exposed: Vec<u16>,
) -> DiscoveredService {
    DiscoveredService {
        container_id: "c1".into(),
        container_name: "n".into(),
        labels,
        network_mode: network_mode.map(|s| s.into()),
        published_ports: published,
        networks: nets
            .iter()
            .map(|(k, v)| (k.to_string(), v.to_string()))
            .collect(),
        exposed_ports: exposed,
    }
}

#[test]
fn explicit_backend_wins() {
    let b = Backend {
        host: "192.168.1.50".into(),
        port: 5000,
    };
    let s = svc(
        labels(Some(3000), Some(b.clone()), None),
        &[("br", "1.2.3.4")],
        None,
        vec![],
        vec![],
    );
    assert_eq!(resolve_backend(&s).unwrap(), b);
}

#[test]
fn published_port_before_host_network() {
    let s = svc(
        labels(Some(3000), None, None),
        &[],
        Some("host"),
        vec![PublishedPort {
            container_port: 3000,
            host_ip: "127.0.0.1".into(),
            host_port: 8080,
        }],
        vec![],
    );
    let b = resolve_backend(&s).unwrap();
    assert_eq!(b.host, "127.0.0.1");
    assert_eq!(b.port, 8080);
}

#[test]
fn host_network_default() {
    let s = svc(labels(Some(8080), None, None), &[], Some("host"), vec![], vec![]);
    let b = resolve_backend(&s).unwrap();
    assert_eq!(b.host, "127.0.0.1");
    assert_eq!(b.port, 8080);
}

#[test]
fn published_0_0_0_0_maps_to_loopback() {
    let s = svc(
        labels(Some(80), None, None),
        &[],
        None,
        vec![PublishedPort {
            container_port: 80,
            host_ip: "0.0.0.0".into(),
            host_port: 8080,
        }],
        vec![],
    );
    let b = resolve_backend(&s).unwrap();
    assert_eq!(b.host, "127.0.0.1");
    assert_eq!(b.port, 8080);
}

#[test]
fn bridge_single_network() {
    let s = svc(
        labels(Some(3000), None, None),
        &[("frontend", "172.18.0.4")],
        None,
        vec![],
        vec![],
    );
    let b = resolve_backend(&s).unwrap();
    assert_eq!(b.host, "172.18.0.4");
    assert_eq!(b.port, 3000);
}

#[test]
fn multi_network_requires_selection() {
    let s = svc(
        labels(Some(80), None, None),
        &[("a", "1.1.1.1"), ("b", "2.2.2.2")],
        None,
        vec![],
        vec![],
    );
    assert!(resolve_backend(&s).is_err());
}

#[test]
fn multi_network_with_label() {
    let s = svc(
        labels(Some(80), None, Some("b")),
        &[("a", "1.1.1.1"), ("b", "2.2.2.2")],
        None,
        vec![],
        vec![],
    );
    assert_eq!(resolve_backend(&s).unwrap().host, "2.2.2.2");
}

#[test]
fn infer_port_from_single_exposed() {
    let s = svc(labels(None, None, None), &[("br", "172.18.0.9")], None, vec![], vec![3000]);
    let b = resolve_backend(&s).unwrap();
    assert_eq!(b.port, 3000);
    assert_eq!(b.host, "172.18.0.9");
}

#[test]
fn ambiguous_exposed_ports_fail() {
    let s = svc(
        labels(None, None, None),
        &[("br", "172.18.0.9")],
        None,
        vec![],
        vec![3000, 3001],
    );
    assert!(resolve_backend(&s).is_err());
}

#[test]
fn published_bindings_choice() {
    let two = vec![
        PublishedPort { container_port: 80, host_ip: "10.1.1.1".into(), host_port: 9000 },
        PublishedPort { container_port: 80, host_ip: "".into(), host_port: 9001 },
    ];
    let s = svc(labels(Some(80), None, None), &[], None, two, vec![]);
    let b = resolve_backend(&s).unwrap();
    assert_eq!((b.host.as_str(), b.port), ("127.0.0.1", 9001));
    let amb = vec![
        PublishedPort { container_port: 80, host_ip: "127.0.0.1".into(), host_port: 9000 },
        PublishedPort { container_port: 80, host_ip: "0.0.0.0".into(), host_port: 9001 },
    ];
    let s2 = svc(labels(Some(80), None, None), &[], None, amb, vec![]);
    assert!(matches!(resolve_backend(&s2), Err(Error::AmbiguousBackend(_))));
    let only_published = vec![PublishedPort {
        container_port: 5000,
        host_ip: "127.0.0.1".into(),
        host_port: 15000,
    }];
    let s3 = svc(labels(None, None, None), &[], None, only_published, vec![]);
    assert_eq!(resolve_backend(&s3).unwrap().port, 15000);
    let s4 = svc(labels(Some(80), None, Some("missing")), &[("a", "1.1.1.1")], None, vec![], vec![]);
    assert!(resolve_backend(&s4).is_err());
    let s5 = svc(labels(Some(80), None, None), &[], None, vec![], vec![]);
    assert!(resolve_backend(&s5).is_err());
}

#[test]
fn hostname_errors_say_what_failed() {
    let msg = |r: Result<(), Error>| match r {
        Err(Error::InvalidHostname(m)) => m,
        _ => panic!("expected an invalid hostname"),
    };
    assert_eq!(msg(validate_hostname_syntax(&"a".repeat(254))), "too long");
    assert_eq!(msg(validate_hostname_syntax("a.internal.")), "trailing dot not allowed");
    assert_eq!(msg(validate_hostname_syntax("a..internal")), "empty label");
    assert_eq!(msg(validate_hostname_syntax(&format!("{}.internal", "a".repeat(64)))), "label too long");
    assert_eq!(msg(validate_hostname_syntax("-a.internal")), "label hyphen placement");
    assert_eq!(msg(validate_hostname_syntax("a_b.in*ternal")), "invalid char: _");
    let norm = |s: &str| match normalize_hostname(s) {
        Err(Error::InvalidHostname(m)) => m,
        _ => panic!("expected an invalid hostname"),
    };
    assert_eq!(norm("  "), "empty");
    assert_eq!(norm("a.internal:80"), "port not allowed in hostname");
    assert_eq!(norm("a.internal/x"), "path not allowed in hostname");
}
