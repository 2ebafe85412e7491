use tailsvc::docker::{
    candidate_from_inspect, identity_key, is_relevant_event, order_candidates, resolve_backend, service_from_inspect,
    should_skip_image, ContainerInspect, EventMessage, PortBinding,
};

#[test]
fn skip_redis() {
    assert!(should_skip_image("redis:7-alpine"));
    assert!(!should_skip_image("traefik/whoami:v1"));
}

#[test]
fn identity_compose() {
    let key = identity_key(&Some("lib".to_string()), &Some("api".to_string()), &"lib-api-1".to_string());
    assert_eq!(key, "compose:lib/api");
    assert_eq!(identity_key(&None, &Some("api".to_string()), &"web".to_string()), "name:web");
}

fn inspect(name: &str, image: &str, labels: &[(&str, &str)]) -> ContainerInspect {
    ContainerInspect {
        running: Some(true),
        name: Some(format!("/{name}")),
        labels: Some(labels.iter().map(|(k, v)| (k.to_string(), v.to_string())).collect()),
        image: Some(image.into()),
        network_mode: Some("bridge".into()),
        ports: Some(vec![(
            "80/tcp".to_string(),
            Some(vec![PortBinding {
                host_ip: Some("0.0.0.0".into()),
                host_port: Some("8080".into()),
            }]),
        )]),
        networks: Some(vec![("bridge".to_string(), Some("172.17.0.2".to_string()))]),
        exposed_ports: Some(vec!["80/tcp".to_string()]),
    }
}

#[test]
fn candidates_are_filtered_and_sorted() {
    let names = [("zeta", "nginx:1"), ("alpha", "traefik/whoami:v1"), ("cache", "Redis:7"), ("mid", "app:2")];
    let cands: Vec<_> = names
        .iter()
        .map(|(n, i)| candidate_from_inspect(&format!("id-{n}"), &inspect(n, i, &[])).unwrap())
        .collect();
    let ordered = order_candidates(cands);
    let got: Vec<&str> = ordered.iter().map(|c| c.container_name.as_str()).collect();
    assert_eq!(got, vec!["alpha", "mid", "zeta"]);
    assert_eq!(ordered[0].identity_key, "name:alpha");
    let dto = ordered[0].to_dto();
    assert_eq!(dto.published_ports, vec![8080]);
    assert_eq!(dto.suggested_backend.as_deref(), Some("http://127.0.0.1:8080"));
}

#[test]
fn stopped_container_is_not_a_candidate() {
    let mut i = inspect("x", "app:1", &[]);
    i.running = Some(false);
    assert!(candidate_from_inspect("id", &i).is_none());
    assert!(service_from_inspect("id", &i).is_none());
}

#[test]
fn labelled_container_is_a_service() {
    let i = inspect(
        "web",
        "app:1",
        &[("tailsvc.enable", "true"), ("tailsvc.hosts", "Web.Internal"), ("com.docker.compose.project", "p")],
    );
    let s = service_from_inspect("abc", &i).unwrap();
    assert_eq!(s.container_name, "web");
    assert_eq!(s.labels.hosts[0].as_str(), "web.internal");
    assert_eq!(s.published_ports.len(), 1);
    assert_eq!(s.published_ports[0].host_port, 8080);
    assert_eq!(s.exposed_ports, vec![80]);
    let c = candidate_from_inspect("abc", &i).unwrap();
    assert!(c.has_tailsvc_labels);
    assert_eq!(c.identity_key, "name:web");
    assert!(service_from_inspect("abc", &inspect("web", "app:1", &[])).is_none());
}

#[test]
fn relevant_events() {
    let ev = |a: Option<&str>| EventMessage {
        action: a.map(String::from),
    };
    assert!(is_relevant_event(&ev(Some("start"))));
    assert!(is_relevant_event(&ev(Some("health_status: healthy"))));
    assert!(is_relevant_event(&ev(Some("disconnect"))));
    assert!(!is_relevant_event(&ev(Some("exec_start"))));
    assert!(!is_relevant_event(&ev(None)));
}

#[test]
fn exposed_udp_ports_are_not_counted() {
    let mut i = inspect("dns", "app:1", &[("tailsvc.enable", "true"), ("tailsvc.hosts", "dns.internal")]);
    i.ports = None;
    i.exposed_ports = Some(vec!["80/tcp".to_string(), "53/udp".to_string()]);
    let s = service_from_inspect("id-dns", &i).unwrap();
    assert_eq!(s.exposed_ports, vec![80]);
    let b = resolve_backend(&s).unwrap();
    assert_eq!(b.host, "172.17.0.2");
    assert_eq!(b.port, 80);
    let c = candidate_from_inspect("id-dns", &i).unwrap();
    assert_eq!(c.exposed_ports, vec![53, 80]);
    let suggested = c.suggested_backend.unwrap();
    assert_eq!((suggested.host.as_str(), suggested.port), ("172.17.0.2", 80));
}

#[test]
fn missing_network_is_named() {
    let i = inspect(
        "web",
        "app:1",
        &[("tailsvc.enable", "true"), ("tailsvc.hosts", "web.internal"), ("tailsvc.port", "80"), ("tailsvc.network", "backend")],
    );
    let mut s = service_from_inspect("id-web", &i).unwrap();
    s.published_ports.clear();
    match resolve_backend(&s) {
        Err(e) => assert_eq!(e.message(), "ambiguous backend resolution: network backend not found"),
        Ok(_) => panic!("expected an error"),
    }
}
