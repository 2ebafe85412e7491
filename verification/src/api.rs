//! Messages exchanged between agents, the controller and its administrators.
//! Timestamps are milliseconds since the Unix epoch (UTC).

use vstd::prelude::*;

verus! {

#[derive(Debug, Clone)]
pub struct EnrollRequest {
    pub display_name: String,
    pub tailscale_ipv4: String,
    pub docker_engine_id: String,
}

#[derive(Debug, Clone)]
pub struct EnrollResponse {
    pub agent_id: String,
    pub agent_token: String,
    pub heartbeat_interval_seconds: u64,
    pub lease_ttl_seconds: u64,
}

#[derive(Debug, Clone)]
pub struct HeartbeatRouteRef {
    pub hostname: String,
    pub backend_fingerprint: String,
}

#[derive(Debug, Clone)]
pub struct HeartbeatRequest {
    pub tailscale_ipv4: String,
    pub routes: Vec<HeartbeatRouteRef>,
}

#[derive(Debug, Clone)]
pub struct RouteEntry {
    pub hostname: String,
    pub backend: String,
    pub container_id: Option<String>,
    pub container_name: Option<String>,
}

#[derive(Debug, Clone)]
pub struct PutRoutesRequest {
    pub routes: Vec<RouteEntry>,
}

#[derive(Debug, Clone)]
pub struct RouteConflict {
    pub hostname: String,
    pub owner_agent_id: String,
    pub lease_expires_at: i64,
}

#[derive(Debug, Clone)]
pub struct PutRoutesResponse {
    pub accepted: Vec<String>,
    pub conflicts: Vec<RouteConflict>,
}

#[derive(Debug, Clone)]
pub struct AdminAgentView {
    pub agent_id: String,
    pub display_name: String,
    pub tailscale_ipv4: String,
    pub docker_engine_id: String,
    pub created_at: i64,
    pub last_seen_at: Option<i64>,
    pub status: String,
}

#[derive(Debug, Clone)]
pub struct AdminRouteView {
    pub hostname: String,
    pub agent_id: String,
    pub tailscale_ipv4: String,
    pub backend: String,
    pub container_id: Option<String>,
    pub container_name: Option<String>,
    pub lease_expires_at: i64,
}

/// Dashboard row: registration lease + optional HTTP probe via agent data path.
#[derive(Debug, Clone)]
pub struct AdminRouteHealthView {
    pub hostname: String,
    pub agent_id: String,
    pub tailscale_ipv4: String,
    pub backend: String,
    pub container_id: Option<String>,
    pub container_name: Option<String>,
    pub lease_expires_at: i64,
    /// `healthy` if lease not expired; else `stale`.
    pub registration: String,
    /// `ok` | `fail` | `timeout` | `skipped`
    pub http_probe: String,
    pub probe_ms: Option<u64>,
    pub probe_detail: Option<String>,
}

#[derive(Debug, Clone)]
pub struct AdminDashboard {
    pub routes: Vec<AdminRouteHealthView>,
    pub agents: Vec<AdminAgentView>,
}

#[derive(Debug, Clone)]
pub struct CreateEnrollmentTokenResponse {
    pub token: String,
    pub expires_at: Option<i64>,
}

/// A running container offered for "click to enable" in the admin UI.
#[derive(Debug, Clone)]
pub struct DiscoveredContainerDto {
    pub identity_key: String,
    pub container_id: String,
    pub container_name: String,
    pub image: String,
    pub network_mode: Option<String>,
    pub suggested_backend: Option<String>,
    pub published_ports: Vec<u16>,
    pub exposed_ports: Vec<u16>,
    pub compose_project: Option<String>,
    pub compose_service: Option<String>,
    pub has_tailsvc_labels: bool,
}

} // verus!
