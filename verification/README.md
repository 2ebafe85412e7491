# tailsvc

Routes Docker services to devices of a Tailscale tailnet under arbitrary DNS
names. A controller answers DNS and keeps the registry of routes; an agent on
each Docker host discovers labelled containers, registers their hostnames and
proxies HTTP and WebSocket traffic to them. Application traffic never goes
through the controller.

## Layout

- `src/` — the library, verified with Verus: hostname, label and backend
  rules, container discovery, route sets, the route store with leases and
  conflicts, enrollment and sessions, the DNS decisions, cache and replies
  (what a reply keeps of its request), the proxy's
  per-request decisions, and the agent's main loop as a state machine. Each
  public function states its result in `requires`/`ensures`; the laws
  (`lemma_*` proof functions) state what holds across calls.
- `app/` — the processes around it (`tailsvc controller`, `tailsvc agent`):
  configuration, sockets, Docker, SQLite, HTTP, DNS framing and upstream lookups.
- `tests/` — tests of the library on concrete values.

Outside crates reached from the library go through a few trusted wrappers
(`sha2`, `rand`, `idna`, `url`, `hickory-proto` for the DNS wire format,
and the system clock from std); their
contracts say only what those crates document.
