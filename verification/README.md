# spur

Verified rules of the Spur cluster manager.

- `src/mesh.rs`, `src/mesh_run.rs`, `src/cidr.rs`: the full WireGuard mesh with
  pod CIDRs. The first computes a node's peers, pod routes and departed peers;
  the second puts them into runs of actions on an interface and its config file;
  the third validates IPv4 CIDRs.
- `src/node_match.rs`: which nodes a job may be placed on.
- `src/qos.rs`, `src/limits_cache.rs`, `src/refresh.rs`: QOS definitions as the
  accounting database stores them, the caches of definitions and of consumed
  wall-clock time, and when these are refreshed.
- `src/names.rs`, `src/text.rs`: sets and maps of names, and text primitives.

Each function states in its contract what it returns. The public proof functions
state what holds across functions: that applying a mesh is additive and
idempotent in its peers and routes, that reconciling converges, that a stored
value that cannot be used is just unset, that a failed refresh never loses data,
and so on.

Two facts about the standard library are taken on trust: which characters
`char::is_whitespace` accepts, and that `Arc::clone` hands out the same value.

`app/` is ordinary Rust around the library: it talks to WireGuard and its config
files, reads the clock, holds the locks and runs the refresh loops.
