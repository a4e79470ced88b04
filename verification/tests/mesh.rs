use spur::cidr::{parse_byte, parses_as_ipv4, validate_cidr, CidrError};
use spur::mesh::{
    mesh_peers_for, mesh_pod_routes, peer_allowed_ips, peers_to_prune, MeshMembership, MeshNode,
    WgPeer,
};
use spur::mesh_run::{
    apply_mesh, apply_mesh_durable, persist_mesh_peers, reconcile_mesh, MeshAction, MeshEvent,
    MeshRun,
};

fn node(ip: &str, pod: Option<&str>) -> MeshNode {
    MeshNode {
        hostname: format!("n{ip}"),
        public_key: format!("pk-{ip}"),
        mesh_ip: ip.to_string(),
        endpoint: format!("{ip}:51820"),
        pod_cidr: pod.map(|s| s.to_string()),
    }
}

/// A WireGuard config file that lives in memory.
#[derive(Clone, Debug, PartialEq)]
struct WgConfig {
    private_key: String,
    address: String,
    listen_port: Option<u16>,
    peers: Vec<WgPeer>,
}

impl WgConfig {
    fn upsert_peer(&mut self, peer: WgPeer) {
        match self.peers.iter_mut().find(|p| p.public_key == peer.public_key) {
            Some(known) => *known = peer,
            None => self.peers.push(peer),
        }
    }
}

/// An interface and its config file, as a run sees them.
#[derive(Default)]
struct World {
    live: Vec<WgPeer>,
    routes: Vec<String>,
    file: Option<WgConfig>,
    read: Option<WgConfig>,
    log: Vec<String>,
    fail_at: Option<String>,
}

impl World {
    fn keys(&self) -> Vec<String> {
        self.live.iter().map(|p| p.public_key.clone()).collect()
    }

    fn perform(&mut self, action: &MeshAction) -> MeshEvent<String> {
        let entry = match action {
            MeshAction::RemovePeer { interface, public_key } => {
                format!("remove {interface} {public_key}")
            }
            MeshAction::AddPeer { interface, peer } => {
                format!("add {interface} {}", peer.public_key)
            }
            MeshAction::AddRoute { interface, cidr } => format!("route {interface} {cidr}"),
            MeshAction::FindConfig => "find".to_string(),
            MeshAction::ReadConfig => "read".to_string(),
            MeshAction::UpsertPeer { peer } => format!("upsert {}", peer.public_key),
            MeshAction::WriteConfig => "write".to_string(),
        };
        if self.fail_at.as_ref() == Some(&entry) {
            return MeshEvent::Failed(format!("cannot {entry}"));
        }
        self.log.push(entry);
        match action {
            MeshAction::RemovePeer { public_key, .. } => {
                self.live.retain(|p| p.public_key != *public_key)
            }
            MeshAction::AddPeer { peer, .. } => {
                self.live.retain(|p| p.public_key != peer.public_key);
                self.live.push(peer.clone());
            }
            MeshAction::AddRoute { cidr, .. } => {
                if !self.routes.contains(cidr) {
                    self.routes.push(cidr.clone());
                }
            }
            MeshAction::FindConfig => {
                if self.file.is_none() {
                    return MeshEvent::ConfigMissing;
                }
            }
            MeshAction::ReadConfig => self.read = self.file.clone(),
            MeshAction::UpsertPeer { peer } => {
                self.read.as_mut().expect("read before").upsert_peer(peer.clone())
            }
            MeshAction::WriteConfig => self.file = self.read.take(),
        }
        MeshEvent::Done
    }

    fn drive(&mut self, mut run: MeshRun<String>) -> Result<(usize, usize), String> {
        loop {
            let event = match run.next() {
                Some(action) => self.perform(action),
                None => break,
            };
            run.step(event);
        }
        run.outcome().expect("a run without a next action is over")
    }
}

#[test]
fn allowed_ips_with_and_without_pod_cidr() {
    assert_eq!(
        peer_allowed_ips(&node("10.44.0.2", Some("10.42.1.0/24"))),
        "10.44.0.2/32,10.42.1.0/24"
    );
    assert_eq!(peer_allowed_ips(&node("10.44.0.2", None)), "10.44.0.2/32");
    // whitespace-only pod cidr is treated as absent
    assert_eq!(
        peer_allowed_ips(&node("10.44.0.2", Some("  "))),
        "10.44.0.2/32"
    );
}

#[test]
fn allowed_ips_trim_the_pod_cidr_but_not_the_address() {
    assert_eq!(
        peer_allowed_ips(&node(" 10.44.0.2", Some(" 10.42.1.0/24\n"))),
        " 10.44.0.2/32,10.42.1.0/24"
    );
    // Unicode white space counts as white space.
    assert_eq!(
        peer_allowed_ips(&node("10.44.0.2", Some("\u{3000}\u{a0}"))),
        "10.44.0.2/32"
    );
    assert_eq!(
        peer_allowed_ips(&node("10.44.0.2", Some("\u{2003}10.42.1.0/24\u{85}"))),
        "10.44.0.2/32,10.42.1.0/24"
    );
    // A zero-width space does not.
    assert_eq!(
        peer_allowed_ips(&node("10.44.0.2", Some("\u{200b}"))),
        "10.44.0.2/32,\u{200b}"
    );
}

#[test]
fn mesh_peers_exclude_self_and_carry_pod_cidr() {
    let members = vec![
        node("10.44.0.1", None),                 // controller, no pods
        node("10.44.0.2", Some("10.42.1.0/24")), // self
        node("10.44.0.3", Some("10.42.2.0/24")),
        node("10.44.0.4", Some("10.42.3.0/24")),
    ];
    let peers = mesh_peers_for("10.44.0.2", &members);
    assert_eq!(peers.len(), 3, "self excluded");
    assert!(peers.iter().all(|p| p.public_key != "pk-10.44.0.2"));
    let p3 = peers
        .iter()
        .find(|p| p.public_key == "pk-10.44.0.3")
        .unwrap();
    assert_eq!(p3.allowed_ips, "10.44.0.3/32,10.42.2.0/24");
    assert_eq!(p3.endpoint.as_deref(), Some("10.44.0.3:51820"));
    assert_eq!(p3.persistent_keepalive, Some(25));
    let p1 = peers
        .iter()
        .find(|p| p.public_key == "pk-10.44.0.1")
        .unwrap();
    assert_eq!(p1.allowed_ips, "10.44.0.1/32", "hub with no pod cidr");
}

#[test]
fn blank_endpoint_leaves_the_tunnel_alone() {
    let mut silent = node("10.44.0.3", None);
    silent.endpoint = " \t".to_string();
    let mut padded = node("10.44.0.4", None);
    padded.endpoint = " 1.2.3.4:5 ".to_string();
    let peers = mesh_peers_for("10.44.0.2", &[silent, padded]);
    assert_eq!(peers[0].endpoint, None);
    // One that is not blank is handed on as it is.
    assert_eq!(peers[1].endpoint.as_deref(), Some(" 1.2.3.4:5 "));
}

#[test]
fn pod_routes_skip_self_and_empty() {
    let members = vec![
        node("10.44.0.1", None),
        node("10.44.0.2", Some("10.42.1.0/24")), // self, must be skipped
        node("10.44.0.3", Some("10.42.2.0/24")),
        node("10.44.0.4", Some("")), // empty pod cidr skipped
    ];
    let routes = mesh_pod_routes("10.44.0.2", &members);
    assert_eq!(routes, vec!["10.42.2.0/24"]);
}

#[test]
fn routes_are_the_pod_cidrs_in_allowed_ips() {
    let members = vec![
        node("10.44.0.1", Some(" 10.42.1.0/24 ")),
        node("10.44.0.2", Some("  ")),
        node("10.44.0.3", Some("10.42.3.0/24")),
    ];
    let routes = mesh_pod_routes("10.44.0.9", &members);
    assert_eq!(routes, vec!["10.42.1.0/24", "10.42.3.0/24"]);
    let peers = mesh_peers_for("10.44.0.9", &members);
    let carried: Vec<&str> = peers
        .iter()
        .filter_map(|p| p.allowed_ips.split_once(',').map(|(_, pod)| pod))
        .collect();
    assert_eq!(carried, routes);
}

#[test]
fn validate_cidr_accepts_and_rejects() {
    assert!(validate_cidr("10.42.1.0/24").is_ok());
    assert!(validate_cidr("10.44.0.2/32").is_ok());
    assert!(validate_cidr("10.42.1.0").is_err()); // missing /prefix
    assert!(validate_cidr("10.42.1.0/33").is_err()); // prefix > 32
    assert!(validate_cidr("not-an-ip/24").is_err());
    assert!(validate_cidr("10.42.1.0/xx").is_err());
}

#[test]
fn validate_cidr_names_the_first_fault() {
    assert_eq!(validate_cidr("10.42.1.0"), Err(CidrError::MissingPrefix));
    assert_eq!(validate_cidr(""), Err(CidrError::MissingPrefix));
    assert_eq!(validate_cidr("not-an-ip/xx"), Err(CidrError::Address));
    assert_eq!(validate_cidr("/24"), Err(CidrError::Address));
    assert_eq!(validate_cidr("::1/24"), Err(CidrError::Address));
    assert_eq!(validate_cidr("10.42.1.0/xx"), Err(CidrError::Prefix));
    assert_eq!(validate_cidr("10.42.1.0/"), Err(CidrError::Prefix));
    assert_eq!(validate_cidr("10.42.1.0/24/8"), Err(CidrError::Prefix));
    assert_eq!(validate_cidr("10.42.1.0/256"), Err(CidrError::Prefix));
    assert_eq!(validate_cidr("10.42.1.0/-1"), Err(CidrError::Prefix));
    assert_eq!(validate_cidr("10.42.1.0/33"), Err(CidrError::PrefixTooLong));
    assert_eq!(validate_cidr("10.42.1.0/255"), Err(CidrError::PrefixTooLong));
    assert_eq!(validate_cidr("0.0.0.0/0"), Ok(()));
    // As numbers are read: a plus sign and leading zeros are fine in the prefix.
    assert_eq!(validate_cidr("10.42.1.0/+24"), Ok(()));
    assert_eq!(validate_cidr("10.42.1.0/0000024"), Ok(()));
    assert_eq!(validate_cidr("10.42.1.0/ 24"), Err(CidrError::Prefix));
}

#[test]
fn cidr_errors_quote_the_input() {
    let text = "bad/cidr";
    assert_eq!(
        CidrError::MissingPrefix.message("10.42.1.0"),
        "invalid CIDR (missing /prefix): 10.42.1.0"
    );
    assert_eq!(CidrError::Address.message(text), "invalid CIDR address: bad/cidr");
    assert_eq!(CidrError::Prefix.message(text), "invalid CIDR prefix: bad/cidr");
    assert_eq!(
        CidrError::PrefixTooLong.message("1.2.3.4/33"),
        "invalid CIDR prefix (>32): 1.2.3.4/33"
    );
}

#[test]
fn addresses_are_four_plain_octets() {
    for a in ["0.0.0.0", "255.255.255.255", "10.44.0.2", "1.2.3.99"] {
        assert!(parses_as_ipv4(a), "{a:?}");
    }
    let malformed = [
        "256.1.1.1", "1.2.3", "1.2.3.4.5", "1..2.3", "01.2.3.4", "1.2.3.04", "00.0.0.0", "+1.2.3.4",
        " 1.2.3.4", "1.2.3.4 ", "1.2.3.", ".1.2.3", "", "a.b.c.d", "1.2.3.0000", "1.2.3.1000",
        "1.2.3.\u{661}",
    ];
    for a in malformed {
        assert!(!parses_as_ipv4(a), "{a:?}");
    }
}

#[test]
fn bytes_are_read_as_std_reads_them() {
    let bytes = [
        "0", "255", "256", "+24", "-0", "", "+", "-", "000255", "0000256", "2a", " 2", "99999999999999999999",
    ];
    for b in bytes {
        assert_eq!(parse_byte(b), b.parse::<u8>().ok().map(u32::from), "{b:?}");
    }
}

#[test]
fn mesh_peers_trims_self_ip() {
    let members = vec![
        node("10.44.0.2", Some("10.42.1.0/24")),
        node("10.44.0.3", None),
    ];
    // trailing space on self must still exclude the matching member
    let peers = mesh_peers_for("10.44.0.2 ", &members);
    assert_eq!(peers.len(), 1);
    assert_eq!(peers[0].public_key, "pk-10.44.0.3");
}

#[test]
fn every_member_peers_every_other() {
    let members = vec![
        node("10.44.0.1", None),
        node("10.44.0.2", Some("10.42.1.0/24")),
        node("10.44.0.3", None),
    ];
    for a in &members {
        let peers = mesh_peers_for(&a.mesh_ip, &members);
        for b in &members {
            let peered = peers.iter().any(|p| p.public_key == b.public_key);
            assert_eq!(peered, a.mesh_ip != b.mesh_ip);
        }
    }
}

#[test]
fn membership_starts_empty() {
    assert_eq!(MeshMembership::default(), MeshMembership { nodes: Vec::new() });
    assert_eq!(mesh_peers_for("10.44.0.1", &MeshMembership::default().nodes).len(), 0);
}

#[test]
fn peers_to_prune_removes_departed_and_self_keeps_members() {
    let members = vec![
        node("10.44.0.1", None),                 // controller
        node("10.44.0.2", Some("10.42.1.0/24")), // self
        node("10.44.0.3", Some("10.42.2.0/24")),
    ];
    // Live peers on the interface: two current members, a departed node, and self's own key.
    let current = vec![
        "pk-10.44.0.1".to_string(),
        "pk-10.44.0.3".to_string(),
        "pk-10.44.0.4".to_string(), // departed -> prune
        "pk-10.44.0.2".to_string(), // self (never a desired peer) -> prune
    ];
    let prune = peers_to_prune(&current, "10.44.0.2", &members, &[]);
    assert_eq!(prune.len(), 2);
    assert!(prune.contains(&"pk-10.44.0.4"));
    assert!(prune.contains(&"pk-10.44.0.2"));
    assert!(!prune.contains(&"pk-10.44.0.1"));
    assert!(!prune.contains(&"pk-10.44.0.3"));
}

/// A peer absent from `members` is normally pruned (previous test) — but not if it's in
/// `protected`: it is in the node's persisted config, for something outside this membership
/// (e.g. a non-k0s node), so this reconcile pass was never responsible for it.
#[test]
fn peers_to_prune_exempts_protected_peers() {
    let members = vec![node("10.44.0.1", None), node("10.44.0.2", None)];
    let current = vec![
        "pk-10.44.0.1".to_string(),
        "pk-persisted".to_string(), // not in members, but protected -> must survive
        "pk-truly-departed".to_string(), // not in members, not protected -> pruned
    ];
    let protected = vec!["pk-persisted".to_string()];
    let prune = peers_to_prune(&current, "10.44.0.2", &members, &protected);
    assert_eq!(prune, vec!["pk-truly-departed"]);
}

#[test]
fn persist_mesh_peers_skips_a_missing_config_so_the_live_apply_still_runs() {
    let mut world = World::default(); // no config file
    let members = vec![node("10.44.0.1", None), node("10.44.0.2", None)];
    world
        .drive(persist_mesh_peers(&mesh_peers_for("10.44.0.2", &members)))
        .unwrap();
    assert!(world.file.is_none(), "must not fabricate a config file");
    assert_eq!(world.log, vec!["find"]);

    let done = world.drive(apply_mesh_durable("spur0", "10.44.0.2", &members, false));
    assert_eq!(done, Ok((1, 0)));
    assert!(world.file.is_none());
    assert_eq!(world.keys(), vec!["pk-10.44.0.1"]);
}

#[test]
fn persist_mesh_peers_writes_every_peer_and_keeps_unrelated_ones() {
    let mut world = World {
        file: Some(WgConfig {
            private_key: "key=".into(),
            address: "10.44.0.2/16".into(),
            listen_port: Some(51820),
            peers: vec![WgPeer {
                public_key: "pk-departed".into(),
                allowed_ips: "10.44.0.9/32".into(),
                endpoint: None,
                persistent_keepalive: None,
            }],
        }),
        ..Default::default()
    };

    let members = vec![
        node("10.44.0.1", None),
        node("10.44.0.2", None), // self
        node("10.44.0.3", Some("10.42.2.0/24")),
    ];
    world
        .drive(persist_mesh_peers(&mesh_peers_for("10.44.0.2", &members)))
        .unwrap();

    let persisted = world.file.clone().unwrap();
    assert!(
        persisted
            .peers
            .iter()
            .any(|p| p.public_key == "pk-10.44.0.3"),
        "mesh peer must be persisted"
    );
    assert!(
        persisted
            .peers
            .iter()
            .any(|p| p.public_key == "pk-departed"),
        "apply_mesh_durable is additive; a pre-existing unrelated peer must survive"
    );
    assert_eq!(persisted.peers.len(), 3);
    assert_eq!(persisted.private_key, "key=");
    assert_eq!(
        world.log,
        vec!["find", "read", "upsert pk-10.44.0.1", "upsert pk-10.44.0.3", "write"]
    );
    assert!(world.live.is_empty());
}

#[test]
fn apply_adds_peers_and_installs_routes_on_request() {
    let members = vec![
        node("10.44.0.1", Some("10.42.0.0/24")),
        node("10.44.0.2", Some("10.42.1.0/24")),
        node("10.44.0.3", None),
    ];
    let mut without = World::default();
    let done = without.drive(apply_mesh("spur0", "10.44.0.2", &members, false));
    assert_eq!(done, Ok((2, 0)));
    assert_eq!(without.log, vec!["add spur0 pk-10.44.0.1", "add spur0 pk-10.44.0.3"]);

    let mut with = World::default();
    let done = with.drive(apply_mesh("spur0", "10.44.0.2", &members, true));
    assert_eq!(done, Ok((2, 0)));
    assert_eq!(
        with.log,
        vec![
            "add spur0 pk-10.44.0.1",
            "add spur0 pk-10.44.0.3",
            "route spur0 10.42.0.0/24",
        ]
    );
    assert_eq!(with.routes, vec!["10.42.0.0/24"]);
}

#[test]
fn apply_is_additive_and_idempotent() {
    let members = vec![node("10.44.0.1", None), node("10.44.0.2", None)];
    let stray = WgPeer {
        public_key: "pk-stray".into(),
        allowed_ips: "10.44.0.9/32".into(),
        endpoint: None,
        persistent_keepalive: None,
    };
    let mut world = World { live: vec![stray], ..Default::default() };
    world.drive(apply_mesh("spur0", "10.44.0.2", &members, false)).unwrap();
    let once = world.live.clone();
    assert_eq!(world.keys(), vec!["pk-stray", "pk-10.44.0.1"]);
    world.drive(apply_mesh("spur0", "10.44.0.2", &members, false)).unwrap();
    assert_eq!(world.live, once);
}

#[test]
fn durable_apply_persists_before_it_goes_live() {
    let mut world = World {
        file: Some(WgConfig {
            private_key: "key=".into(),
            address: "10.44.0.2/16".into(),
            listen_port: None,
            peers: Vec::new(),
        }),
        ..Default::default()
    };
    let members = vec![node("10.44.0.1", Some("10.42.0.0/24")), node("10.44.0.2", None)];
    let done = world.drive(apply_mesh_durable("spur0", "10.44.0.2", &members, true));
    assert_eq!(done, Ok((1, 0)));
    assert_eq!(
        world.log,
        vec![
            "find",
            "read",
            "upsert pk-10.44.0.1",
            "write",
            "add spur0 pk-10.44.0.1",
            "route spur0 10.42.0.0/24",
        ]
    );
    assert_eq!(world.file.unwrap().peers, world.live);
}

#[test]
fn first_failure_ends_a_run() {
    let members = vec![
        node("10.44.0.1", None),
        node("10.44.0.2", None),
        node("10.44.0.3", None),
    ];
    let mut world = World {
        fail_at: Some("add spur0 pk-10.44.0.1".to_string()),
        ..Default::default()
    };
    let done = world.drive(apply_mesh("spur0", "10.44.0.2", &members, true));
    assert_eq!(done, Err("cannot add spur0 pk-10.44.0.1".to_string()));
    assert!(world.log.is_empty());
}

#[test]
fn reconcile_converges_and_stays() {
    let members = vec![
        node("10.44.0.1", None),
        node("10.44.0.2", None),
        node("10.44.0.3", None),
    ];
    let mut world = World::default();
    for key in ["pk-10.44.0.1", "pk-gone", "pk-kept"] {
        world.live.push(WgPeer {
            public_key: key.into(),
            allowed_ips: String::new(),
            endpoint: None,
            persistent_keepalive: None,
        });
    }
    let protected = vec!["pk-kept".to_string()];
    let current = world.keys();
    let done =
        world.drive(reconcile_mesh("spur0", "10.44.0.2", &members, &current, &protected, false));
    assert_eq!(done, Ok((2, 1)));
    assert_eq!(
        world.log,
        vec!["remove spur0 pk-gone", "add spur0 pk-10.44.0.1", "add spur0 pk-10.44.0.3"]
    );
    let mut keys = world.keys();
    keys.sort();
    assert_eq!(keys, vec!["pk-10.44.0.1", "pk-10.44.0.3", "pk-kept"]);

    let current = world.keys();
    let again =
        world.drive(reconcile_mesh("spur0", "10.44.0.2", &members, &current, &protected, false));
    assert_eq!(again, Ok((2, 0)));
    let mut same = world.keys();
    same.sort();
    assert_eq!(same, keys);
}

#[test]
fn unfinished_run_reports_nothing() {
    let members = vec![node("10.44.0.1", None)];
    let run: MeshRun<String> = apply_mesh("spur0", "10.44.0.2", &members, false);
    assert_eq!(run.outcome(), None);
    let empty: MeshRun<String> = apply_mesh("spur0", "10.44.0.1", &members, true);
    assert!(empty.next().is_none());
    assert_eq!(empty.outcome(), Some(Ok((0, 0))));
}

#[test]
fn routes_are_only_ever_added() {
    let members = vec![
        node("10.44.0.1", Some("10.42.0.0/24")),
        node("10.44.0.2", Some("10.42.1.0/24")),
        node("10.44.0.3", Some("10.42.2.0/24")),
    ];
    let mut world = World { routes: vec!["10.42.9.0/24".to_string()], ..Default::default() };
    let all = vec!["10.42.9.0/24", "10.42.0.0/24", "10.42.2.0/24"];
    world.drive(apply_mesh("spur0", "10.44.0.2", &members, true)).unwrap();
    assert_eq!(world.routes, all);
    world.drive(apply_mesh("spur0", "10.44.0.2", &members, true)).unwrap();
    assert_eq!(world.routes, all, "a second run leaves the routes as they are");

    // A member that left loses its peer, not its route.
    let current = world.keys();
    let fewer = &members[..2];
    let done = world.drive(reconcile_mesh("spur0", "10.44.0.2", fewer, &current, &[], true));
    assert_eq!(done, Ok((1, 1)));
    assert_eq!(world.keys(), vec!["pk-10.44.0.1"]);
    assert_eq!(world.routes, all);
}

#[test]
fn durable_apply_keeps_other_peers_on_both_sides() {
    let other = |key: &str| WgPeer {
        public_key: key.into(),
        allowed_ips: "10.44.0.9/32".into(),
        endpoint: Some("1.2.3.4:5".into()),
        persistent_keepalive: None,
    };
    let mut world = World {
        live: vec![other("pk-live")],
        file: Some(WgConfig {
            private_key: "key=".into(),
            address: "10.44.0.2/16".into(),
            listen_port: None,
            peers: vec![other("pk-stored"), other("pk-10.44.0.1")],
        }),
        ..Default::default()
    };
    let members = vec![node("10.44.0.1", Some("10.42.0.0/24")), node("10.44.0.2", None)];
    let done = world.drive(apply_mesh_durable("spur0", "10.44.0.2", &members, false));
    assert_eq!(done, Ok((1, 0)));
    let stored = world.file.unwrap().peers;
    assert_eq!(stored[0], other("pk-stored"));
    assert_eq!(world.live[0], other("pk-live"));
    assert_eq!(stored[1], world.live[1]);
    assert_eq!(stored[1].allowed_ips, "10.44.0.1/32,10.42.0.0/24");
}
