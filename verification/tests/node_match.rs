use spur::node_match::{
    expand_hostlist_or_split, Candidate, Hostlist, Job, JobSpec, Node, NodePlacement, Reservation,
};

/// What a node does in the managed k0s cluster.
#[derive(Clone, Copy, Debug)]
enum K0sRole {
    Controller,
    Worker,
    Single,
}

fn is_k0s_reserved(role: Option<K0sRole>) -> bool {
    matches!(
        role,
        Some(K0sRole::Controller) | Some(K0sRole::Worker) | Some(K0sRole::Single)
    )
}

enum NodeState {
    Idle,
    Allocated,
    Down,
}

fn set_state(n: &mut Node, state: NodeState) {
    n.schedulable = matches!(state, NodeState::Idle);
    n.up = matches!(state, NodeState::Idle | NodeState::Allocated);
}

fn node(name: &str) -> Node {
    let mut n = Node {
        name: name.into(),
        partitions: vec!["default".into()],
        features: Vec::new(),
        k0s_reserved: false,
        schedulable: false,
        up: false,
        alloc_cpus: 0,
        alloc_devices: false,
    };
    set_state(&mut n, NodeState::Idle);
    n
}

fn job_with(spec: JobSpec) -> Job {
    Job {
        spec,
        preferred_nodes: Vec::new(),
    }
}

fn base_spec() -> JobSpec {
    JobSpec {
        nodelist: None,
        exclude: None,
        constraint: None,
        partition: Some("default".into()),
        num_nodes: 1,
        exclusive: false,
        reservation: None,
    }
}

fn names(list: &[&str]) -> Vec<String> {
    list.iter().map(|s| s.to_string()).collect()
}

/// A list whose brackets expand to `expansion`.
fn hosts(pattern: &str, expansion: &[&str]) -> Option<Hostlist> {
    Some(Hostlist {
        pattern: pattern.to_string(),
        expansion: Some(names(expansion)),
    })
}

/// A list that does not expand.
fn malformed(pattern: &str) -> Option<Hostlist> {
    Some(Hostlist {
        pattern: pattern.to_string(),
        expansion: None,
    })
}

/// A reservation of nodes for users, in force from `start` to `end`.
struct Reserved {
    name: &'static str,
    start: i64,
    end: i64,
    nodes: Vec<&'static str>,
    users: Vec<&'static str>,
}

fn seen(res: &Reserved, node: &Node, user: &str, now: i64) -> Vec<Reservation> {
    vec![Reservation {
        name: res.name.to_string(),
        active: res.start <= now && now < res.end,
        covers_node: res.nodes.iter().any(|n| *n == node.name),
        allows_user: res.users.contains(&user),
    }]
}

#[test]
fn k0s_reserved_node_is_not_a_scheduling_match() {
    let job = job_with(base_spec());
    let p = NodePlacement::new(&job);

    let mut n = node("n1");
    assert!(p.matches(&n, &[]), "idle node should match");

    n.k0s_reserved = is_k0s_reserved(Some(K0sRole::Worker));
    assert!(!p.matches(&n, &[]), "k0s worker must not match");
    // Placement identity is unchanged; only the runtime gate rejects it.
    assert!(p.eligible(&n, &[]));
    assert!(p.matches_ignoring_k0s(&n, &[]));

    n.k0s_reserved = is_k0s_reserved(None);
    assert!(p.matches(&n, &[]), "cleared role reverts to schedulable");
}

#[test]
fn k0s_controller_and_single_are_also_excluded() {
    let job = job_with(base_spec());
    let p = NodePlacement::new(&job);
    for role in [K0sRole::Controller, K0sRole::Single] {
        let mut n = node("n1");
        n.k0s_reserved = is_k0s_reserved(Some(role));
        assert!(!p.matches(&n, &[]), "{role:?} must be excluded");
    }
}

#[test]
fn matches_for_reservation_admits_a_fully_busy_but_healthy_node() {
    let job = job_with(base_spec());
    let p = NodePlacement::new(&job);

    let mut n = node("n1");
    set_state(&mut n, NodeState::Allocated);
    n.alloc_cpus = 64;

    assert!(!p.matches(&n, &[]), "matches() still excludes it");
    assert!(
        p.matches_for_reservation(&n, &[]),
        "a fully-busy Allocated node is still a valid future-reservation candidate"
    );
}

#[test]
fn matches_for_reservation_still_excludes_down_and_k0s_nodes() {
    let job = job_with(base_spec());
    let p = NodePlacement::new(&job);

    let mut down = node("n1");
    set_state(&mut down, NodeState::Down);
    assert!(!p.matches_for_reservation(&down, &[]));

    let mut k0s = node("n2");
    k0s.k0s_reserved = is_k0s_reserved(Some(K0sRole::Worker));
    assert!(!p.matches_for_reservation(&k0s, &[]));
}

#[test]
fn malformed_hostlist_falls_back_to_comma_split() {
    // Reversed range is invalid; fallback returns the literal as one token.
    assert_eq!(
        expand_hostlist_or_split("node[003-001]", None),
        vec!["node[003-001]"]
    );
    // Plain comma list is not a hostlist pattern; fallback splits it.
    assert_eq!(expand_hostlist_or_split("a,b,c", None), vec!["a", "b", "c"]);
    // Pieces are trimmed.
    assert_eq!(expand_hostlist_or_split(" a ,\u{a0}, b", None), vec!["a", "b"]);
}

#[test]
fn empty_hostlist_entries_are_ignored() {
    assert_eq!(
        expand_hostlist_or_split("node001,,node002,", None),
        vec!["node001", "node002"]
    );
    assert_eq!(
        expand_hostlist_or_split(
            "node001,,node002,",
            Some(names(&["node001", "", "node002", ""]))
        ),
        vec!["node001", "node002"]
    );

    let job = job_with(JobSpec {
        nodelist: hosts("node001,", &["node001", ""]),
        num_nodes: 2,
        ..base_spec()
    });
    assert!(NodePlacement::new(&job).nodelist_is_additive());
}

#[test]
fn nodelist_expands_brackets() {
    let job = job_with(JobSpec {
        nodelist: hosts("node[001-003]", &["node001", "node002", "node003"]),
        ..base_spec()
    });
    let p = NodePlacement::new(&job);
    assert!(p.allows_name("node001"));
    assert!(p.allows_name("node003"));
    assert!(!p.allows_name("node004"));
}

#[test]
fn nodelist_counts_each_name_once() {
    let job = job_with(JobSpec {
        nodelist: malformed("node001,node001,node002"),
        num_nodes: 3,
        ..base_spec()
    });
    let p = NodePlacement::new(&job);
    assert!(p.nodelist_is_additive(), "two names for three nodes");

    let job = job_with(JobSpec {
        nodelist: malformed("node001,node001,node002"),
        num_nodes: 2,
        ..base_spec()
    });
    assert!(!NodePlacement::new(&job).nodelist_is_additive());
}

#[test]
fn list_of_nothing_is_additive_and_an_empty_list_is_none() {
    // A pattern without a single name still counts as a list.
    let job = job_with(JobSpec {
        nodelist: malformed(","),
        num_nodes: 0,
        ..base_spec()
    });
    let p = NodePlacement::new(&job);
    assert!(p.nodelist_is_additive());
    assert!(p.allows_name("node001"));

    let mut job = job_with(JobSpec {
        nodelist: malformed(""),
        ..base_spec()
    });
    job.preferred_nodes = names(&["node002"]);
    let p = NodePlacement::new(&job);
    assert!(!p.allows_name("node001"), "the credited nodes stand in");
    assert!(p.is_listed("node002"));
}

#[test]
fn preferred_nodes_restricts_when_it_fully_covers_num_nodes() {
    let mut job = job_with(JobSpec {
        num_nodes: 1,
        ..base_spec()
    });
    job.preferred_nodes = names(&["node001", "node002"]);
    let p = NodePlacement::new(&job);
    assert!(!p.nodelist_is_additive());
    assert!(p.allows_name("node001"));
    assert!(p.allows_name("node002"));
    assert!(!p.allows_name("node003"));
}

#[test]
fn preferred_nodes_is_additive_when_it_falls_short_of_num_nodes() {
    let mut job = job_with(JobSpec {
        num_nodes: 3,
        ..base_spec()
    });
    job.preferred_nodes = names(&["node001"]);
    let p = NodePlacement::new(&job);
    assert!(p.nodelist_is_additive());
    assert!(p.allows_name("node001"));
    assert!(
        p.allows_name("node002"),
        "additive: nodes outside the credited set are still allowed"
    );
    assert!(p.is_listed("node001"));
    assert!(!p.is_listed("node002"));
}

#[test]
fn explicit_nodelist_takes_priority_over_preferred_nodes() {
    let mut job = job_with(JobSpec {
        nodelist: hosts("node001", &["node001"]),
        num_nodes: 1,
        ..base_spec()
    });
    job.preferred_nodes = names(&["node002"]);
    let p = NodePlacement::new(&job);
    assert!(p.allows_name("node001"), "user's own nodelist must win");
    assert!(
        !p.allows_name("node002"),
        "preferred_nodes must not override an explicit nodelist"
    );
}

#[test]
fn new_ignoring_preferred_nodes_never_falls_back_to_the_field() {
    // Admission calls this while it is still incrementally computing
    // job.preferred_nodes across two independent gates (account, then
    // QOS) for the same job. If the second gate's own placement view
    // fell back to a value the first gate already wrote, that credit
    // would leak in as a spurious restriction on the second gate's own,
    // independent reuse computation.
    let mut job = job_with(JobSpec {
        num_nodes: 1,
        ..base_spec()
    });
    job.preferred_nodes = names(&["node001"]);
    let p = NodePlacement::new_ignoring_preferred_nodes(&job);
    assert!(
        !p.nodelist_is_additive(),
        "no nodelist at all means additive() must report false (no restriction), \
         just like a job with no --nodelist and no preferred_nodes"
    );
    assert!(
        p.allows_name("node001"),
        "not restricted to the credited set"
    );
    assert!(
        p.allows_name("node999"),
        "preferred_nodes must be completely ignored: any node is allowed"
    );
}

#[test]
fn new_ignoring_preferred_nodes_still_honors_an_explicit_nodelist() {
    let mut job = job_with(JobSpec {
        nodelist: hosts("node001", &["node001"]),
        num_nodes: 1,
        ..base_spec()
    });
    job.preferred_nodes = names(&["node002"]);
    let p = NodePlacement::new_ignoring_preferred_nodes(&job);
    assert!(
        p.allows_name("node001"),
        "the user's own nodelist still applies"
    );
    assert!(!p.allows_name("node002"));
    assert!(!p.allows_name("node003"));
}

#[test]
fn exclude_expands_brackets() {
    let job = job_with(JobSpec {
        exclude: hosts("node[001-002]", &["node001", "node002"]),
        ..base_spec()
    });
    let p = NodePlacement::new(&job);
    assert!(!p.allows_name("node001"));
    assert!(!p.allows_name("node002"));
    assert!(p.allows_name("node003"));
}

#[test]
fn exclude_wins_over_the_nodelist() {
    let job = job_with(JobSpec {
        nodelist: malformed("node001,node002"),
        exclude: malformed("node002"),
        ..base_spec()
    });
    let p = NodePlacement::new(&job);
    assert!(p.allows_name("node001"));
    assert!(p.is_listed("node002"));
    assert!(!p.allows_name("node002"));
}

#[test]
fn matches_respects_nodelist() {
    let job = job_with(JobSpec {
        nodelist: hosts("node001", &["node001"]),
        ..base_spec()
    });
    let p = NodePlacement::new(&job);
    assert!(p.matches(&node("node001"), &[]));
    assert!(!p.matches(&node("node002"), &[]));
}

#[test]
fn matches_requires_all_features() {
    let job = job_with(JobSpec {
        constraint: Some("mi300x,nvlink".into()),
        ..base_spec()
    });
    let p = NodePlacement::new(&job);

    let mut both = node("n1");
    both.features = vec!["mi300x".into(), "nvlink".into()];
    assert!(p.matches(&both, &[]));

    let mut one = node("n2");
    one.features = vec!["mi300x".into()];
    assert!(!p.matches(&one, &[]));
}

#[test]
fn blank_features_ask_for_nothing() {
    let job = job_with(JobSpec {
        constraint: Some(" ,,".into()),
        ..base_spec()
    });
    assert!(NodePlacement::new(&job).has_features(&node("n1")));
}

#[test]
fn partitions_are_alternatives() {
    let job = job_with(JobSpec {
        partition: Some("gpu, default".into()),
        ..base_spec()
    });
    let p = NodePlacement::new(&job);
    assert!(p.in_partition(&node("n1")));
    let mut other = node("n2");
    other.partitions = vec!["debug".into()];
    assert!(!p.in_partition(&other));

    let job = job_with(JobSpec {
        partition: None,
        ..base_spec()
    });
    assert!(NodePlacement::new(&job).in_partition(&other));

    // An empty string is a request for a partition without a name.
    let job = job_with(JobSpec {
        partition: Some(String::new()),
        ..base_spec()
    });
    assert!(!NodePlacement::new(&job).in_partition(&other));
}

#[test]
fn matches_blocks_reserved_node_for_unreserved_job() {
    let job = job_with(base_spec());
    let p = NodePlacement::new(&job);
    let now = 1_000_000;
    let res = Reserved {
        name: "r1",
        start: now - 3600,
        end: now + 3600,
        nodes: vec!["node001"],
        users: vec!["alice"],
    };
    let n1 = node("node001");
    let n2 = node("node002");
    assert!(!p.matches(&n1, &seen(&res, &n1, "test", now)));
    assert!(p.matches(&n2, &seen(&res, &n2, "test", now)));
    // Once it is over it holds nothing.
    assert!(p.matches(&n1, &seen(&res, &n1, "test", now + 3600)));
}

#[test]
fn reservation_confines_its_jobs_to_its_nodes_and_users() {
    let now = 1_000_000;
    let res = Reserved {
        name: "r1",
        start: now - 3600,
        end: now + 3600,
        nodes: vec!["node001"],
        users: vec!["alice"],
    };
    let n1 = node("node001");
    let n2 = node("node002");
    let job = job_with(JobSpec {
        reservation: Some("r1".into()),
        ..base_spec()
    });
    let p = NodePlacement::new(&job);
    assert!(p.matches(&n1, &seen(&res, &n1, "alice", now)));
    assert!(!p.matches(&n1, &seen(&res, &n1, "bob", now)));
    assert!(!p.matches(&n2, &seen(&res, &n2, "alice", now)));
    assert!(!p.matches(&n1, &seen(&res, &n1, "alice", now + 3600)));
    assert!(!p.matches(&n1, &[]));

    let job = job_with(JobSpec {
        reservation: Some("r2".into()),
        ..base_spec()
    });
    assert!(!NodePlacement::new(&job).matches(&n1, &seen(&res, &n1, "alice", now)));

    // An empty name is no reservation.
    let job = job_with(JobSpec {
        reservation: Some(String::new()),
        ..base_spec()
    });
    assert!(NodePlacement::new(&job).matches(&n1, &[]));
}

#[test]
fn exclusive_jobs_need_an_idle_node() {
    let job = job_with(JobSpec {
        exclusive: true,
        ..base_spec()
    });
    let p = NodePlacement::new(&job);
    let mut n = node("n1");
    assert!(p.matches(&n, &[]));
    n.alloc_cpus = 1;
    assert!(!p.matches(&n, &[]));
    n.alloc_cpus = 0;
    n.alloc_devices = true;
    assert!(!p.matches(&n, &[]));
    assert!(p.matches_for_reservation(&n, &[]), "it will be idle later");

    let shared = job_with(base_spec());
    assert!(NodePlacement::new(&shared).matches(&n, &[]));
}

#[test]
fn additive_list_needs_all_its_nodes() {
    let job = job_with(JobSpec {
        nodelist: malformed("node001"),
        num_nodes: 2,
        ..base_spec()
    });
    let p = NodePlacement::new(&job);
    let candidate = |node: Node, can_satisfy: bool| Candidate {
        node,
        reservations: Vec::new(),
        can_satisfy,
    };
    let mut down = node("node001");
    set_state(&mut down, NodeState::Down);

    assert!(!p.additive_listed_node_unavailable(&[]));
    assert!(!p.additive_listed_node_unavailable(&[candidate(node("node001"), true)]));
    let nodes = [candidate(node("node002"), true), candidate(down.clone(), true)];
    assert!(p.additive_listed_node_unavailable(&nodes));
    // A node that could never serve the job is not what it is waiting for.
    assert!(!p.additive_listed_node_unavailable(&[candidate(down.clone(), false)]));
    // Nor is one outside of the list.
    let mut other = node("node002");
    set_state(&mut other, NodeState::Down);
    assert!(!p.additive_listed_node_unavailable(&[candidate(other, true)]));

    let pool = job_with(JobSpec {
        nodelist: malformed("node001"),
        num_nodes: 1,
        ..base_spec()
    });
    let p = NodePlacement::new(&pool);
    assert!(!p.additive_listed_node_unavailable(&[candidate(down, true)]));
}
