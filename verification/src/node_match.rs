//! Node placement: which nodes a job may be placed on.
//!
//! The scheduler and the classifier of pending reasons both ask here, so that
//! the two cannot drift apart. Capacity is not checked: callers apply their
//! own.
use crate::names::{contains_name, distinct_names, name_set};
use crate::text::{
    fields, lemma_filter_contains, lemma_filter_push, non_empty, opt_text, present, split_fields,
    split_non_empty_fields, str_eq, strings, texts, to_strings,
};
use vstd::prelude::*;

verus! {

/// A host list as a job gives it, such as `node[001-003]`, with the names that
/// its brackets expand to.
#[derive(Clone, Debug, PartialEq, Eq)]
pub struct Hostlist {
    /// The list as it was written.
    pub pattern: String,
    /// The names that the pattern stands for; `None` if it is malformed.
    pub expansion: Option<Vec<String>>,
}

/// What a job asks of its placement.
#[derive(Clone, Debug, PartialEq, Eq)]
pub struct JobSpec {
    /// `--nodelist`.
    pub nodelist: Option<Hostlist>,
    /// `--exclude`.
    pub exclude: Option<Hostlist>,
    /// `--constraint`: comma-separated features, all of them required.
    pub constraint: Option<String>,
    /// `--partition`: comma-separated partitions, any of them.
    pub partition: Option<String>,
    /// The number of nodes that the job runs on.
    pub num_nodes: u32,
    /// Whether the job must have its nodes to itself.
    pub exclusive: bool,
    /// The reservation in which the job runs.
    pub reservation: Option<String>,
}

/// A job, as far as its placement goes.
#[derive(Clone, Debug, PartialEq, Eq)]
pub struct Job {
    pub spec: JobSpec,
    /// The nodes whose reuse admission has already credited to the job; a set,
    /// in any order.
    pub preferred_nodes: Vec<String>,
}

/// A node, as far as placement goes.
#[derive(Clone, Debug, PartialEq, Eq)]
pub struct Node {
    pub name: String,
    pub partitions: Vec<String>,
    pub features: Vec<String>,
    /// The node is claimed by the managed k0s cluster.
    pub k0s_reserved: bool,
    /// The node takes new work now.
    pub schedulable: bool,
    /// The node is up, busy or not.
    pub up: bool,
    /// How many of the node's CPUs are allocated.
    pub alloc_cpus: u64,
    /// Some of the node's devices are allocated.
    pub alloc_devices: bool,
}

/// A reservation, as seen from one node, one job and one instant.
#[derive(Clone, Debug, PartialEq, Eq)]
pub struct Reservation {
    pub name: String,
    /// It is in force at the instant.
    pub active: bool,
    /// The node is one of its nodes.
    pub covers_node: bool,
    /// The job's user, or account, may use it.
    pub allows_user: bool,
}

/// A node that is considered for a job, with what is known of it there.
#[derive(Clone, Debug, PartialEq, Eq)]
pub struct Candidate {
    pub node: Node,
    /// The reservations, as seen from this node.
    pub reservations: Vec<Reservation>,
    /// The node's total resources can satisfy what the job requires.
    pub can_satisfy: bool,
}

/// The names in a host list: those of the expansion, or, for a malformed
/// pattern, its comma-separated pieces; empty ones left out.
pub open spec fn hostlist_names(pattern: Seq<char>, expansion: Option<Seq<Seq<char>>>) -> Seq<
    Seq<char>,
> {
    non_empty(
        match expansion {
            Some(names) => names,
            None => fields(pattern),
        },
    )
}

/// The contents of an optional list of names.
pub open spec fn opt_strings(names: Option<Vec<String>>) -> Option<Seq<Seq<char>>> {
    match names {
        Some(n) => Some(strings(n@)),
        None => None,
    }
}

/// The set of names that an optional host list gives; `None` if there is none
/// or its pattern is empty.
pub open spec fn listed(list: Option<Hostlist>) -> Option<Set<Seq<char>>> {
    match list {
        Some(l) => if l.pattern@.len() > 0 {
            Some(hostlist_names(l.pattern@, opt_strings(l.expansion)).to_set())
        } else {
            None
        },
        None => None,
    }
}

/// The placement constraints of a job.
#[verifier::ext_equal]
pub struct PlacementView {
    /// The nodes that the job lists, if it lists any.
    pub nodelist: Option<Set<Seq<char>>>,
    /// The nodes that the job rules out.
    pub exclude: Set<Seq<char>>,
    /// The features that a node must have.
    pub required_features: Seq<Seq<char>>,
    /// The partitions one of which a node must be in; none ask for nothing.
    pub partitions: Seq<Seq<char>>,
    pub num_nodes: nat,
    pub exclusive: bool,
    pub reservation: Option<Seq<char>>,
}

/// The placement constraints that a job has. Its credited nodes stand in for
/// the node list of a job that gives none, if they are to be used.
pub open spec fn placement_of(job: Job, use_preferred_nodes: bool) -> PlacementView {
    PlacementView {
        nodelist: match listed(job.spec.nodelist) {
            Some(names) => Some(names),
            None => if use_preferred_nodes && job.preferred_nodes@.len() > 0 {
                Some(name_set(job.preferred_nodes@))
            } else {
                None
            },
        },
        exclude: match listed(job.spec.exclude) {
            Some(names) => names,
            None => Set::empty(),
        },
        required_features: match job.spec.constraint {
            Some(c) => non_empty(fields(c@)),
            None => Seq::empty(),
        },
        partitions: match job.spec.partition {
            Some(p) => fields(p@),
            None => Seq::empty(),
        },
        num_nodes: job.spec.num_nodes as nat,
        exclusive: job.spec.exclusive,
        reservation: present(opt_text(job.spec.reservation)),
    }
}

impl PlacementView {
    /// Whether the listed nodes are fewer than the job needs, so that they are
    /// required in addition to others. Else they are the pool to choose from.
    pub open spec fn is_additive(self) -> bool {
        match self.nodelist {
            Some(list) => (if self.num_nodes > 1 {
                self.num_nodes
            } else {
                1
            }) > list.len(),
            None => false,
        }
    }

    pub open spec fn lists(self, name: Seq<char>) -> bool {
        match self.nodelist {
            Some(list) => list.contains(name),
            None => false,
        }
    }

    /// Whether the node list and the excluded nodes permit a name.
    pub open spec fn allows(self, name: Seq<char>) -> bool {
        &&& self.nodelist is Some ==> self.is_additive() || self.lists(name)
        &&& !self.exclude.contains(name)
    }

    pub open spec fn in_partition(self, node: Node) -> bool {
        self.partitions.len() == 0 || exists|p: Seq<char>| #[trigger]
            self.partitions.contains(p) && strings(node.partitions@).contains(p)
    }

    pub open spec fn has_features(self, node: Node) -> bool {
        forall|f: Seq<char>| #[trigger]
            self.required_features.contains(f) ==> strings(node.features@).contains(f)
    }

    /// A job in a reservation needs the node to be in it, now and for the
    /// job's user; a job without one may not use a reserved node.
    pub open spec fn reservation_ok(self, reservations: Seq<Reservation>) -> bool {
        match self.reservation {
            Some(name) => exists|i: int|
                0 <= i < reservations.len() && in_force(#[trigger] reservations[i])
                    && reservations[i].name@ == name && reservations[i].allows_user,
            None => forall|i: int|
                0 <= i < reservations.len() ==> !in_force(#[trigger] reservations[i]),
        }
    }

    /// Placement identity, whatever the node's state and load.
    pub open spec fn eligible(self, node: Node, reservations: Seq<Reservation>) -> bool {
        &&& self.allows(node.name@)
        &&& self.in_partition(node)
        &&& self.has_features(node)
        &&& self.reservation_ok(reservations)
    }

    /// Whether an exclusive job would find the node in use.
    pub open spec fn finds_in_use(self, node: Node) -> bool {
        self.exclusive && (node.alloc_cpus > 0 || node.alloc_devices)
    }

    pub open spec fn matches_ignoring_k0s(
        self,
        node: Node,
        reservations: Seq<Reservation>,
    ) -> bool {
        self.eligible(node, reservations) && node.schedulable && !self.finds_in_use(node)
    }

    pub open spec fn matches(self, node: Node, reservations: Seq<Reservation>) -> bool {
        !node.k0s_reserved && self.matches_ignoring_k0s(node, reservations)
    }

    pub open spec fn matches_for_reservation(
        self,
        node: Node,
        reservations: Seq<Reservation>,
    ) -> bool {
        !node.k0s_reserved && self.eligible(node, reservations) && node.up
    }

    /// Whether a node that the job lists, and that could serve it, is not to be
    /// had.
    pub open spec fn lacks(self, c: Candidate) -> bool {
        &&& self.lists(c.node.name@)
        &&& self.eligible(c.node, c.reservations@)
        &&& c.can_satisfy
        &&& !self.matches_for_reservation(c.node, c.reservations@)
    }

    /// Whether an additive node list names a node that could serve the job but
    /// is not to be had.
    pub open spec fn lacks_one_of(self, nodes: Seq<Candidate>) -> bool {
        self.is_additive() && exists|i: int|
            0 <= i < nodes.len() && self.lacks(#[trigger] nodes[i])
    }
}

/// Whether a reservation holds the node at the instant.
pub open spec fn in_force(r: Reservation) -> bool {
    r.active && r.covers_node
}

/// The names that a host list stands for. `expansion` is what the pattern's
/// brackets expand to; a malformed pattern, which has none, is split at its
/// commas, so that simple comma-separated lists work either way.
pub fn expand_hostlist_or_split(pattern: &str, expansion: Option<Vec<String>>) -> (names: Vec<
    String,
>)
    ensures
        strings(names@) == hostlist_names(pattern@, opt_strings(expansion)),
{
    let all = match expansion {
        Some(names) => names,
        None => to_strings(split_fields(pattern)),
    };
    keep_non_empty(all)
}

/// Leaves the empty names out.
fn keep_non_empty(all: Vec<String>) -> (names: Vec<String>)
    ensures
        strings(names@) == non_empty(strings(all@)),
{
    let mut names: Vec<String> = Vec::new();
    let ghost pred = |name: Seq<char>| name.len() > 0;
    let mut i: usize = 0;
    proof {
        reveal(Seq::filter);
    }
    while i < all.len()
        invariant
            i <= all.len(),
            pred == (|name: Seq<char>| name.len() > 0),
            strings(names@) == strings(all@).take(i as int).filter(pred),
        decreases all.len() - i,
    {
        let ghost before = strings(names@);
        let ghost name = all@[i as int]@;
        proof {
            assert(strings(all@).take(i + 1) =~= strings(all@).take(i as int).push(name));
            lemma_filter_push(strings(all@).take(i as int), name, pred);
        }
        if !all[i].as_str().is_empty() {
            names.push(all[i].clone());
            assert(strings(names@) =~= before.push(name));
        }
        i = i + 1;
    }
    assert(strings(all@).take(all.len() as int) =~= strings(all@));
    names
}

/// Copies an optional list of names.
fn copy_expansion(expansion: &Option<Vec<String>>) -> (copy: Option<Vec<String>>)
    ensures
        opt_strings(copy) == opt_strings(*expansion),
{
    match expansion {
        Some(names) => {
            let copy = names.clone();
            assert(strings(copy@) =~= strings(names@));
            Some(copy)
        },
        None => None,
    }
}

/// The set of names that an optional host list gives.
fn names_of(list: &Option<Hostlist>) -> (names: Option<Vec<String>>)
    ensures
        match names {
            Some(n) => listed(*list) == Some(name_set(n@)) && strings(n@).no_duplicates(),
            None => listed(*list) is None,
        },
{
    match list {
        Some(l) => if l.pattern.as_str().is_empty() {
            None
        } else {
            let all = expand_hostlist_or_split(
                l.pattern.as_str(),
                copy_expansion(&l.expansion),
            );
            Some(distinct_names(all.as_slice()))
        },
        None => None,
    }
}

/// A job's placement constraints, worked out once and used for all candidate
/// nodes.
pub struct NodePlacement<'a> {
    job: &'a Job,
    /// The listed nodes, each once: their number decides whether the request
    /// is a pool of candidates or an additive requirement.
    nodelist: Option<Vec<String>>,
    /// The excluded nodes.
    exclude: Vec<String>,
    /// The features that a node must have.
    required_features: Vec<&'a str>,
    /// The partitions that the job may run in.
    partitions: Vec<&'a str>,
}

impl<'a> View for NodePlacement<'a> {
    type V = PlacementView;

    closed spec fn view(&self) -> PlacementView {
        PlacementView {
            nodelist: match self.nodelist {
                Some(names) => Some(name_set(names@)),
                None => None,
            },
            exclude: name_set(self.exclude@),
            required_features: texts(self.required_features@),
            partitions: texts(self.partitions@),
            num_nodes: self.job.spec.num_nodes as nat,
            exclusive: self.job.spec.exclusive,
            reservation: present(opt_text(self.job.spec.reservation)),
        }
    }
}

impl<'a> NodePlacement<'a> {
    /// No node is listed twice.
    #[verifier::type_invariant]
    spec fn listed_once(self) -> bool {
        match self.nodelist {
            Some(names) => strings(names@).no_duplicates(),
            None => true,
        }
    }

    /// The placement of a job, for scheduling. The nodes that admission
    /// credited to it count as its node list if it gave none.
    pub fn new(job: &'a Job) -> (placement: Self)
        ensures
            placement@ == placement_of(*job, true),
    {
        Self::build(job, true)
    }

    /// Like `new`, but never falls back to the credited nodes. Admission uses
    /// it while it is still working those out, so that the credit of one limit
    /// does not restrict the computation of another.
    pub fn new_ignoring_preferred_nodes(job: &'a Job) -> (placement: Self)
        ensures
            placement@ == placement_of(*job, false),
    {
        Self::build(job, false)
    }

    fn build(job: &'a Job, use_preferred_nodes: bool) -> (placement: Self)
        ensures
            placement@ == placement_of(*job, use_preferred_nodes),
    {
        let nodelist = match names_of(&job.spec.nodelist) {
            Some(names) => Some(names),
            None => if use_preferred_nodes && job.preferred_nodes.len() > 0 {
                Some(distinct_names(job.preferred_nodes.as_slice()))
            } else {
                None
            },
        };
        let exclude: Vec<String> = match names_of(&job.spec.exclude) {
            Some(names) => names,
            None => {
                let none: Vec<String> = Vec::new();
                assert(name_set(none@) =~= Set::<Seq<char>>::empty());
                none
            },
        };
        let required_features: Vec<&'a str> = match &job.spec.constraint {
            Some(c) => split_non_empty_fields(c.as_str()),
            None => {
                let none: Vec<&'a str> = Vec::new();
                assert(texts(none@) =~= Seq::<Seq<char>>::empty());
                none
            },
        };
        let partitions: Vec<&'a str> = match &job.spec.partition {
            Some(p) => split_fields(p.as_str()),
            None => {
                let none: Vec<&'a str> = Vec::new();
                assert(texts(none@) =~= Seq::<Seq<char>>::empty());
                none
            },
        };
        NodePlacement { job, nodelist, exclude, required_features, partitions }
    }

    /// Whether the node list and the excluded nodes permit a node by its name
    /// alone.
    pub fn allows_name(&self, name: &str) -> (r: bool)
        ensures
            r == self@.allows(name@),
    {
        if let Some(allowed) = &self.nodelist {
            if !self.nodelist_is_additive() && !contains_name(allowed.as_slice(), name) {
                return false;
            }
        }
        !contains_name(self.exclude.as_slice(), name)
    }

    /// Whether the listed nodes are fewer than the job needs.
    pub fn nodelist_is_additive(&self) -> (r: bool)
        ensures
            r == self@.is_additive(),
    {
        proof {
            use_type_invariant(self);
        }
        match &self.nodelist {
            Some(list) => {
                proof {
                    strings(list@).unique_seq_to_set();
                }
                let needed: usize = if self.job.spec.num_nodes > 1 {
                    self.job.spec.num_nodes as usize
                } else {
                    1
                };
                needed > list.len()
            },
            None => false,
        }
    }

    /// Whether the job lists a node.
    pub fn is_listed(&self, name: &str) -> (r: bool)
        ensures
            r == self@.lists(name@),
    {
        match &self.nodelist {
            Some(list) => contains_name(list.as_slice(), name),
            None => false,
        }
    }

    /// Whether the node is in one of the job's partitions, or the job asked
    /// for none.
    pub fn in_partition(&self, node: &Node) -> (r: bool)
        ensures
            r == self@.in_partition(*node),
    {
        if self.partitions.len() == 0 {
            return true;
        }
        let ghost wanted = texts(self.partitions@);
        let mut i: usize = 0;
        while i < self.partitions.len()
            invariant
                i <= self.partitions.len(),
                wanted == texts(self.partitions@),
                forall|j: int|
                    0 <= j < i ==> !strings(node.partitions@).contains(#[trigger] wanted[j]),
            decreases self.partitions.len() - i,
        {
            if contains_name(node.partitions.as_slice(), self.partitions[i]) {
                assert(wanted.contains(wanted[i as int]));
                return true;
            }
            assert(wanted[i as int] == self.partitions@[i as int]@);
            i = i + 1;
        }
        false
    }

    /// Whether the node carries every feature that the job requires.
    pub fn has_features(&self, node: &Node) -> (r: bool)
        ensures
            r == self@.has_features(*node),
    {
        let ghost wanted = texts(self.required_features@);
        let mut i: usize = 0;
        while i < self.required_features.len()
            invariant
                i <= self.required_features.len(),
                wanted == texts(self.required_features@),
                forall|j: int|
                    0 <= j < i ==> strings(node.features@).contains(#[trigger] wanted[j]),
            decreases self.required_features.len() - i,
        {
            assert(wanted[i as int] == self.required_features@[i as int]@);
            if !contains_name(node.features.as_slice(), self.required_features[i]) {
                assert(self@.required_features.contains(wanted[i as int]));
                return false;
            }
            i = i + 1;
        }
        true
    }

    /// Whether the job may use the node in view of the reservations.
    fn reservation_ok(&self, reservations: &[Reservation]) -> (r: bool)
        ensures
            r == self@.reservation_ok(reservations@),
    {
        let reservation = match &self.job.spec.reservation {
            Some(name) => if name.as_str().is_empty() {
                None
            } else {
                Some(name)
            },
            None => None,
        };
        let mut i: usize = 0;
        match reservation {
            Some(name) => {
                while i < reservations.len()
                    invariant
                        i <= reservations.len(),
                        self@.reservation == Some(name@),
                        forall|j: int|
                            0 <= j < i ==> !(in_force(#[trigger] reservations@[j])
                                && reservations@[j].name@ == name@
                                && reservations@[j].allows_user),
                    decreases reservations.len() - i,
                {
                    let r = &reservations[i];
                    if r.active && r.covers_node && str_eq(r.name.as_str(), name.as_str())
                        && r.allows_user {
                        assert(in_force(reservations@[i as int]));
                        return true;
                    }
                    i = i + 1;
                }
                false
            },
            None => {
                while i < reservations.len()
                    invariant
                        i <= reservations.len(),
                        self@.reservation is None,
                        forall|j: int|
                            0 <= j < i ==> !in_force(#[trigger] reservations@[j]),
                    decreases reservations.len() - i,
                {
                    let r = &reservations[i];
                    if r.active && r.covers_node {
                        assert(in_force(reservations@[i as int]));
                        return false;
                    }
                    i = i + 1;
                }
                true
            },
        }
    }

    /// Load-independent placement identity: node list, excluded nodes,
    /// partition, features and reservations, but neither the node's state nor
    /// its free capacity.
    pub fn eligible(&self, node: &Node, reservations: &[Reservation]) -> (r: bool)
        ensures
            r == self@.eligible(*node, reservations@),
    {
        self.allows_name(node.name.as_str()) && self.in_partition(node) && self.has_features(node)
            && self.reservation_ok(reservations)
    }

    /// `eligible`, and the node's state lets the job start: it takes new work,
    /// it is idle if the job is exclusive, and it is not owned by the k0s
    /// cluster, whose own scheduler places work there.
    pub fn matches(&self, node: &Node, reservations: &[Reservation]) -> (r: bool)
        ensures
            r == self@.matches(*node, reservations@),
    {
        !node.k0s_reserved && self.matches_ignoring_k0s(node, reservations)
    }

    /// Whether the node would match if it were not reserved for k0s.
    pub fn matches_ignoring_k0s(&self, node: &Node, reservations: &[Reservation]) -> (r: bool)
        ensures
            r == self@.matches_ignoring_k0s(*node, reservations@),
    {
        if !self.eligible(node, reservations) {
            return false;
        }
        if !node.schedulable {
            return false;
        }
        if self.job.spec.exclusive && (node.alloc_cpus > 0 || node.alloc_devices) {
            return false;
        }
        true
    }

    /// Like `matches`, but admits a node that is up and busy, as a candidate
    /// for a later start.
    pub fn matches_for_reservation(&self, node: &Node, reservations: &[Reservation]) -> (r: bool)
        ensures
            r == self@.matches_for_reservation(*node, reservations@),
    {
        !node.k0s_reserved && self.eligible(node, reservations) && node.up
    }

    /// Whether an additive node list names a node that could serve the job but
    /// is not to be had, in which case the job cannot be placed whatever else
    /// is idle.
    pub fn additive_listed_node_unavailable(&self, nodes: &[Candidate]) -> (r: bool)
        ensures
            r == self@.lacks_one_of(nodes@),
    {
        if !self.nodelist_is_additive() {
            return false;
        }
        let mut i: usize = 0;
        while i < nodes.len()
            invariant
                i <= nodes.len(),
                self@.is_additive(),
                forall|j: int| 0 <= j < i ==> !self@.lacks(#[trigger] nodes@[j]),
            decreases nodes.len() - i,
        {
            let c = &nodes[i];
            let reservations = c.reservations.as_slice();
            if self.is_listed(c.node.name.as_str()) && self.eligible(&c.node, reservations)
                && c.can_satisfy && !self.matches_for_reservation(&c.node, reservations) {
                assert(self@.lacks(nodes@[i as int]));
                return true;
            }
            i = i + 1;
        }
        false
    }
}

/// A job's own node list wins over the nodes credited to it: with one, it makes
/// no difference whether those are used.
pub proof fn explicit_nodelist_wins(job: Job)
    requires
        listed(job.spec.nodelist) is Some,
    ensures
        placement_of(job, true) == placement_of(job, false),
{
}

/// Ignoring the credited nodes is having none: the placement is that of a job
/// with the same request to which nothing is credited.
pub proof fn ignored_credit_is_no_credit(job: Job, uncredited: Job)
    requires
        uncredited.spec == job.spec,
        uncredited.preferred_nodes@.len() == 0,
    ensures
        placement_of(job, false) == placement_of(uncredited, true),
{
}

/// Without a node list of its own and with its credit ignored, a job may go to
/// every node that it does not exclude.
pub proof fn ignored_credit_restricts_nothing(job: Job, name: Seq<char>)
    requires
        listed(job.spec.nodelist) is None,
    ensures
        !placement_of(job, false).is_additive(),
        placement_of(job, false).allows(name) == !placement_of(job, false).exclude.contains(name),
{
}

/// A node list is either a pool, outside of which no node is allowed, or, when
/// it falls short of the nodes that the job needs, additive, and then allows
/// every node. Excluded nodes are out in both cases.
pub proof fn pool_or_additive(p: PlacementView, name: Seq<char>)
    requires
        p.nodelist is Some,
    ensures
        p.is_additive() ==> p.allows(name) == !p.exclude.contains(name),
        !p.is_additive() ==> p.allows(name) == (p.lists(name) && !p.exclude.contains(name)),
{
}

/// An excluded node is never placed on, listed or not.
pub proof fn excluded_nodes_are_out(p: PlacementView, node: Node, reservations: Seq<Reservation>)
    requires
        p.exclude.contains(node.name@),
    ensures
        !p.allows(node.name@),
        !p.eligible(node, reservations),
        !p.matches_ignoring_k0s(node, reservations),
        !p.matches(node, reservations),
        !p.matches_for_reservation(node, reservations),
{
}

/// Each check takes in the one before: a node that matches also matches with
/// the k0s gate ignored, and that one is eligible; so is a candidate for a
/// later start.
pub proof fn checks_are_nested(p: PlacementView, node: Node, reservations: Seq<Reservation>)
    ensures
        p.matches(node, reservations) ==> p.matches_ignoring_k0s(node, reservations),
        p.matches_ignoring_k0s(node, reservations) ==> p.eligible(node, reservations),
        p.matches_for_reservation(node, reservations) ==> p.eligible(node, reservations),
        p.matches(node, reservations) && node.up ==> p.matches_for_reservation(
            node,
            reservations,
        ),
{
}

/// A node of the k0s cluster is never matched, now or for a later start; its
/// placement identity is what it is without the cluster's claim.
pub proof fn k0s_nodes_are_left_alone(
    p: PlacementView,
    claimed: Node,
    free: Node,
    reservations: Seq<Reservation>,
)
    requires
        claimed == (Node { k0s_reserved: true, ..free }),
        !free.k0s_reserved,
    ensures
        !p.matches(claimed, reservations),
        !p.matches_for_reservation(claimed, reservations),
        p.eligible(claimed, reservations) == p.eligible(free, reservations),
        p.matches_ignoring_k0s(claimed, reservations) == p.matches(free, reservations),
{
}

/// Placement identity does not depend on a node's state or load: two nodes
/// that agree in name, partitions and features are eligible alike.
pub proof fn eligibility_ignores_load(
    p: PlacementView,
    a: Node,
    b: Node,
    reservations: Seq<Reservation>,
)
    requires
        a.name@ == b.name@,
        strings(a.partitions@) == strings(b.partitions@),
        strings(a.features@) == strings(b.features@),
    ensures
        p.eligible(a, reservations) == p.eligible(b, reservations),
{
    if p.in_partition(a) && p.partitions.len() > 0 {
        let w = choose|w: Seq<char>| #[trigger]
            p.partitions.contains(w) && strings(a.partitions@).contains(w);
        assert(strings(b.partitions@).contains(w));
    }
    if p.in_partition(b) && p.partitions.len() > 0 {
        let w = choose|w: Seq<char>| #[trigger]
            p.partitions.contains(w) && strings(b.partitions@).contains(w);
        assert(strings(a.partitions@).contains(w));
    }
}

/// A busy node that is up stays a candidate for a later start: what it has
/// allocated, and whether it takes new work now, do not matter there.
pub proof fn busy_nodes_stay_candidates(
    p: PlacementView,
    node: Node,
    reservations: Seq<Reservation>,
    schedulable: bool,
    alloc_cpus: u64,
    alloc_devices: bool,
)
    ensures
        p.matches_for_reservation(
            Node { schedulable, alloc_cpus, alloc_devices, ..node },
            reservations,
        ) == p.matches_for_reservation(node, reservations),
{
    eligibility_ignores_load(
        p,
        node,
        Node { schedulable, alloc_cpus, alloc_devices, ..node },
        reservations,
    );
}

/// A job without a reservation is kept off every node that a reservation holds
/// at the instant.
pub proof fn reserved_nodes_are_kept_free(
    p: PlacementView,
    node: Node,
    reservations: Seq<Reservation>,
    i: int,
)
    requires
        p.reservation is None,
        0 <= i < reservations.len(),
        in_force(reservations[i]),
    ensures
        !p.eligible(node, reservations),
{
}

/// A job in a reservation is kept off every node that its reservation does not
/// hold for its user at the instant.
pub proof fn reservation_confines_its_jobs(
    p: PlacementView,
    node: Node,
    reservations: Seq<Reservation>,
)
    requires
        p.reservation is Some,
        forall|i: int|
            0 <= i < reservations.len() && (#[trigger] reservations[i]).name@ == p.reservation->0
                ==> !(in_force(reservations[i]) && reservations[i].allows_user),
    ensures
        !p.eligible(node, reservations),
{
}

/// An additive list that is not to be had in full stands out against every
/// other node: some listed node is eligible, able, and not a candidate.
pub proof fn unavailable_means_a_listed_node_is_missing(p: PlacementView, c: Candidate)
    requires
        p.lacks(c),
    ensures
        p.lists(c.node.name@),
        c.can_satisfy,
        c.node.k0s_reserved || !c.node.up,
{
}

/// Empty entries in a host list count for nothing, whether it expands or is
/// split.
pub proof fn hostlists_hold_no_empty_names(
    pattern: Seq<char>,
    expansion: Option<Seq<Seq<char>>>,
    name: Seq<char>,
)
    ensures
        hostlist_names(pattern, expansion).contains(name) <==> name.len() > 0 && (match expansion {
            Some(names) => names,
            None => fields(pattern),
        }).contains(name),
{
    let all = match expansion {
        Some(names) => names,
        None => fields(pattern),
    };
    lemma_filter_contains(all, |n: Seq<char>| n.len() > 0, name);
}

} // verus!
