//! Applying the mesh to an interface, one outside step at a time.
//!
//! A `MeshRun` says which action comes next, and is told how the last one
//! went. Whoever drives it talks to WireGuard and to the config file, and
//! decides nothing: the order of the steps, what each is handed, when to stop
//! and what is reported are fixed here.
use crate::mesh::{
    departed_keys, desired_keys, mesh_peers, mesh_peers_for, mesh_pod_routes, node_views,
    peer_views, peers_to_prune, pod_routes, pruned_keys, MeshNode, MeshNodeView, WgPeer,
    WgPeerView,
};
use crate::names::name_set;
use crate::text::{lemma_push_contains, strings, texts};
use vstd::prelude::*;

verus! {

/// One step that the driver of a run performs.
#[derive(Debug, PartialEq, Eq)]
pub enum MeshAction {
    /// Remove a peer from the interface.
    RemovePeer { interface: String, public_key: String },
    /// Add a peer to the interface, or update it.
    AddPeer { interface: String, peer: WgPeer },
    /// Install a kernel route over the interface.
    AddRoute { interface: String, cidr: String },
    /// See whether the interface has a config file.
    FindConfig,
    /// Read the config file.
    ReadConfig,
    /// Put a peer into the config that was read, under its public key.
    UpsertPeer { peer: WgPeer },
    /// Write the config back to its file.
    WriteConfig,
}

/// How the last action went.
pub enum MeshEvent<E> {
    /// It succeeded. Of `FindConfig`: the file is there.
    Done,
    /// There is no config file. The answer to `FindConfig`.
    ConfigMissing,
    /// It failed.
    Failed(E),
}

/// The contents of a `MeshAction`.
pub enum ActionView {
    RemovePeer { interface: Seq<char>, public_key: Seq<char> },
    AddPeer { interface: Seq<char>, peer: WgPeerView },
    AddRoute { interface: Seq<char>, cidr: Seq<char> },
    FindConfig,
    ReadConfig,
    UpsertPeer { peer: WgPeerView },
    WriteConfig,
}

impl View for MeshAction {
    type V = ActionView;

    open spec fn view(&self) -> ActionView {
        match *self {
            MeshAction::RemovePeer { interface, public_key } => ActionView::RemovePeer {
                interface: interface@,
                public_key: public_key@,
            },
            MeshAction::AddPeer { interface, peer } => ActionView::AddPeer {
                interface: interface@,
                peer: peer@,
            },
            MeshAction::AddRoute { interface, cidr } => ActionView::AddRoute {
                interface: interface@,
                cidr: cidr@,
            },
            MeshAction::FindConfig => ActionView::FindConfig,
            MeshAction::ReadConfig => ActionView::ReadConfig,
            MeshAction::UpsertPeer { peer } => ActionView::UpsertPeer { peer: peer@ },
            MeshAction::WriteConfig => ActionView::WriteConfig,
        }
    }
}

/// A run over an interface that is under way.
pub struct MeshRun<E> {
    persist: Vec<MeshAction>,
    live: Vec<MeshAction>,
    error: Option<E>,
    added: usize,
    pruned: usize,
}

/// The state of a run: what is still to do on the config file, what is still
/// to do on the interface after that, the error that ended it, and the numbers
/// of peers that it reports at the end.
#[verifier::ext_equal]
#[verifier::reject_recursive_types(E)]
pub struct RunView<E> {
    pub persist: Seq<ActionView>,
    pub live: Seq<ActionView>,
    pub error: Option<E>,
    pub added: nat,
    pub pruned: nat,
}

/// The contents of a list of actions.
pub open spec fn action_views(actions: Seq<MeshAction>) -> Seq<ActionView> {
    actions.map_values(|a: MeshAction| a@)
}

impl<E> View for MeshRun<E> {
    type V = RunView<E>;

    closed spec fn view(&self) -> RunView<E> {
        RunView {
            persist: action_views(self.persist@),
            live: action_views(self.live@),
            error: self.error,
            added: self.added as nat,
            pruned: self.pruned as nat,
        }
    }
}

impl<E> RunView<E> {
    /// Everything that is still to do, in order.
    pub open spec fn pending(self) -> Seq<ActionView> {
        self.persist + self.live
    }

    /// The action to perform now. There is none after a failure.
    pub open spec fn next(self) -> Option<ActionView> {
        if self.error is None && self.pending().len() > 0 {
            Some(self.pending()[0])
        } else {
            None
        }
    }

    /// The state after an event. A failure ends the run. A missing config
    /// file, where that was the question, leaves out what was to be done to
    /// it. Events that answer nothing change nothing.
    pub open spec fn step(self, event: MeshEvent<E>) -> RunView<E> {
        if self.next() is None {
            self
        } else {
            match event {
                MeshEvent::Failed(e) => RunView { error: Some(e), ..self },
                MeshEvent::ConfigMissing => if self.next() == Some(ActionView::FindConfig)
                    && self.persist.len() > 0 {
                    RunView { persist: Seq::empty(), ..self }
                } else {
                    self
                },
                MeshEvent::Done => if self.persist.len() > 0 {
                    RunView { persist: self.persist.drop_first(), ..self }
                } else {
                    RunView { live: self.live.drop_first(), ..self }
                },
            }
        }
    }

    /// What the run reports: nothing while something is still to do, else the
    /// error that ended it or the numbers of peers added and pruned.
    pub open spec fn outcome(self) -> Option<Result<(nat, nat), E>> {
        match self.error {
            Some(e) => Some(Err(e)),
            None => if self.pending().len() > 0 {
                None
            } else {
                Some(Ok((self.added, self.pruned)))
            },
        }
    }

    /// The actions performed while `events` come in.
    pub open spec fn performed(self, events: Seq<MeshEvent<E>>) -> Seq<ActionView>
        decreases events.len(),
    {
        if events.len() == 0 {
            Seq::empty()
        } else {
            match self.next() {
                None => Seq::empty(),
                Some(action) => seq![action] + self.step(events[0]).performed(
                    events.drop_first(),
                ),
            }
        }
    }

    /// The state after `events`.
    pub open spec fn after(self, events: Seq<MeshEvent<E>>) -> RunView<E>
        decreases events.len(),
    {
        if events.len() == 0 {
            self
        } else {
            self.step(events[0]).after(events.drop_first())
        }
    }
}

impl<E> MeshRun<E> {
    /// The action to perform now, if the run is not over.
    pub fn next(&self) -> (action: Option<&MeshAction>)
        ensures
            match action {
                Some(a) => self@.next() == Some(a@),
                None => self@.next() is None,
            },
    {
        if self.error.is_some() {
            None
        } else if self.persist.len() > 0 {
            Some(&self.persist[0])
        } else if self.live.len() > 0 {
            Some(&self.live[0])
        } else {
            None
        }
    }

    /// Takes note of how the current action went.
    pub fn step(&mut self, event: MeshEvent<E>)
        ensures
            final(self)@ == old(self)@.step(event),
    {
        let ghost before = self@;
        if self.error.is_some() || (self.persist.len() == 0 && self.live.len() == 0) {
            return;
        }
        match event {
            MeshEvent::Failed(e) => {
                self.error = Some(e);
                assert(self@ =~= before.step(event));
            },
            MeshEvent::ConfigMissing => {
                if self.persist.len() > 0 {
                    let asked = match &self.persist[0] {
                        MeshAction::FindConfig => true,
                        _ => false,
                    };
                    assert(before.pending()[0] == self.persist@[0]@);
                    if asked {
                        self.persist = Vec::new();
                        assert(self@.persist =~= Seq::<ActionView>::empty());
                    }
                }
                assert(self@ =~= before.step(event));
            },
            MeshEvent::Done => {
                if self.persist.len() > 0 {
                    let _ = self.persist.remove(0);
                    assert(self@.persist =~= before.persist.drop_first());
                } else {
                    let _ = self.live.remove(0);
                    assert(self@.live =~= before.live.drop_first());
                }
                assert(self@ =~= before.step(event));
            },
        }
    }

    /// What the run reports, once it is over.
    pub fn outcome(self) -> (outcome: Option<Result<(usize, usize), E>>)
        ensures
            match outcome {
                None => self@.outcome() is None,
                Some(Err(e)) => self@.outcome() == Some(Err::<(nat, nat), E>(e)),
                Some(Ok(counts)) => self@.outcome() == Some(
                    Ok::<(nat, nat), E>((counts.0 as nat, counts.1 as nat)),
                ),
            },
    {
        match self.error {
            Some(e) => Some(Err(e)),
            None => if self.persist.len() > 0 || self.live.len() > 0 {
                assert(self@.pending().len() > 0);
                None
            } else {
                assert(self@.pending().len() == 0);
                Some(Ok((self.added, self.pruned)))
            },
        }
    }
}

/// The actions that remove peers from an interface.
pub open spec fn remove_actions(interface: Seq<char>, keys: Seq<Seq<char>>) -> Seq<ActionView> {
    keys.map_values(
        |key: Seq<char>| ActionView::RemovePeer { interface: interface, public_key: key },
    )
}

/// The actions that add peers to an interface.
pub open spec fn add_actions(interface: Seq<char>, peers: Seq<WgPeerView>) -> Seq<ActionView> {
    peers.map_values(|p: WgPeerView| ActionView::AddPeer { interface: interface, peer: p })
}

/// The actions that install routes over an interface.
pub open spec fn route_actions(interface: Seq<char>, cidrs: Seq<Seq<char>>) -> Seq<ActionView> {
    cidrs.map_values(
        |cidr: Seq<char>| ActionView::AddRoute { interface: interface, cidr: cidr },
    )
}

/// The actions that put peers into a config that was read.
pub open spec fn upsert_actions(peers: Seq<WgPeerView>) -> Seq<ActionView> {
    peers.map_values(|p: WgPeerView| ActionView::UpsertPeer { peer: p })
}

/// What is done to an interface to apply a mesh: every peer is added, and the
/// pod routes are installed if they are wanted.
pub open spec fn live_plan(
    interface: Seq<char>,
    self_mesh_ip: Seq<char>,
    members: Seq<MeshNodeView>,
    program_routes: bool,
) -> Seq<ActionView> {
    add_actions(interface, mesh_peers(self_mesh_ip, members)) + if program_routes {
        route_actions(interface, pod_routes(self_mesh_ip, members))
    } else {
        Seq::empty()
    }
}

/// What reconciling does to an interface.
pub open spec fn reconcile_plan(
    interface: Seq<char>,
    self_mesh_ip: Seq<char>,
    members: Seq<MeshNodeView>,
    current: Seq<Seq<char>>,
    protected: Set<Seq<char>>,
    program_routes: bool,
) -> Seq<ActionView> {
    remove_actions(
        interface,
        departed_keys(current, desired_keys(self_mesh_ip, members), protected),
    ) + live_plan(interface, self_mesh_ip, members, program_routes)
}

/// What is done to a config file: one read, every peer put in, one write.
pub open spec fn persist_plan(peers: Seq<WgPeerView>) -> Seq<ActionView> {
    seq![ActionView::FindConfig, ActionView::ReadConfig] + upsert_actions(peers)
        + seq![ActionView::WriteConfig]
}

/// Copies a string slice into a string.
fn owned(s: &str) -> (r: String)
    ensures
        r@ == s@,
{
    s.to_owned()
}

/// Appends to `actions` what applies a mesh to an interface.
fn push_live_plan(
    actions: &mut Vec<MeshAction>,
    interface: &str,
    peers: &Vec<WgPeer>,
    self_mesh_ip: &str,
    members: &[MeshNode],
    program_routes: bool,
)
    requires
        peer_views(peers@) == mesh_peers(self_mesh_ip@, node_views(members@)),
    ensures
        action_views(final(actions)@) == action_views(old(actions)@) + live_plan(
            interface@,
            self_mesh_ip@,
            node_views(members@),
            program_routes,
        ),
{
    let ghost start = action_views(actions@);
    let ghost adds = add_actions(interface@, peer_views(peers@));
    let mut i: usize = 0;
    assert(start + adds.take(0) =~= start);
    while i < peers.len()
        invariant
            i <= peers.len(),
            adds == add_actions(interface@, peer_views(peers@)),
            action_views(actions@) == start + adds.take(i as int),
        decreases peers.len() - i,
    {
        let ghost before = action_views(actions@);
        actions.push(
            MeshAction::AddPeer { interface: owned(interface), peer: peers[i].clone() },
        );
        proof {
            assert(action_views(actions@) =~= before.push(adds[i as int]));
            assert(start + adds.take(i + 1) =~= (start + adds.take(i as int)).push(
                adds[i as int],
            ));
        }
        i = i + 1;
    }
    assert(adds.take(peers.len() as int) =~= adds);
    let ghost middle = start + adds;
    if program_routes {
        let routes = mesh_pod_routes(self_mesh_ip, members);
        let ghost installs = route_actions(interface@, texts(routes@));
        let mut k: usize = 0;
        assert(middle + installs.take(0) =~= middle);
        while k < routes.len()
            invariant
                k <= routes.len(),
                installs == route_actions(interface@, texts(routes@)),
                action_views(actions@) == middle + installs.take(k as int),
            decreases routes.len() - k,
        {
            let ghost before = action_views(actions@);
            actions.push(
                MeshAction::AddRoute { interface: owned(interface), cidr: owned(routes[k]) },
            );
            proof {
                assert(action_views(actions@) =~= before.push(installs[k as int]));
                assert(middle + installs.take(k + 1) =~= (middle + installs.take(k as int)).push(
                    installs[k as int],
                ));
            }
            k = k + 1;
        }
        assert(installs.take(routes.len() as int) =~= installs);
        assert(middle + installs =~= start + (adds + installs));
    } else {
        assert(middle =~= start + (adds + Seq::<ActionView>::empty()));
    }
}

/// The actions that persist peers.
fn persist_actions(peers: &[WgPeer]) -> (actions: Vec<MeshAction>)
    ensures
        action_views(actions@) == persist_plan(peer_views(peers@)),
{
    let mut actions: Vec<MeshAction> = Vec::new();
    actions.push(MeshAction::FindConfig);
    actions.push(MeshAction::ReadConfig);
    let ghost start = seq![ActionView::FindConfig, ActionView::ReadConfig];
    let ghost upserts = upsert_actions(peer_views(peers@));
    let mut i: usize = 0;
    assert(action_views(actions@) =~= start + upserts.take(0));
    while i < peers.len()
        invariant
            i <= peers.len(),
            upserts == upsert_actions(peer_views(peers@)),
            action_views(actions@) == start + upserts.take(i as int),
        decreases peers.len() - i,
    {
        let ghost before = action_views(actions@);
        actions.push(MeshAction::UpsertPeer { peer: peers[i].clone() });
        proof {
            assert(action_views(actions@) =~= before.push(upserts[i as int]));
            assert(start + upserts.take(i + 1) =~= (start + upserts.take(i as int)).push(
                upserts[i as int],
            ));
        }
        i = i + 1;
    }
    let ghost before = action_views(actions@);
    actions.push(MeshAction::WriteConfig);
    proof {
        assert(upserts.take(peers.len() as int) =~= upserts);
        assert(action_views(actions@) =~= before.push(ActionView::WriteConfig));
        assert(action_views(actions@) =~= persist_plan(peer_views(peers@)));
    }
    actions
}

/// Starts to apply the full mesh on the local node: every remote peer is added
/// with its pod-CIDR-aware `AllowedIPs`. The run reports how many.
///
/// Additive: no peer and no route of a node outside `members` is removed.
/// `program_routes` also installs the kernel's pod routes; leave it off
/// wherever a network plugin owns them.
pub fn apply_mesh<E>(
    interface: &str,
    self_mesh_ip: &str,
    members: &[MeshNode],
    program_routes: bool,
) -> (run: MeshRun<E>)
    ensures
        run@ == (RunView::<E> {
            persist: Seq::empty(),
            live: live_plan(interface@, self_mesh_ip@, node_views(members@), program_routes),
            error: None,
            added: mesh_peers(self_mesh_ip@, node_views(members@)).len(),
            pruned: 0,
        }),
{
    let peers = mesh_peers_for(self_mesh_ip, members);
    let mut live: Vec<MeshAction> = Vec::new();
    push_live_plan(&mut live, interface, &peers, self_mesh_ip, members, program_routes);
    let run = MeshRun { persist: Vec::new(), live, error: None, added: peers.len(), pruned: 0 };
    proof {
        assert(peer_views(peers@).len() == peers.len());
        assert(run@.persist =~= Seq::<ActionView>::empty());
        assert(run@.live =~= live_plan(
            interface@,
            self_mesh_ip@,
            node_views(members@),
            program_routes,
        ));
    }
    run
}

/// Starts to persist peers into the config of an interface, in one
/// read-modify-write. Where there is no config, nothing is written.
pub fn persist_mesh_peers<E>(peers: &[WgPeer]) -> (run: MeshRun<E>)
    ensures
        run@ == (RunView::<E> {
            persist: persist_plan(peer_views(peers@)),
            live: Seq::empty(),
            error: None,
            added: 0,
            pruned: 0,
        }),
{
    let run = MeshRun {
        persist: persist_actions(peers),
        live: Vec::new(),
        error: None,
        added: 0,
        pruned: 0,
    };
    assert(run@.live =~= Seq::<ActionView>::empty());
    run
}

/// Starts to do what `apply_mesh` does, after every applied peer is persisted
/// into the config of the interface, so that the mesh survives a reload.
pub fn apply_mesh_durable<E>(
    interface: &str,
    self_mesh_ip: &str,
    members: &[MeshNode],
    program_routes: bool,
) -> (run: MeshRun<E>)
    ensures
        run@ == (RunView::<E> {
            persist: persist_plan(mesh_peers(self_mesh_ip@, node_views(members@))),
            live: live_plan(interface@, self_mesh_ip@, node_views(members@), program_routes),
            error: None,
            added: mesh_peers(self_mesh_ip@, node_views(members@)).len(),
            pruned: 0,
        }),
{
    let peers = mesh_peers_for(self_mesh_ip, members);
    let persist = persist_actions(peers.as_slice());
    let mut live: Vec<MeshAction> = Vec::new();
    push_live_plan(&mut live, interface, &peers, self_mesh_ip, members, program_routes);
    let run = MeshRun { persist, live, error: None, added: peers.len(), pruned: 0 };
    proof {
        assert(peer_views(peers@).len() == peers.len());
        assert(run@.live =~= live_plan(
            interface@,
            self_mesh_ip@,
            node_views(members@),
            program_routes,
        ));
    }
    run
}

/// Starts to reconcile the full mesh: peers no longer in `members` are pruned,
/// then the desired peers are added or updated. Unlike `apply_mesh` this
/// converges. `current_peers` are the interface's live peer keys; `protected`
/// ones are never pruned. The run reports how many were added and pruned.
pub fn reconcile_mesh<E>(
    interface: &str,
    self_mesh_ip: &str,
    members: &[MeshNode],
    current_peers: &[String],
    protected: &[String],
    program_routes: bool,
) -> (run: MeshRun<E>)
    ensures
        run@ == (RunView::<E> {
            persist: Seq::empty(),
            live: reconcile_plan(
                interface@,
                self_mesh_ip@,
                node_views(members@),
                strings(current_peers@),
                name_set(protected@),
                program_routes,
            ),
            error: None,
            added: mesh_peers(self_mesh_ip@, node_views(members@)).len(),
            pruned: departed_keys(
                strings(current_peers@),
                desired_keys(self_mesh_ip@, node_views(members@)),
                name_set(protected@),
            ).len(),
        }),
{
    let departed = peers_to_prune(current_peers, self_mesh_ip, members, protected);
    let mut live: Vec<MeshAction> = Vec::new();
    let ghost removals = remove_actions(interface@, texts(departed@));
    let mut i: usize = 0;
    assert(action_views(live@) =~= removals.take(0));
    while i < departed.len()
        invariant
            i <= departed.len(),
            removals == remove_actions(interface@, texts(departed@)),
            action_views(live@) == removals.take(i as int),
        decreases departed.len() - i,
    {
        let ghost before = action_views(live@);
        live.push(
            MeshAction::RemovePeer {
                interface: owned(interface),
                public_key: owned(departed[i]),
            },
        );
        proof {
            assert(action_views(live@) =~= before.push(removals[i as int]));
            assert(removals.take(i + 1) =~= removals.take(i as int).push(removals[i as int]));
        }
        i = i + 1;
    }
    assert(removals.take(departed.len() as int) =~= removals);
    let peers = mesh_peers_for(self_mesh_ip, members);
    push_live_plan(&mut live, interface, &peers, self_mesh_ip, members, program_routes);
    let run = MeshRun {
        persist: Vec::new(),
        live,
        error: None,
        added: peers.len(),
        pruned: departed.len(),
    };
    proof {
        assert(peer_views(peers@).len() == peers.len());
        assert(texts(departed@).len() == departed.len());
        assert(run@.persist =~= Seq::<ActionView>::empty());
    }
    run
}

/// The value that counts once `new` was set where `known` stood: a setting that
/// is left out stays as it was.
pub open spec fn or_known<A>(new: Option<A>, known: Option<A>) -> Option<A> {
    match new {
        Some(a) => Some(a),
        None => known,
    }
}

/// A peer of an interface after `peer` was set on it, where `known` is what the
/// interface had under that key.
pub open spec fn set_peer(known: Option<WgPeerView>, peer: WgPeerView) -> WgPeerView {
    WgPeerView {
        public_key: peer.public_key,
        allowed_ips: peer.allowed_ips,
        endpoint: or_known(
            peer.endpoint,
            match known {
                Some(k) => k.endpoint,
                None => None,
            },
        ),
        persistent_keepalive: or_known(
            peer.persistent_keepalive,
            match known {
                Some(k) => k.persistent_keepalive,
                None => None,
            },
        ),
    }
}

/// What a map holds under a key.
pub open spec fn known_peer(peers: Map<Seq<char>, WgPeerView>, key: Seq<char>) -> Option<
    WgPeerView,
> {
    if peers.dom().contains(key) {
        Some(peers[key])
    } else {
        None
    }
}

/// The peers of the interface `on`, by public key, after some actions: adding a
/// peer to it sets the peer under its key, removing one takes its key away, and
/// nothing else touches them.
pub open spec fn peers_after(
    peers: Map<Seq<char>, WgPeerView>,
    on: Seq<char>,
    actions: Seq<ActionView>,
) -> Map<Seq<char>, WgPeerView>
    decreases actions.len(),
{
    if actions.len() == 0 {
        peers
    } else {
        let before = peers_after(peers, on, actions.drop_last());
        match actions.last() {
            ActionView::AddPeer { interface, peer } => if interface == on {
                before.insert(
                    peer.public_key,
                    set_peer(known_peer(before, peer.public_key), peer),
                )
            } else {
                before
            },
            ActionView::RemovePeer { interface, public_key } => if interface == on {
                before.remove(public_key)
            } else {
                before
            },
            _ => before,
        }
    }
}

/// The pod routes over the interface `on` after some actions: installing one
/// over it makes it one of them, and nothing takes one away.
pub open spec fn routes_after(
    routes: Set<Seq<char>>,
    on: Seq<char>,
    actions: Seq<ActionView>,
) -> Set<Seq<char>>
    decreases actions.len(),
{
    if actions.len() == 0 {
        routes
    } else {
        let before = routes_after(routes, on, actions.drop_last());
        match actions.last() {
            ActionView::AddRoute { interface, cidr } => if interface == on {
                before.insert(cidr)
            } else {
                before
            },
            _ => before,
        }
    }
}

/// The pod routes that applying a mesh installs.
pub open spec fn wanted_routes(
    self_mesh_ip: Seq<char>,
    members: Seq<MeshNodeView>,
    program_routes: bool,
) -> Set<Seq<char>> {
    if program_routes {
        pod_routes(self_mesh_ip, members).to_set()
    } else {
        Set::empty()
    }
}

/// The peers in a config, by public key, after some actions. `upsert` is what
/// the config makes of a peer that is put in, given what it had under its key.
pub open spec fn config_after(
    config: Map<Seq<char>, WgPeerView>,
    actions: Seq<ActionView>,
    upsert: spec_fn(Option<WgPeerView>, WgPeerView) -> WgPeerView,
) -> Map<Seq<char>, WgPeerView>
    decreases actions.len(),
{
    if actions.len() == 0 {
        config
    } else {
        let before = config_after(config, actions.drop_last(), upsert);
        match actions.last() {
            ActionView::UpsertPeer { peer } => before.insert(
                peer.public_key,
                upsert(known_peer(before, peer.public_key), peer),
            ),
            _ => before,
        }
    }
}

/// A run in which nothing fails performs everything that was to do, in order,
/// and then reports its numbers.
pub proof fn undisturbed_run_does_everything<E>(run: RunView<E>, events: Seq<MeshEvent<E>>)
    requires
        run.error is None,
        events.len() == run.pending().len(),
        forall|i: int| 0 <= i < events.len() ==> #[trigger] events[i] is Done,
    ensures
        run.performed(events) == run.pending(),
        run.after(events).outcome() == Some(Ok::<(nat, nat), E>((run.added, run.pruned))),
    decreases events.len(),
{
    if events.len() == 0 {
        assert(run.performed(events) =~= run.pending());
    } else {
        let rest = run.step(events[0]);
        assert(rest.pending() =~= run.pending().drop_first());
        undisturbed_run_does_everything(rest, events.drop_first());
        assert(run.performed(events) =~= run.pending());
    }
}

/// The first failure ends a run: nothing is performed after the action that
/// failed, whatever comes in, and the report is its error.
pub proof fn first_failure_ends_the_run<E>(
    run: RunView<E>,
    done: Seq<MeshEvent<E>>,
    e: E,
    later: Seq<MeshEvent<E>>,
)
    requires
        run.error is None,
        done.len() < run.pending().len(),
        forall|i: int| 0 <= i < done.len() ==> #[trigger] done[i] is Done,
    ensures
        run.performed(done.push(MeshEvent::Failed(e)) + later) == run.pending().take(
            done.len() as int + 1,
        ),
        run.after(done.push(MeshEvent::Failed(e)) + later).outcome() == Some(
            Err::<(nat, nat), E>(e),
        ),
    decreases done.len(),
{
    let events = done.push(MeshEvent::Failed(e)) + later;
    let rest = run.step(events[0]);
    if done.len() == 0 {
        assert(events.drop_first() =~= later);
        lemma_ended_run_stays(rest, later);
        assert(run.performed(events) =~= run.pending().take(1));
    } else {
        assert(events[0] == done[0]);
        assert(rest.pending() =~= run.pending().drop_first());
        assert(events.drop_first() =~= done.drop_first().push(MeshEvent::Failed(e)) + later);
        first_failure_ends_the_run(rest, done.drop_first(), e, later);
        assert(run.performed(events) =~= run.pending().take(done.len() as int + 1));
    }
}

/// A run that is over stays as it is.
proof fn lemma_ended_run_stays<E>(run: RunView<E>, events: Seq<MeshEvent<E>>)
    requires
        run.next() is None,
    ensures
        run.performed(events) == Seq::<ActionView>::empty(),
        run.after(events) == run,
    decreases events.len(),
{
    if events.len() > 0 {
        lemma_ended_run_stays(run, events.drop_first());
    }
}

/// Where an interface has no config, persisting peers writes none, and the
/// live part of the run still takes place.
pub proof fn missing_config_is_not_fabricated<E>(
    run: RunView<E>,
    peers: Seq<WgPeerView>,
    events: Seq<MeshEvent<E>>,
)
    requires
        run.error is None,
        run.persist == persist_plan(peers),
        events.len() == run.live.len() + 1,
        events[0] is ConfigMissing,
        forall|i: int| 1 <= i < events.len() ==> #[trigger] events[i] is Done,
    ensures
        run.performed(events) == seq![ActionView::FindConfig] + run.live,
        run.after(events).outcome() == Some(Ok::<(nat, nat), E>((run.added, run.pruned))),
{
    assert(run.persist[0] == ActionView::FindConfig);
    assert(run.pending()[0] == ActionView::FindConfig);
    let rest = run.step(events[0]);
    assert(rest.pending() =~= run.live);
    undisturbed_run_does_everything(rest, events.drop_first());
}

proof fn lemma_peers_after_append(
    peers: Map<Seq<char>, WgPeerView>,
    on: Seq<char>,
    first: Seq<ActionView>,
    second: Seq<ActionView>,
)
    ensures
        peers_after(peers, on, first + second) == peers_after(
            peers_after(peers, on, first),
            on,
            second,
        ),
    decreases second.len(),
{
    if second.len() == 0 {
        assert(first + second =~= first);
    } else {
        assert((first + second).drop_last() =~= first + second.drop_last());
        lemma_peers_after_append(peers, on, first, second.drop_last());
    }
}

/// The public keys of a list of peers.
pub open spec fn keys_in(peers: Seq<WgPeerView>) -> Set<Seq<char>> {
    peers.map_values(|p: WgPeerView| p.public_key).to_set()
}

/// A list of peers has a key more than the list without its last one.
proof fn lemma_keys_in_step(peers: Seq<WgPeerView>)
    requires
        peers.len() > 0,
    ensures
        keys_in(peers) == keys_in(peers.drop_last()).insert(peers.last().public_key),
{
    let to_key = |p: WgPeerView| p.public_key;
    let front = peers.drop_last().map_values(to_key);
    let last = peers.last().public_key;
    assert(peers.map_values(to_key) =~= front.push(last));
    assert forall|k: Seq<char>|
        keys_in(peers).contains(k) == front.to_set().insert(last).contains(k) by {
        lemma_push_contains(front, last, k);
    }
    assert(keys_in(peers) =~= front.to_set().insert(last));
}

/// The `AllowedIPs` that the last peer with a key has.
spec fn last_allowed_ips(peers: Seq<WgPeerView>, key: Seq<char>) -> Option<Seq<char>>
    decreases peers.len(),
{
    if peers.len() == 0 {
        None
    } else if peers.last().public_key == key {
        Some(peers.last().allowed_ips)
    } else {
        last_allowed_ips(peers.drop_last(), key)
    }
}

/// The endpoint that the last peer with a key and an endpoint has.
spec fn last_endpoint(peers: Seq<WgPeerView>, key: Seq<char>) -> Option<Seq<char>>
    decreases peers.len(),
{
    if peers.len() == 0 {
        None
    } else if peers.last().public_key == key && peers.last().endpoint is Some {
        peers.last().endpoint
    } else {
        last_endpoint(peers.drop_last(), key)
    }
}

/// The keepalive that the last peer with a key and a keepalive has.
spec fn last_keepalive(peers: Seq<WgPeerView>, key: Seq<char>) -> Option<u16>
    decreases peers.len(),
{
    if peers.len() == 0 {
        None
    } else if peers.last().public_key == key && peers.last().persistent_keepalive is Some {
        peers.last().persistent_keepalive
    } else {
        last_keepalive(peers.drop_last(), key)
    }
}

/// What an interface has under a key after peers were added to it.
proof fn lemma_peer_after_adds(
    before: Map<Seq<char>, WgPeerView>,
    interface: Seq<char>,
    peers: Seq<WgPeerView>,
    key: Seq<char>,
)
    ensures
        ({
            let after = peers_after(before, interface, add_actions(interface, peers));
            if keys_in(peers).contains(key) {
                &&& after.dom().contains(key)
                &&& after[key].public_key == key
                &&& last_allowed_ips(peers, key) == Some(after[key].allowed_ips)
                &&& after[key].endpoint == or_known(
                    last_endpoint(peers, key),
                    match known_peer(before, key) {
                        Some(k) => k.endpoint,
                        None => None,
                    },
                )
                &&& after[key].persistent_keepalive == or_known(
                    last_keepalive(peers, key),
                    match known_peer(before, key) {
                        Some(k) => k.persistent_keepalive,
                        None => None,
                    },
                )
            } else {
                &&& known_peer(after, key) == known_peer(before, key)
                &&& last_allowed_ips(peers, key) is None
                &&& last_endpoint(peers, key) is None
                &&& last_keepalive(peers, key) is None
            }
        }),
    decreases peers.len(),
{
    if peers.len() == 0 {
        assert(!keys_in(peers).contains(key));
    } else {
        let front = peers.drop_last();
        lemma_peer_after_adds(before, interface, front, key);
        lemma_keys_in_step(peers);
        assert(add_actions(interface, peers).drop_last() =~= add_actions(interface, front));
    }
}

/// Which keys an interface has after peers were added to it.
proof fn lemma_keys_after_adds(
    before: Map<Seq<char>, WgPeerView>,
    interface: Seq<char>,
    peers: Seq<WgPeerView>,
)
    ensures
        peers_after(before, interface, add_actions(interface, peers)).dom() == before.dom().union(
            keys_in(peers),
        ),
{
    let after = peers_after(before, interface, add_actions(interface, peers));
    assert forall|k: Seq<char>|
        after.dom().contains(k) == before.dom().union(keys_in(peers)).contains(k) by {
        lemma_peer_after_adds(before, interface, peers, k);
    }
    assert(after.dom() =~= before.dom().union(keys_in(peers)));
}

proof fn lemma_peers_after_removals(
    before: Map<Seq<char>, WgPeerView>,
    interface: Seq<char>,
    gone: Seq<Seq<char>>,
)
    ensures
        peers_after(before, interface, remove_actions(interface, gone)) == before.remove_keys(
            gone.to_set(),
        ),
    decreases gone.len(),
{
    if gone.len() == 0 {
        assert(before.remove_keys(gone.to_set()) =~= before);
    } else {
        let front = gone.drop_last();
        lemma_peers_after_removals(before, interface, front);
        assert(remove_actions(interface, gone).drop_last() =~= remove_actions(interface, front));
        assert(gone =~= front.push(gone.last()));
        assert forall|k: Seq<char>|
            gone.to_set().contains(k) == front.to_set().insert(gone.last()).contains(k) by {
            lemma_push_contains(front, gone.last(), k);
        }
        assert(before.remove_keys(gone.to_set()) =~= before.remove_keys(front.to_set()).remove(
            gone.last(),
        ));
    }
}

proof fn lemma_peers_after_routes(
    before: Map<Seq<char>, WgPeerView>,
    interface: Seq<char>,
    cidrs: Seq<Seq<char>>,
)
    ensures
        peers_after(before, interface, route_actions(interface, cidrs)) == before,
    decreases cidrs.len(),
{
    if cidrs.len() > 0 {
        lemma_peers_after_routes(before, interface, cidrs.drop_last());
        assert(route_actions(interface, cidrs).drop_last() =~= route_actions(
            interface,
            cidrs.drop_last(),
        ));
    }
}

/// Routes do not touch peers: applying a mesh does to them what adding them
/// does.
proof fn lemma_peers_after_live_plan(
    before: Map<Seq<char>, WgPeerView>,
    interface: Seq<char>,
    self_mesh_ip: Seq<char>,
    members: Seq<MeshNodeView>,
    program_routes: bool,
)
    ensures
        peers_after(before, interface, live_plan(interface, self_mesh_ip, members, program_routes))
            == peers_after(
            before,
            interface,
            add_actions(interface, mesh_peers(self_mesh_ip, members)),
        ),
{
    let adds = add_actions(interface, mesh_peers(self_mesh_ip, members));
    let routes = if program_routes {
        route_actions(interface, pod_routes(self_mesh_ip, members))
    } else {
        Seq::empty()
    };
    lemma_peers_after_append(before, interface, adds, routes);
    lemma_peers_after_routes(
        peers_after(before, interface, adds),
        interface,
        pod_routes(self_mesh_ip, members),
    );
}

proof fn lemma_routes_after_append(
    routes: Set<Seq<char>>,
    on: Seq<char>,
    first: Seq<ActionView>,
    second: Seq<ActionView>,
)
    ensures
        routes_after(routes, on, first + second) == routes_after(
            routes_after(routes, on, first),
            on,
            second,
        ),
    decreases second.len(),
{
    if second.len() == 0 {
        assert(first + second =~= first);
    } else {
        assert((first + second).drop_last() =~= first + second.drop_last());
        lemma_routes_after_append(routes, on, first, second.drop_last());
    }
}

/// Actions on peers or on a config do not touch the routes.
proof fn lemma_routes_untouched(
    routes: Set<Seq<char>>,
    on: Seq<char>,
    actions: Seq<ActionView>,
)
    requires
        forall|i: int| 0 <= i < actions.len() ==> !((#[trigger] actions[i]) is AddRoute),
    ensures
        routes_after(routes, on, actions) == routes,
    decreases actions.len(),
{
    if actions.len() > 0 {
        assert(!(actions[actions.len() - 1] is AddRoute));
        lemma_routes_untouched(routes, on, actions.drop_last());
    }
}

proof fn lemma_routes_after_installs(
    routes: Set<Seq<char>>,
    interface: Seq<char>,
    cidrs: Seq<Seq<char>>,
)
    ensures
        routes_after(routes, interface, route_actions(interface, cidrs)) == routes.union(
            cidrs.to_set(),
        ),
    decreases cidrs.len(),
{
    if cidrs.len() == 0 {
        assert(routes.union(cidrs.to_set()) =~= routes);
    } else {
        let front = cidrs.drop_last();
        lemma_routes_after_installs(routes, interface, front);
        assert(route_actions(interface, cidrs).drop_last() =~= route_actions(interface, front));
        assert(cidrs =~= front.push(cidrs.last()));
        assert forall|c: Seq<char>|
            routes.union(cidrs.to_set()).contains(c) == routes.union(front.to_set()).insert(
                cidrs.last(),
            ).contains(c) by {
            lemma_push_contains(front, cidrs.last(), c);
        }
        assert(routes.union(cidrs.to_set()) =~= routes.union(front.to_set()).insert(
            cidrs.last(),
        ));
    }
}

/// The routes after a mesh was applied.
proof fn lemma_routes_after_live_plan(
    routes: Set<Seq<char>>,
    interface: Seq<char>,
    self_mesh_ip: Seq<char>,
    members: Seq<MeshNodeView>,
    program_routes: bool,
)
    ensures
        routes_after(routes, interface, live_plan(interface, self_mesh_ip, members, program_routes))
            == routes.union(wanted_routes(self_mesh_ip, members, program_routes)),
{
    let adds = add_actions(interface, mesh_peers(self_mesh_ip, members));
    lemma_routes_untouched(routes, interface, adds);
    if program_routes {
        let cidrs = pod_routes(self_mesh_ip, members);
        lemma_routes_after_append(routes, interface, adds, route_actions(interface, cidrs));
        lemma_routes_after_installs(routes, interface, cidrs);
    } else {
        assert(live_plan(interface, self_mesh_ip, members, program_routes) =~= adds);
        assert(routes.union(Set::empty()) =~= routes);
    }
}

/// Applying a mesh is additive: the desired peers join those that the interface
/// has, and a peer that is not desired stays exactly as it was. Every route
/// that was there stays too, and the pod routes join them if they are wanted.
pub proof fn apply_is_additive(
    before: Map<Seq<char>, WgPeerView>,
    routes: Set<Seq<char>>,
    interface: Seq<char>,
    self_mesh_ip: Seq<char>,
    members: Seq<MeshNodeView>,
    program_routes: bool,
)
    ensures
        ({
            let plan = live_plan(interface, self_mesh_ip, members, program_routes);
            let after = peers_after(before, interface, plan);
            let desired = desired_keys(self_mesh_ip, members);
            &&& after.dom() == before.dom().union(desired)
            &&& forall|key: Seq<char>| #[trigger]
                before.dom().contains(key) && !desired.contains(key) ==> after[key] == before[key]
            &&& routes_after(routes, interface, plan) == routes.union(
                wanted_routes(self_mesh_ip, members, program_routes),
            )
            &&& routes.subset_of(routes_after(routes, interface, plan))
        }),
{
    let peers = mesh_peers(self_mesh_ip, members);
    let plan = live_plan(interface, self_mesh_ip, members, program_routes);
    let after = peers_after(before, interface, plan);
    lemma_peers_after_live_plan(before, interface, self_mesh_ip, members, program_routes);
    lemma_routes_after_live_plan(routes, interface, self_mesh_ip, members, program_routes);
    lemma_keys_after_adds(before, interface, peers);
    assert forall|key: Seq<char>| #[trigger]
        before.dom().contains(key) && !keys_in(peers).contains(key) implies after[key]
        == before[key] by {
        lemma_peer_after_adds(before, interface, peers, key);
    }
}

/// Applying a mesh sets each peer as it is desired, the last one of a key
/// counting: its `AllowedIPs` and keepalive are on the interface afterwards,
/// and its endpoint too, if it has one.
pub proof fn applied_peers_are_set(
    before: Map<Seq<char>, WgPeerView>,
    interface: Seq<char>,
    self_mesh_ip: Seq<char>,
    members: Seq<MeshNodeView>,
    program_routes: bool,
    i: int,
)
    requires
        0 <= i < mesh_peers(self_mesh_ip, members).len(),
        forall|j: int|
            i < j < mesh_peers(self_mesh_ip, members).len() ==> (#[trigger] mesh_peers(
                self_mesh_ip,
                members,
            )[j]).public_key != mesh_peers(self_mesh_ip, members)[i].public_key,
    ensures
        ({
            let peer = mesh_peers(self_mesh_ip, members)[i];
            let after = peers_after(
                before,
                interface,
                live_plan(interface, self_mesh_ip, members, program_routes),
            );
            &&& after.dom().contains(peer.public_key)
            &&& after[peer.public_key].allowed_ips == peer.allowed_ips
            &&& after[peer.public_key].persistent_keepalive == Some(25u16)
            &&& peer.endpoint is Some ==> after[peer.public_key].endpoint == peer.endpoint
        }),
{
    let peers = mesh_peers(self_mesh_ip, members);
    let key = peers[i].public_key;
    lemma_peers_after_live_plan(before, interface, self_mesh_ip, members, program_routes);
    lemma_peer_after_adds(before, interface, peers, key);
    assert(peers.map_values(|p: WgPeerView| p.public_key)[i] == key);
    lemma_last_of_its_key(peers, i);
}

/// The last peer with a key is the one whose settings are the last.
proof fn lemma_last_of_its_key(peers: Seq<WgPeerView>, i: int)
    requires
        0 <= i < peers.len(),
        forall|j: int|
            i < j < peers.len() ==> (#[trigger] peers[j]).public_key != peers[i].public_key,
    ensures
        last_allowed_ips(peers, peers[i].public_key) == Some(peers[i].allowed_ips),
        peers[i].endpoint is Some ==> last_endpoint(peers, peers[i].public_key)
            == peers[i].endpoint,
        peers[i].persistent_keepalive is Some ==> last_keepalive(peers, peers[i].public_key)
            == peers[i].persistent_keepalive,
    decreases peers.len(),
{
    if i < peers.len() - 1 {
        assert(peers[peers.len() - 1].public_key != peers[i].public_key);
        let front = peers.drop_last();
        assert forall|j: int| i < j < front.len() implies (#[trigger] front[j]).public_key
            != front[i].public_key by {
            assert(peers[j].public_key != peers[i].public_key);
        }
        lemma_last_of_its_key(front, i);
    }
}

/// Applying the same mesh again leaves the peers of the interface and its
/// routes exactly as they are.
pub proof fn apply_is_idempotent(
    before: Map<Seq<char>, WgPeerView>,
    routes: Set<Seq<char>>,
    interface: Seq<char>,
    self_mesh_ip: Seq<char>,
    members: Seq<MeshNodeView>,
    program_routes: bool,
)
    ensures
        ({
            let plan = live_plan(interface, self_mesh_ip, members, program_routes);
            let once = peers_after(before, interface, plan);
            let routes_once = routes_after(routes, interface, plan);
            &&& peers_after(once, interface, plan) == once
            &&& routes_after(routes_once, interface, plan) == routes_once
        }),
{
    let plan = live_plan(interface, self_mesh_ip, members, program_routes);
    let peers = mesh_peers(self_mesh_ip, members);
    let once = peers_after(before, interface, plan);
    let twice = peers_after(once, interface, plan);
    lemma_peers_after_live_plan(before, interface, self_mesh_ip, members, program_routes);
    lemma_peers_after_live_plan(once, interface, self_mesh_ip, members, program_routes);
    assert forall|key: Seq<char>| known_peer(twice, key) == known_peer(once, key) by {
        lemma_peer_after_adds(before, interface, peers, key);
        lemma_peer_after_adds(once, interface, peers, key);
    }
    assert forall|key: Seq<char>| twice.dom().contains(key) == once.dom().contains(key) by {
        assert(known_peer(twice, key) == known_peer(once, key));
    }
    assert forall|key: Seq<char>| twice.dom().contains(key) implies #[trigger] twice[key]
        == once[key] by {
        assert(known_peer(twice, key) == known_peer(once, key));
    }
    assert(twice =~= once);
    lemma_routes_after_live_plan(routes, interface, self_mesh_ip, members, program_routes);
    lemma_routes_after_live_plan(
        routes_after(routes, interface, plan),
        interface,
        self_mesh_ip,
        members,
        program_routes,
    );
    let routes_once = routes_after(routes, interface, plan);
    assert(routes_after(routes_once, interface, plan) =~= routes_once);
}

/// Reconciling converges: afterwards the peers of the interface are exactly the
/// desired ones and those of the old ones that are protected, and the latter
/// stay as they were unless they are desired too. Routes are only ever added.
pub proof fn reconcile_converges(
    before: Map<Seq<char>, WgPeerView>,
    routes: Set<Seq<char>>,
    interface: Seq<char>,
    self_mesh_ip: Seq<char>,
    members: Seq<MeshNodeView>,
    current: Seq<Seq<char>>,
    protected: Set<Seq<char>>,
    program_routes: bool,
)
    requires
        current.to_set() == before.dom(),
    ensures
        ({
            let plan = reconcile_plan(
                interface,
                self_mesh_ip,
                members,
                current,
                protected,
                program_routes,
            );
            let after = peers_after(before, interface, plan);
            let desired = desired_keys(self_mesh_ip, members);
            &&& after.dom() == desired.union(before.dom().intersect(protected))
            &&& forall|key: Seq<char>| #[trigger]
                after.dom().contains(key) && !desired.contains(key) ==> after[key] == before[key]
            &&& routes_after(routes, interface, plan) == routes.union(
                wanted_routes(self_mesh_ip, members, program_routes),
            )
        }),
{
    let desired = desired_keys(self_mesh_ip, members);
    let departed = departed_keys(current, desired, protected);
    let removals = remove_actions(interface, departed);
    let live = live_plan(interface, self_mesh_ip, members, program_routes);
    let kept = peers_after(before, interface, removals);
    lemma_peers_after_append(before, interface, removals, live);
    lemma_peers_after_removals(before, interface, departed);
    lemma_routes_after_append(routes, interface, removals, live);
    lemma_routes_untouched(routes, interface, removals);
    apply_is_additive(kept, routes, interface, self_mesh_ip, members, program_routes);
    let after = peers_after(kept, interface, live);
    assert forall|k: Seq<char>|
        after.dom().contains(k) == desired.union(before.dom().intersect(protected)).contains(
            k,
        ) by {
        pruned_keys(current, desired, protected, k);
        assert(current.to_set().contains(k) == current.contains(k));
        assert(departed.to_set().contains(k) == departed.contains(k));
    }
    assert(after.dom() =~= desired.union(before.dom().intersect(protected)));
    assert forall|key: Seq<char>| #[trigger]
        after.dom().contains(key) && !desired.contains(key) implies after[key] == before[key] by {
        assert(kept.dom().contains(key));
    }
}

/// Reconciling again, with the peers that the first time left, prunes nothing
/// and changes no peer and no route.
pub proof fn reconcile_is_idempotent(
    before: Map<Seq<char>, WgPeerView>,
    routes: Set<Seq<char>>,
    interface: Seq<char>,
    self_mesh_ip: Seq<char>,
    members: Seq<MeshNodeView>,
    current: Seq<Seq<char>>,
    later: Seq<Seq<char>>,
    protected: Set<Seq<char>>,
    program_routes: bool,
)
    requires
        current.to_set() == before.dom(),
        later.to_set() == peers_after(
            before,
            interface,
            reconcile_plan(interface, self_mesh_ip, members, current, protected, program_routes),
        ).dom(),
    ensures
        departed_keys(later, desired_keys(self_mesh_ip, members), protected).len() == 0,
        ({
            let first = reconcile_plan(
                interface,
                self_mesh_ip,
                members,
                current,
                protected,
                program_routes,
            );
            let second = reconcile_plan(
                interface,
                self_mesh_ip,
                members,
                later,
                protected,
                program_routes,
            );
            let once = peers_after(before, interface, first);
            let routes_once = routes_after(routes, interface, first);
            &&& peers_after(once, interface, second) == once
            &&& routes_after(routes_once, interface, second) == routes_once
        }),
{
    let desired = desired_keys(self_mesh_ip, members);
    reconcile_converges(
        before,
        routes,
        interface,
        self_mesh_ip,
        members,
        current,
        protected,
        program_routes,
    );
    let gone = departed_keys(later, desired, protected);
    if gone.len() > 0 {
        assert(gone.contains(gone[0]));
        pruned_keys(later, desired, protected, gone[0]);
        assert(later.to_set().contains(gone[0]));
    }
    let removals = remove_actions(interface, departed_keys(current, desired, protected));
    let live = live_plan(interface, self_mesh_ip, members, program_routes);
    let kept = peers_after(before, interface, removals);
    lemma_peers_after_append(before, interface, removals, live);
    lemma_routes_after_append(routes, interface, removals, live);
    lemma_routes_untouched(routes, interface, removals);
    apply_is_idempotent(kept, routes, interface, self_mesh_ip, members, program_routes);
    assert(remove_actions(interface, gone) + live =~= live);
}

/// Persisting is additive, whatever a config makes of a peer that it knows:
/// every peer is in the config afterwards, and one that was there under another
/// key stays exactly as it was.
pub proof fn persist_is_additive(
    config: Map<Seq<char>, WgPeerView>,
    peers: Seq<WgPeerView>,
    upsert: spec_fn(Option<WgPeerView>, WgPeerView) -> WgPeerView,
)
    ensures
        ({
            let after = config_after(config, persist_plan(peers), upsert);
            &&& after.dom() == config.dom().union(keys_in(peers))
            &&& forall|key: Seq<char>| #[trigger]
                config.dom().contains(key) && !keys_in(peers).contains(key) ==> after[key]
                    == config[key]
        }),
{
    lemma_config_after_persist(config, peers, upsert);
    lemma_config_after_upserts(config, peers, upsert);
}

/// A config that makes of a peer what an interface makes of it stays in step
/// with the interface: where both hold the same peers before a mesh is
/// persisted and applied, they hold the same peers afterwards.
pub proof fn config_keeps_step_with_the_interface(
    before: Map<Seq<char>, WgPeerView>,
    interface: Seq<char>,
    self_mesh_ip: Seq<char>,
    members: Seq<MeshNodeView>,
    program_routes: bool,
)
    ensures
        config_after(
            before,
            persist_plan(mesh_peers(self_mesh_ip, members)),
            |known: Option<WgPeerView>, peer: WgPeerView| set_peer(known, peer),
        ) == peers_after(
            before,
            interface,
            live_plan(interface, self_mesh_ip, members, program_routes),
        ),
{
    let peers = mesh_peers(self_mesh_ip, members);
    let upsert = |known: Option<WgPeerView>, peer: WgPeerView| set_peer(known, peer);
    lemma_config_after_persist(before, peers, upsert);
    lemma_peers_after_live_plan(before, interface, self_mesh_ip, members, program_routes);
    lemma_upserts_like_adds(before, interface, peers, upsert);
}

proof fn lemma_upserts_like_adds(
    before: Map<Seq<char>, WgPeerView>,
    interface: Seq<char>,
    peers: Seq<WgPeerView>,
    upsert: spec_fn(Option<WgPeerView>, WgPeerView) -> WgPeerView,
)
    requires
        forall|known: Option<WgPeerView>, peer: WgPeerView| #[trigger]
            upsert(known, peer) == set_peer(known, peer),
    ensures
        config_after(before, upsert_actions(peers), upsert) == peers_after(
            before,
            interface,
            add_actions(interface, peers),
        ),
    decreases peers.len(),
{
    if peers.len() > 0 {
        let front = peers.drop_last();
        lemma_upserts_like_adds(before, interface, front, upsert);
        assert(upsert_actions(peers).drop_last() =~= upsert_actions(front));
        assert(add_actions(interface, peers).drop_last() =~= add_actions(interface, front));
    }
}

/// Finding, reading and writing a config changes no peer in it.
proof fn lemma_config_after_persist(
    config: Map<Seq<char>, WgPeerView>,
    peers: Seq<WgPeerView>,
    upsert: spec_fn(Option<WgPeerView>, WgPeerView) -> WgPeerView,
)
    ensures
        config_after(config, persist_plan(peers), upsert) == config_after(
            config,
            upsert_actions(peers),
            upsert,
        ),
{
    let start = seq![ActionView::FindConfig, ActionView::ReadConfig];
    let end = seq![ActionView::WriteConfig];
    let none = Seq::<ActionView>::empty();
    assert(none + start =~= start);
    lemma_config_untouched(config, none, start, upsert);
    lemma_config_after_append(config, start, upsert_actions(peers), upsert);
    lemma_config_untouched(config, start + upsert_actions(peers), end, upsert);
}

proof fn lemma_config_after_append(
    config: Map<Seq<char>, WgPeerView>,
    first: Seq<ActionView>,
    second: Seq<ActionView>,
    upsert: spec_fn(Option<WgPeerView>, WgPeerView) -> WgPeerView,
)
    ensures
        config_after(config, first + second, upsert) == config_after(
            config_after(config, first, upsert),
            second,
            upsert,
        ),
    decreases second.len(),
{
    if second.len() == 0 {
        assert(first + second =~= first);
    } else {
        assert((first + second).drop_last() =~= first + second.drop_last());
        lemma_config_after_append(config, first, second.drop_last(), upsert);
    }
}

/// What a config holds after peers were put into it.
proof fn lemma_config_after_upserts(
    config: Map<Seq<char>, WgPeerView>,
    peers: Seq<WgPeerView>,
    upsert: spec_fn(Option<WgPeerView>, WgPeerView) -> WgPeerView,
)
    ensures
        ({
            let after = config_after(config, upsert_actions(peers), upsert);
            &&& after.dom() == config.dom().union(keys_in(peers))
            &&& forall|key: Seq<char>| #[trigger]
                config.dom().contains(key) && !keys_in(peers).contains(key) ==> after[key]
                    == config[key]
            &&& forall|key: Seq<char>| #[trigger]
                keys_in(peers).contains(key) && sets_allowed_ips(upsert) ==> last_allowed_ips(
                    peers,
                    key,
                ) == Some(after[key].allowed_ips)
        }),
    decreases peers.len(),
{
    let after = config_after(config, upsert_actions(peers), upsert);
    if peers.len() == 0 {
        assert(config.dom().union(keys_in(peers)) =~= config.dom());
    } else {
        let front = peers.drop_last();
        lemma_config_after_upserts(config, front, upsert);
        lemma_keys_in_step(peers);
        assert(upsert_actions(peers).drop_last() =~= upsert_actions(front));
        assert(after.dom() =~= config.dom().union(keys_in(peers)));
    }
}

/// Whether a config takes over the `AllowedIPs` of a peer that is put in.
pub open spec fn sets_allowed_ips(
    upsert: spec_fn(Option<WgPeerView>, WgPeerView) -> WgPeerView,
) -> bool {
    forall|known: Option<WgPeerView>, peer: WgPeerView|
        (#[trigger] upsert(known, peer)).allowed_ips == peer.allowed_ips
}

/// A durable run that nothing disturbs puts every desired peer both into the
/// config and on the interface. Neither loses or changes a peer under another
/// key, no route is lost, and a config that takes over the `AllowedIPs` of what
/// is put in has the same ones for every desired peer as the interface.
pub proof fn durable_apply_persists_what_it_applies<E>(
    run: RunView<E>,
    events: Seq<MeshEvent<E>>,
    interface: Seq<char>,
    self_mesh_ip: Seq<char>,
    members: Seq<MeshNodeView>,
    program_routes: bool,
    config: Map<Seq<char>, WgPeerView>,
    upsert: spec_fn(Option<WgPeerView>, WgPeerView) -> WgPeerView,
    before: Map<Seq<char>, WgPeerView>,
    routes: Set<Seq<char>>,
)
    requires
        run.error is None,
        run.persist == persist_plan(mesh_peers(self_mesh_ip, members)),
        run.live == live_plan(interface, self_mesh_ip, members, program_routes),
        events.len() == run.pending().len(),
        forall|i: int| 0 <= i < events.len() ==> #[trigger] events[i] is Done,
    ensures
        ({
            let desired = desired_keys(self_mesh_ip, members);
            let stored = config_after(config, run.performed(events), upsert);
            let live = peers_after(before, interface, run.performed(events));
            &&& stored.dom() == config.dom().union(desired)
            &&& live.dom() == before.dom().union(desired)
            &&& forall|key: Seq<char>| #[trigger]
                config.dom().contains(key) && !desired.contains(key) ==> stored[key] == config[key]
            &&& forall|key: Seq<char>| #[trigger]
                before.dom().contains(key) && !desired.contains(key) ==> live[key] == before[key]
            &&& forall|key: Seq<char>| #[trigger]
                desired.contains(key) && sets_allowed_ips(upsert) ==> stored[key].allowed_ips
                    == live[key].allowed_ips
            &&& routes_after(routes, interface, run.performed(events)) == routes.union(
                wanted_routes(self_mesh_ip, members, program_routes),
            )
        }),
{
    let peers = mesh_peers(self_mesh_ip, members);
    let desired = desired_keys(self_mesh_ip, members);
    undisturbed_run_does_everything(run, events);
    lemma_config_after_persist(config, peers, upsert);
    lemma_config_after_upserts(config, peers, upsert);
    lemma_config_untouched(config, run.persist, run.live, upsert);
    lemma_peers_untouched(before, interface, run.persist);
    lemma_peers_after_append(before, interface, run.persist, run.live);
    lemma_routes_untouched(routes, interface, run.persist);
    lemma_routes_after_append(routes, interface, run.persist, run.live);
    apply_is_additive(before, routes, interface, self_mesh_ip, members, program_routes);
    lemma_peers_after_live_plan(before, interface, self_mesh_ip, members, program_routes);
    let stored = config_after(config, run.performed(events), upsert);
    let live = peers_after(before, interface, run.performed(events));
    assert forall|key: Seq<char>| #[trigger]
        desired.contains(key) && sets_allowed_ips(upsert) implies stored[key].allowed_ips
        == live[key].allowed_ips by {
        assert(keys_in(peers).contains(key));
        lemma_peer_after_adds(before, interface, peers, key);
    }
}

/// Actions on an interface do not touch its config, nor does looking at it or
/// writing it.
proof fn lemma_config_untouched(
    config: Map<Seq<char>, WgPeerView>,
    first: Seq<ActionView>,
    second: Seq<ActionView>,
    upsert: spec_fn(Option<WgPeerView>, WgPeerView) -> WgPeerView,
)
    requires
        forall|i: int| 0 <= i < second.len() ==> !((#[trigger] second[i]) is UpsertPeer),
    ensures
        config_after(config, first + second, upsert) == config_after(config, first, upsert),
    decreases second.len(),
{
    if second.len() == 0 {
        assert(first + second =~= first);
    } else {
        assert((first + second).drop_last() =~= first + second.drop_last());
        assert(!(second[second.len() - 1] is UpsertPeer));
        lemma_config_untouched(config, first, second.drop_last(), upsert);
    }
}

/// Actions on a config do not touch the interface.
proof fn lemma_peers_untouched(
    before: Map<Seq<char>, WgPeerView>,
    on: Seq<char>,
    persist: Seq<ActionView>,
)
    requires
        forall|i: int|
            0 <= i < persist.len() ==> !((#[trigger] persist[i]) is AddPeer)
                && !(persist[i] is RemovePeer),
    ensures
        peers_after(before, on, persist) == before,
    decreases persist.len(),
{
    if persist.len() > 0 {
        assert(!(persist[persist.len() - 1] is AddPeer));
        lemma_peers_untouched(before, on, persist.drop_last());
    }
}

} // verus!
