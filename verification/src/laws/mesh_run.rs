//! Laws of the runs that apply and persist a mesh, told from the actions that
//! their drivers perform.
use crate::laws::text::contents_of_slices;
use crate::mesh::{
    mesh_peers, mesh_peers_for, mesh_pod_routes, node_views, peer_views, peers_to_prune, MeshNode,
    WgPeer, WgPeerView,
};
use crate::mesh_run::{
    apply_mesh, apply_mesh_durable, missing_config_is_not_fabricated, peers_after,
    persist_mesh_peers, reconcile_mesh, routes_after, undisturbed_run_does_everything, ActionView,
    MeshAction, MeshEvent, MeshRun, RunView,
};
use crate::text::texts;
use vstd::prelude::*;

verus! {

/// Whether every action succeeded.
pub open spec fn all_done<E>(events: Seq<MeshEvent<E>>) -> bool {
    forall|i: int| 0 <= i < events.len() ==> #[trigger] events[i] is Done
}

/// The contents of a peer are those of its fields.
pub proof fn contents_of_a_peer(p: WgPeer)
    ensures
        p@.public_key == p.public_key@,
        p@.allowed_ips == p.allowed_ips@,
        p.endpoint is None ==> p@.endpoint is None,
        p.endpoint is Some ==> p@.endpoint == Some(p.endpoint->0@),
        p@.persistent_keepalive == p.persistent_keepalive,
{
}

/// The contents of an action are those of its fields.
pub proof fn contents_of_an_action(a: MeshAction)
    ensures
        match a {
            MeshAction::RemovePeer { interface, public_key } => a@ == (ActionView::RemovePeer {
                interface: interface@,
                public_key: public_key@,
            }),
            MeshAction::AddPeer { interface, peer } => a@ == (ActionView::AddPeer {
                interface: interface@,
                peer: peer@,
            }),
            MeshAction::AddRoute { interface, cidr } => a@ == (ActionView::AddRoute {
                interface: interface@,
                cidr: cidr@,
            }),
            MeshAction::FindConfig => a@ == ActionView::FindConfig,
            MeshAction::ReadConfig => a@ == ActionView::ReadConfig,
            MeshAction::UpsertPeer { peer } => a@ == (ActionView::UpsertPeer { peer: peer@ }),
            MeshAction::WriteConfig => a@ == ActionView::WriteConfig,
        },
{
}

/// A run that is applied adds every peer of the node to the interface that was
/// asked for, in order, and after that installs every pod route over that
/// interface, if routes were asked for, and nothing else. It reports how many
/// peers there are, and none pruned.
pub proof fn apply_adds_peers_to_the_interface<E>(
    interface: &str,
    ip: &str,
    members: &[MeshNode],
    program_routes: bool,
    run: MeshRun<E>,
    peers: Vec<WgPeer>,
    routes: Vec<&str>,
    events: Seq<MeshEvent<E>>,
)
    requires
        call_ensures(apply_mesh::<E>, (interface, ip, members, program_routes), run),
        call_ensures(mesh_peers_for, (ip, members), peers),
        call_ensures(mesh_pod_routes, (ip, members), routes),
        all_done(events),
        events.len() == peers@.len() + if program_routes {
            routes@.len()
        } else {
            0
        },
    ensures
        ({
            let performed = run@.performed(events);
            &&& performed.len() == events.len()
            &&& forall|i: int|
                0 <= i < peers@.len() ==> #[trigger] performed[i] == (ActionView::AddPeer {
                    interface: interface@,
                    peer: peers@[i]@,
                })
            &&& forall|i: int|
                peers@.len() <= i < events.len() ==> #[trigger] performed[i] == (
                ActionView::AddRoute {
                    interface: interface@,
                    cidr: routes@[i - peers@.len()]@,
                })
            &&& run@.after(events).outcome() == Some(Ok::<(nat, nat), E>((peers@.len(), 0)))
        }),
{
    contents_of_slices(routes@);
    assert(peer_views(peers@).len() == peers@.len());
    assert(run@.pending() =~= run@.live);
    undisturbed_run_does_everything(run@, events);
    let performed = run@.performed(events);
    assert forall|i: int| 0 <= i < peers@.len() implies #[trigger] performed[i] == (
    ActionView::AddPeer { interface: interface@, peer: peers@[i]@ }) by {
        assert(peer_views(peers@)[i] == peers@[i]@);
    }
    assert forall|i: int| peers@.len() <= i < events.len() implies #[trigger] performed[i] == (
    ActionView::AddRoute { interface: interface@, cidr: routes@[i - peers@.len()]@ }) by {
        assert(texts(routes@)[i - peers@.len()] == routes@[i - peers@.len()]@);
    }
}

/// Persisting looks for the config, reads it once, puts every peer in, in
/// order, and writes it once, and does nothing else.
pub proof fn persist_puts_every_peer_in<E>(
    peers: &[WgPeer],
    run: MeshRun<E>,
    events: Seq<MeshEvent<E>>,
)
    requires
        call_ensures(persist_mesh_peers::<E>, (peers,), run),
        all_done(events),
        events.len() == peers@.len() + 3,
    ensures
        ({
            let performed = run@.performed(events);
            &&& performed.len() == events.len()
            &&& performed[0] == ActionView::FindConfig
            &&& performed[1] == ActionView::ReadConfig
            &&& forall|i: int|
                2 <= i < events.len() - 1 ==> #[trigger] performed[i] == (ActionView::UpsertPeer {
                    peer: peers@[i - 2]@,
                })
            &&& performed[events.len() - 1] == ActionView::WriteConfig
            &&& run@.after(events).outcome() == Some(Ok::<(nat, nat), E>((0, 0)))
        }),
{
    assert(peer_views(peers@).len() == peers@.len());
    assert(run@.pending() =~= run@.persist);
    undisturbed_run_does_everything(run@, events);
    let performed = run@.performed(events);
    assert forall|i: int| 2 <= i < events.len() - 1 implies #[trigger] performed[i] == (
    ActionView::UpsertPeer { peer: peers@[i - 2]@ }) by {
        assert(peer_views(peers@)[i - 2] == peers@[i - 2]@);
    }
}

/// A durable run first does what persisting the node's peers does, and only
/// then what applying the mesh does, and reports what applying reports.
pub proof fn durable_apply_persists_and_then_applies<E>(
    interface: &str,
    ip: &str,
    members: &[MeshNode],
    program_routes: bool,
    run: MeshRun<E>,
    peers: Vec<WgPeer>,
    stored: &[WgPeer],
    persist: MeshRun<E>,
    apply: MeshRun<E>,
    first: Seq<MeshEvent<E>>,
    second: Seq<MeshEvent<E>>,
)
    requires
        call_ensures(apply_mesh_durable::<E>, (interface, ip, members, program_routes), run),
        call_ensures(mesh_peers_for, (ip, members), peers),
        stored@ == peers@,
        call_ensures(persist_mesh_peers::<E>, (stored,), persist),
        call_ensures(apply_mesh::<E>, (interface, ip, members, program_routes), apply),
        all_done(first),
        all_done(second),
        first.len() == persist@.pending().len(),
        second.len() == apply@.pending().len(),
    ensures
        run@.performed(first + second) == persist@.performed(first) + apply@.performed(second),
        run@.after(first + second).outcome() == apply@.after(second).outcome(),
        run@.after(first + second).outcome() == Some(Ok::<(nat, nat), E>((peers@.len(), 0))),
{
    assert(peer_views(peers@).len() == peers@.len());
    assert(persist@.pending() =~= persist@.persist);
    assert(apply@.pending() =~= apply@.live);
    undisturbed_run_does_everything(persist@, first);
    undisturbed_run_does_everything(apply@, second);
    assert(all_done(first + second));
    undisturbed_run_does_everything(run@, first + second);
    assert(run@.pending() =~= persist@.pending() + apply@.pending());
}

/// Where a durable run finds no config, that is all it does about it: after the
/// look it does what applying the mesh does, and reports the same.
pub proof fn missing_config_leaves_the_rest<E>(
    interface: &str,
    ip: &str,
    members: &[MeshNode],
    program_routes: bool,
    run: MeshRun<E>,
    apply: MeshRun<E>,
    missing: Seq<MeshEvent<E>>,
    rest: Seq<MeshEvent<E>>,
)
    requires
        call_ensures(apply_mesh_durable::<E>, (interface, ip, members, program_routes), run),
        call_ensures(apply_mesh::<E>, (interface, ip, members, program_routes), apply),
        missing.len() == 1,
        missing[0] is ConfigMissing,
        all_done(rest),
        rest.len() == apply@.pending().len(),
    ensures
        run@.performed(missing + rest) == seq![ActionView::FindConfig] + apply@.performed(rest),
        run@.after(missing + rest).outcome() == apply@.after(rest).outcome(),
{
    let events = missing + rest;
    assert(apply@.pending() =~= apply@.live);
    undisturbed_run_does_everything(apply@, rest);
    assert forall|i: int| 1 <= i < events.len() implies #[trigger] events[i] is Done by {
        assert(events[i] == rest[i - 1]);
    }
    missing_config_is_not_fabricated(
        run@,
        mesh_peers(ip@, node_views(members@)),
        events,
    );
}

/// A reconciling run first removes the departed keys from the interface that
/// was asked for, in order, and after that does what applying the mesh does. It
/// reports how many peers the node has, and how many keys were removed.
pub proof fn reconcile_removes_and_then_applies<E>(
    interface: &str,
    ip: &str,
    members: &[MeshNode],
    current: &[String],
    protected: &[String],
    program_routes: bool,
    run: MeshRun<E>,
    peers: Vec<WgPeer>,
    gone: Vec<&str>,
    apply: MeshRun<E>,
    first: Seq<MeshEvent<E>>,
    second: Seq<MeshEvent<E>>,
)
    requires
        call_ensures(
            reconcile_mesh::<E>,
            (interface, ip, members, current, protected, program_routes),
            run,
        ),
        call_ensures(mesh_peers_for, (ip, members), peers),
        call_ensures(peers_to_prune, (current, ip, members, protected), gone),
        call_ensures(apply_mesh::<E>, (interface, ip, members, program_routes), apply),
        all_done(first),
        all_done(second),
        first.len() == gone@.len(),
        second.len() == apply@.pending().len(),
    ensures
        ({
            let performed = run@.performed(first + second);
            &&& performed.len() == first.len() + second.len()
            &&& forall|i: int|
                0 <= i < gone@.len() ==> #[trigger] performed[i] == (ActionView::RemovePeer {
                    interface: interface@,
                    public_key: gone@[i]@,
                })
            &&& performed.skip(gone@.len() as int) == apply@.performed(second)
            &&& run@.after(first + second).outcome() == Some(
                Ok::<(nat, nat), E>((peers@.len(), gone@.len())),
            )
        }),
{
    contents_of_slices(gone@);
    assert(peer_views(peers@).len() == peers@.len());
    assert(apply@.pending() =~= apply@.live);
    assert(run@.pending() =~= run@.live);
    undisturbed_run_does_everything(apply@, second);
    assert(all_done(first + second));
    undisturbed_run_does_everything(run@, first + second);
    let performed = run@.performed(first + second);
    assert forall|i: int| 0 <= i < gone@.len() implies #[trigger] performed[i] == (
    ActionView::RemovePeer { interface: interface@, public_key: gone@[i]@ }) by {
        assert(texts(gone@)[i] == gone@[i]@);
    }
    assert(performed.skip(gone@.len() as int) =~= apply@.performed(second));
}

/// Whether an action touches an interface other than `interface`.
pub open spec fn is_elsewhere(action: ActionView, interface: Seq<char>) -> bool {
    match action {
        ActionView::AddPeer { interface: on, .. } => on != interface,
        ActionView::RemovePeer { interface: on, .. } => on != interface,
        ActionView::AddRoute { interface: on, .. } => on != interface,
        _ => false,
    }
}

/// Every action that any of the runs has to do on an interface is on the one
/// that was asked for.
pub proof fn runs_keep_to_their_interface<E>(
    interface: &str,
    ip: &str,
    members: &[MeshNode],
    current: &[String],
    protected: &[String],
    program_routes: bool,
    apply: MeshRun<E>,
    durable: MeshRun<E>,
    reconcile: MeshRun<E>,
    i: int,
)
    requires
        call_ensures(apply_mesh::<E>, (interface, ip, members, program_routes), apply),
        call_ensures(apply_mesh_durable::<E>, (interface, ip, members, program_routes), durable),
        call_ensures(
            reconcile_mesh::<E>,
            (interface, ip, members, current, protected, program_routes),
            reconcile,
        ),
    ensures
        0 <= i < apply@.pending().len() ==> !is_elsewhere(apply@.pending()[i], interface@),
        0 <= i < durable@.pending().len() ==> !is_elsewhere(durable@.pending()[i], interface@),
        0 <= i < reconcile@.pending().len() ==> !is_elsewhere(reconcile@.pending()[i], interface@),
{
}

/// Actions on other interfaces leave the peers and the routes of an interface
/// alone.
proof fn lemma_untouched_elsewhere(
    peers: Map<Seq<char>, WgPeerView>,
    routes: Set<Seq<char>>,
    other: Seq<char>,
    interface: Seq<char>,
    actions: Seq<ActionView>,
)
    requires
        other != interface,
        forall|i: int| 0 <= i < actions.len() ==> !is_elsewhere(#[trigger] actions[i], interface),
    ensures
        peers_after(peers, other, actions) == peers,
        routes_after(routes, other, actions) == routes,
    decreases actions.len(),
{
    if actions.len() > 0 {
        assert(!is_elsewhere(actions[actions.len() - 1], interface));
        let front = actions.drop_last();
        assert forall|i: int| 0 <= i < front.len() implies !is_elsewhere(
            #[trigger] front[i],
            interface,
        ) by {
            assert(!is_elsewhere(actions[i], interface));
        }
        lemma_untouched_elsewhere(peers, routes, other, interface, front);
    }
}

/// No run changes a peer or a route of another interface than the one that was
/// asked for.
pub proof fn other_interfaces_are_left_alone<E>(
    interface: &str,
    ip: &str,
    members: &[MeshNode],
    current: &[String],
    protected: &[String],
    program_routes: bool,
    apply: MeshRun<E>,
    durable: MeshRun<E>,
    reconcile: MeshRun<E>,
    other: Seq<char>,
    peers: Map<Seq<char>, WgPeerView>,
    routes: Set<Seq<char>>,
)
    requires
        call_ensures(apply_mesh::<E>, (interface, ip, members, program_routes), apply),
        call_ensures(apply_mesh_durable::<E>, (interface, ip, members, program_routes), durable),
        call_ensures(
            reconcile_mesh::<E>,
            (interface, ip, members, current, protected, program_routes),
            reconcile,
        ),
        other != interface@,
    ensures
        peers_after(peers, other, apply@.pending()) == peers,
        routes_after(routes, other, apply@.pending()) == routes,
        peers_after(peers, other, durable@.pending()) == peers,
        routes_after(routes, other, durable@.pending()) == routes,
        peers_after(peers, other, reconcile@.pending()) == peers,
        routes_after(routes, other, reconcile@.pending()) == routes,
{
    assert forall|i: int| 0 <= i < apply@.pending().len() implies !is_elsewhere(
        #[trigger] apply@.pending()[i],
        interface@,
    ) by {
        runs_keep_to_their_interface(
            interface,
            ip,
            members,
            current,
            protected,
            program_routes,
            apply,
            durable,
            reconcile,
            i,
        );
    }
    assert forall|i: int| 0 <= i < durable@.pending().len() implies !is_elsewhere(
        #[trigger] durable@.pending()[i],
        interface@,
    ) by {
        runs_keep_to_their_interface(
            interface,
            ip,
            members,
            current,
            protected,
            program_routes,
            apply,
            durable,
            reconcile,
            i,
        );
    }
    assert forall|i: int| 0 <= i < reconcile@.pending().len() implies !is_elsewhere(
        #[trigger] reconcile@.pending()[i],
        interface@,
    ) by {
        runs_keep_to_their_interface(
            interface,
            ip,
            members,
            current,
            protected,
            program_routes,
            apply,
            durable,
            reconcile,
            i,
        );
    }
    lemma_untouched_elsewhere(peers, routes, other, interface@, apply@.pending());
    lemma_untouched_elsewhere(peers, routes, other, interface@, durable@.pending());
    lemma_untouched_elsewhere(peers, routes, other, interface@, reconcile@.pending());
}

/// A run has either something to do or something to report, and what it has to
/// do is the first of what is left.
pub proof fn a_run_acts_or_reports<E>(
    run: MeshRun<E>,
    action: Option<&MeshAction>,
    outcome: Option<Result<(usize, usize), E>>,
)
    requires
        call_ensures(MeshRun::<E>::next, (&run,), action),
        call_ensures(MeshRun::<E>::outcome, (run,), outcome),
    ensures
        action is Some <==> outcome is None,
        action is Some ==> run@.pending().len() > 0 && action->0@ == run@.pending()[0],
        outcome matches Some(Ok(counts)) ==> run@.pending().len() == 0 && counts.0 == run@.added
            && counts.1 == run@.pruned,
        outcome matches Some(Err(e)) ==> run@.error == Some(e),
{
}

/// What an event makes of a run that has something to do. Success takes that
/// off what is left, and nothing else; a failure leaves nothing to do and is
/// what is reported; neither changes the numbers.
pub proof fn an_event_moves_a_run_on<E>(run: &mut MeshRun<E>, event: MeshEvent<E>)
    requires
        call_ensures(MeshRun::<E>::step, (run, event), ()),
        old(run)@.next() is Some,
    ensures
        final(run)@.added == old(run)@.added,
        final(run)@.pruned == old(run)@.pruned,
        event is Done ==> final(run)@.pending() == old(run)@.pending().skip(1),
        event is Done ==> final(run)@.error is None,
        event is Failed ==> final(run)@.next() is None,
        event matches MeshEvent::Failed(e) ==> final(run)@.outcome() == Some(
            Err::<(nat, nat), E>(e),
        ),
        event is ConfigMissing && old(run)@.next() != Some(ActionView::FindConfig) ==> final(run)@
            == old(run)@,
        event is ConfigMissing ==> final(run)@.live == old(run)@.live && final(run)@.error is None,
{
    let before = old(run)@;
    if event is Done {
        assert(before.step(event).pending() =~= before.pending().skip(1));
    }
}

/// Once a run is over, no event changes it.
pub proof fn a_run_that_is_over_stays<E>(run: &mut MeshRun<E>, event: MeshEvent<E>)
    requires
        call_ensures(MeshRun::<E>::step, (run, event), ()),
        old(run)@.next() is None,
    ensures
        final(run)@ == old(run)@,
{
}

/// A run stops at the first failure, wherever it is, and at no other time: it
/// has something to do exactly as long as no action failed and something is
/// left.
pub proof fn runs_stop_only_when_done_or_failed<E>(run: RunView<E>)
    ensures
        run.next() is Some <==> run.error is None && run.persist.len() + run.live.len() > 0,
        run.persist.len() > 0 && run.error is None ==> run.next() == Some(run.persist[0]),
        run.persist.len() == 0 && run.live.len() > 0 && run.error is None ==> run.next() == Some(
            run.live[0],
        ),
{
}

} // verus!
