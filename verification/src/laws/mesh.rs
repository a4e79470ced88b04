//! Laws of a node's peers, pod routes and departed peers.
use crate::laws::text::{
    all_white, blank_texts, contents_of_slices, contents_of_strings, has_name, names_in_a_set,
};
use crate::mesh::{
    advertises_pods, departed_keys, desired_keys, is_remote, mesh_peers, mesh_peers_for,
    mesh_pod_routes, node_views, peer_allowed_ips, peer_of, peer_views, peers_to_prune, pod_routes,
    MeshNode, MeshNodeView, WgPeer, WgPeerView,
};
use crate::names::name_set;
use crate::text::{lemma_filter_contains, lemma_filter_push, strings, texts, trimmed};
use vstd::prelude::*;

verus! {

/// Whether a member names a pod CIDR, and not just white space.
pub open spec fn names_pods(n: MeshNode) -> bool {
    n.pod_cidr is Some && !all_white(n.pod_cidr->0@)
}

/// Whether a member stands at another address than `ip`, white space around
/// either left aside.
pub open spec fn stands_elsewhere(ip: Seq<char>, n: MeshNode) -> bool {
    trimmed(n.mesh_ip@) != trimmed(ip)
}

/// Whether two peers are set alike.
pub open spec fn same_peer(p: WgPeer, q: WgPeer) -> bool {
    &&& p.public_key@ == q.public_key@
    &&& p.allowed_ips@ == q.allowed_ips@
    &&& p.endpoint is Some <==> q.endpoint is Some
    &&& p.endpoint is Some ==> p.endpoint->0@ == q.endpoint->0@
    &&& p.persistent_keepalive == q.persistent_keepalive
}

/// The `AllowedIPs` of a member: its own address with `/32`, and after a comma
/// its pod CIDR without the white space around it, if it names one.
pub proof fn allowed_ips_of_a_member(n: &MeshNode, r: String)
    requires
        call_ensures(peer_allowed_ips, (n,), r),
    ensures
        !names_pods(*n) ==> r@ == n.mesh_ip@ + seq!['/', '3', '2'],
        names_pods(*n) ==> r@ == n.mesh_ip@ + seq!['/', '3', '2', ','] + trimmed(n.pod_cidr->0@),
{
    reveal_strlit("/32");
    reveal_strlit("/32,");
    assert("/32"@ =~= seq!['/', '3', '2']);
    assert("/32,"@ =~= seq!['/', '3', '2', ',']);
    if n.pod_cidr is Some {
        blank_texts(n.pod_cidr->0@);
    }
}

proof fn lemma_filter_append<A>(a: Seq<A>, b: Seq<A>, pred: spec_fn(A) -> bool)
    ensures
        (a + b).filter(pred) == a.filter(pred) + b.filter(pred),
    decreases b.len(),
{
    reveal(Seq::filter);
    if b.len() == 0 {
        assert(a + b =~= a);
        assert(a.filter(pred) + b.filter(pred) =~= a.filter(pred));
    } else {
        lemma_filter_append(a, b.drop_last(), pred);
        assert((a + b).drop_last() =~= a + b.drop_last());
        assert((a + b).filter(pred) =~= a.filter(pred) + b.filter(pred));
    }
}

proof fn lemma_filter_one<A>(x: A, pred: spec_fn(A) -> bool)
    ensures
        seq![x].filter(pred) == if pred(x) {
            seq![x]
        } else {
            Seq::empty()
        },
{
    reveal(Seq::filter);
    assert(seq![x] =~= Seq::<A>::empty().push(x));
    lemma_filter_push(Seq::empty(), x, pred);
    assert(seq![x].filter(pred) =~= if pred(x) {
        seq![x]
    } else {
        Seq::empty()
    });
}

/// A node peers with the members one by one: the peers of a membership made of
/// two parts are those of the first part and after them those of the second.
pub proof fn peers_go_by_member(
    ip: &str,
    a: &[MeshNode],
    b: &[MeshNode],
    both: &[MeshNode],
    peers_a: Vec<WgPeer>,
    peers_b: Vec<WgPeer>,
    peers: Vec<WgPeer>,
)
    requires
        both@ == a@ + b@,
        call_ensures(mesh_peers_for, (ip, a), peers_a),
        call_ensures(mesh_peers_for, (ip, b), peers_b),
        call_ensures(mesh_peers_for, (ip, both), peers),
    ensures
        peers@.len() == peers_a@.len() + peers_b@.len(),
        forall|i: int|
            0 <= i < peers_a@.len() ==> same_peer(#[trigger] peers@[i], peers_a@[i]),
        forall|i: int|
            0 <= i < peers_b@.len() ==> same_peer(
                peers@[peers_a@.len() + i],
                #[trigger] peers_b@[i],
            ),
{
    let to_peer = |n: MeshNodeView| peer_of(n);
    let remote = |n: MeshNodeView| is_remote(ip@, n);
    assert(node_views(both@) =~= node_views(a@) + node_views(b@));
    lemma_filter_append(node_views(a@), node_views(b@), remote);
    assert(mesh_peers(ip@, node_views(both@)) =~= mesh_peers(ip@, node_views(a@)) + mesh_peers(
        ip@,
        node_views(b@),
    ));
    assert(peer_views(peers@).len() == peers@.len());
    assert(peer_views(peers_a@).len() == peers_a@.len());
    assert(peer_views(peers_b@).len() == peers_b@.len());
    assert forall|i: int| 0 <= i < peers_a@.len() implies same_peer(
        #[trigger] peers@[i],
        peers_a@[i],
    ) by {
        assert(peer_views(peers@)[i] == peer_views(peers_a@)[i]);
        lemma_same_views(peers@[i], peers_a@[i]);
    }
    assert forall|i: int| 0 <= i < peers_b@.len() implies same_peer(
        peers@[peers_a@.len() + i],
        #[trigger] peers_b@[i],
    ) by {
        assert(peer_views(peers@)[peers_a@.len() + i] == peer_views(peers_b@)[i]);
        lemma_same_views(peers@[peers_a@.len() + i], peers_b@[i]);
    }
}

proof fn lemma_same_views(p: WgPeer, q: WgPeer)
    requires
        p@ == q@,
    ensures
        same_peer(p, q),
{
    assert(p@.endpoint == q@.endpoint);
}

/// A member at the node's own address is no peer of it. One elsewhere is one
/// peer: its own key, its allowed addresses, its endpoint unless that is blank,
/// and a keepalive of 25 seconds.
pub proof fn peer_of_a_lone_member(
    ip: &str,
    members: &[MeshNode],
    peers: Vec<WgPeer>,
    allowed_ips: String,
)
    requires
        members@.len() == 1,
        call_ensures(mesh_peers_for, (ip, members), peers),
        call_ensures(peer_allowed_ips, (&members@[0],), allowed_ips),
    ensures
        !stands_elsewhere(ip@, members@[0]) ==> peers@.len() == 0,
        stands_elsewhere(ip@, members@[0]) ==> {
            let n = members@[0];
            let p = peers@[0];
            &&& peers@.len() == 1
            &&& p.public_key@ == n.public_key@
            &&& p.allowed_ips@ == allowed_ips@
            &&& p.persistent_keepalive == Some(25u16)
            &&& all_white(n.endpoint@) ==> p.endpoint is None
            &&& !all_white(n.endpoint@) ==> p.endpoint is Some && p.endpoint->0@ == n.endpoint@
        },
{
    let n = members@[0];
    let remote = |v: MeshNodeView| is_remote(ip@, v);
    assert(node_views(members@) =~= seq![n@]);
    lemma_filter_one(n@, remote);
    blank_texts(n.endpoint@);
    assert(peer_views(peers@).len() == peers@.len());
    if stands_elsewhere(ip@, n) {
        assert(peer_views(peers@)[0] == peers@[0]@);
        assert(peers@[0]@ == peer_of(n@));
    }
}

/// The pod routes of a membership made of two parts are those of the first part
/// and after them those of the second.
pub proof fn routes_go_by_member(
    ip: &str,
    a: &[MeshNode],
    b: &[MeshNode],
    both: &[MeshNode],
    routes_a: Vec<&str>,
    routes_b: Vec<&str>,
    routes: Vec<&str>,
)
    requires
        both@ == a@ + b@,
        call_ensures(mesh_pod_routes, (ip, a), routes_a),
        call_ensures(mesh_pod_routes, (ip, b), routes_b),
        call_ensures(mesh_pod_routes, (ip, both), routes),
    ensures
        routes@.len() == routes_a@.len() + routes_b@.len(),
        forall|i: int| 0 <= i < routes_a@.len() ==> (#[trigger] routes@[i])@ == routes_a@[i]@,
        forall|i: int|
            0 <= i < routes_b@.len() ==> routes@[routes_a@.len() + i]@ == (
            #[trigger] routes_b@[i])@,
{
    let routed = |n: MeshNodeView| is_remote(ip@, n) && advertises_pods(n);
    assert(node_views(both@) =~= node_views(a@) + node_views(b@));
    lemma_filter_append(node_views(a@), node_views(b@), routed);
    assert(pod_routes(ip@, node_views(both@)) =~= pod_routes(ip@, node_views(a@)) + pod_routes(
        ip@,
        node_views(b@),
    ));
    contents_of_slices(routes@);
    contents_of_slices(routes_a@);
    contents_of_slices(routes_b@);
    assert forall|i: int| 0 <= i < routes_b@.len() implies routes@[routes_a@.len() + i]@ == (
    #[trigger] routes_b@[i])@ by {
        assert(texts(routes@)[routes_a@.len() + i] == texts(routes_b@)[i]);
    }
    assert forall|i: int| 0 <= i < routes_a@.len() implies (#[trigger] routes@[i])@
        == routes_a@[i]@ by {
        assert(texts(routes@)[i] == texts(routes_a@)[i]);
    }
}

/// A member elsewhere that names a pod CIDR has one route, to that CIDR without
/// the white space around it; any other member has none.
pub proof fn route_of_a_lone_member(ip: &str, members: &[MeshNode], routes: Vec<&str>)
    requires
        members@.len() == 1,
        call_ensures(mesh_pod_routes, (ip, members), routes),
    ensures
        stands_elsewhere(ip@, members@[0]) && names_pods(members@[0]) ==> routes@.len() == 1
            && routes@[0]@ == trimmed(members@[0].pod_cidr->0@),
        !(stands_elsewhere(ip@, members@[0]) && names_pods(members@[0])) ==> routes@.len() == 0,
{
    let n = members@[0];
    let routed = |v: MeshNodeView| is_remote(ip@, v) && advertises_pods(v);
    assert(node_views(members@) =~= seq![n@]);
    lemma_filter_one(n@, routed);
    if n.pod_cidr is Some {
        blank_texts(n.pod_cidr->0@);
    }
    contents_of_slices(routes@);
    if stands_elsewhere(ip@, n) && names_pods(n) {
        assert(texts(routes@)[0] == routes@[0]@);
    }
}

/// Whether a member elsewhere has a key.
pub open spec fn is_key_of_another(
    ip: Seq<char>,
    members: Seq<MeshNode>,
    key: Seq<char>,
) -> bool {
    exists|i: int|
        0 <= i < members.len() && (#[trigger] members[i]).public_key@ == key && stands_elsewhere(
            ip,
            members[i],
        )
}

/// The desired keys are those of the members elsewhere.
pub proof fn desired_keys_are_the_others(ip: Seq<char>, members: Seq<MeshNode>, key: Seq<char>)
    ensures
        desired_keys(ip, node_views(members)).contains(key) <==> is_key_of_another(
            ip,
            members,
            key,
        ),
{
    let views = node_views(members);
    let remote = |n: MeshNodeView| is_remote(ip, n);
    let kept = views.filter(remote);
    let keys = mesh_peers(ip, views).map_values(|p: WgPeerView| p.public_key);
    if keys.contains(key) {
        let k = choose|k: int| 0 <= k < keys.len() && keys[k] == key;
        assert(kept.contains(kept[k]));
        lemma_filter_contains(views, remote, kept[k]);
        let i = choose|i: int| 0 <= i < views.len() && views[i] == kept[k];
        assert(members[i]@ == kept[k]);
        assert(members[i].public_key@ == key);
        assert(stands_elsewhere(ip, members[i]));
    }
    if is_key_of_another(ip, members, key) {
        let i = choose|i: int|
            0 <= i < members.len() && (#[trigger] members[i]).public_key@ == key
                && stands_elsewhere(ip, members[i]);
        assert(views[i] == members[i]@);
        assert(views.contains(members[i]@));
        lemma_filter_contains(views, remote, members[i]@);
        let k = choose|k: int| 0 <= k < kept.len() && kept[k] == members[i]@;
        assert(keys[k] == key);
        assert(keys.contains(key));
    }
}

/// Keys are pruned one by one: of a list made of two parts, those of the first
/// part and after them those of the second.
pub proof fn pruning_goes_by_key(
    ip: &str,
    members: &[MeshNode],
    protected: &[String],
    a: &[String],
    b: &[String],
    both: &[String],
    gone_a: Vec<&str>,
    gone_b: Vec<&str>,
    gone: Vec<&str>,
)
    requires
        both@ == a@ + b@,
        call_ensures(peers_to_prune, (a, ip, members, protected), gone_a),
        call_ensures(peers_to_prune, (b, ip, members, protected), gone_b),
        call_ensures(peers_to_prune, (both, ip, members, protected), gone),
    ensures
        gone@.len() == gone_a@.len() + gone_b@.len(),
        forall|i: int| 0 <= i < gone_a@.len() ==> (#[trigger] gone@[i])@ == gone_a@[i]@,
        forall|i: int|
            0 <= i < gone_b@.len() ==> gone@[gone_a@.len() + i]@ == (#[trigger] gone_b@[i])@,
{
    let desired = desired_keys(ip@, node_views(members@));
    let kept = name_set(protected@);
    let pred = |k: Seq<char>| !desired.contains(k) && !kept.contains(k);
    assert(strings(both@) =~= strings(a@) + strings(b@));
    lemma_filter_append(strings(a@), strings(b@), pred);
    assert(departed_keys(strings(both@), desired, kept) == departed_keys(
        strings(a@),
        desired,
        kept,
    ) + departed_keys(strings(b@), desired, kept));
    contents_of_slices(gone@);
    contents_of_slices(gone_a@);
    contents_of_slices(gone_b@);
    assert forall|i: int| 0 <= i < gone_b@.len() implies gone@[gone_a@.len() + i]@ == (
    #[trigger] gone_b@[i])@ by {
        assert(texts(gone@)[gone_a@.len() + i] == texts(gone_b@)[i]);
    }
    assert forall|i: int| 0 <= i < gone_a@.len() implies (#[trigger] gone@[i])@
        == gone_a@[i]@ by {
        assert(texts(gone@)[i] == texts(gone_a@)[i]);
    }
}

/// A key is pruned exactly if no member elsewhere has it and it is not
/// protected.
pub proof fn fate_of_a_lone_key(
    ip: &str,
    members: &[MeshNode],
    protected: &[String],
    current: &[String],
    gone: Vec<&str>,
)
    requires
        current@.len() == 1,
        call_ensures(peers_to_prune, (current, ip, members, protected), gone),
    ensures
        is_key_of_another(ip@, members@, current@[0]@) || has_name(protected@, current@[0]@)
            ==> gone@.len() == 0,
        !is_key_of_another(ip@, members@, current@[0]@) && !has_name(protected@, current@[0]@)
            ==> gone@.len() == 1 && gone@[0]@ == current@[0]@,
{
    let desired = desired_keys(ip@, node_views(members@));
    let kept = name_set(protected@);
    let pred = |k: Seq<char>| !desired.contains(k) && !kept.contains(k);
    let key = current@[0]@;
    contents_of_strings(current@);
    assert(strings(current@) =~= seq![key]);
    lemma_filter_one(key, pred);
    desired_keys_are_the_others(ip@, members@, key);
    names_in_a_set(protected@, key);
    contents_of_slices(gone@);
    if pred(key) {
        assert(texts(gone@)[0] == gone@[0]@);
    }
}

/// Without members there are no peers and no routes, and without current keys
/// there is nothing to prune.
pub proof fn nothing_comes_of_nothing(
    ip: &str,
    members: &[MeshNode],
    protected: &[String],
    current: &[String],
    peers: Vec<WgPeer>,
    routes: Vec<&str>,
    gone: Vec<&str>,
)
    requires
        call_ensures(mesh_peers_for, (ip, members), peers),
        call_ensures(mesh_pod_routes, (ip, members), routes),
        call_ensures(peers_to_prune, (current, ip, members, protected), gone),
    ensures
        members@.len() == 0 ==> peers@.len() == 0 && routes@.len() == 0,
        current@.len() == 0 ==> gone@.len() == 0,
{
    reveal(Seq::filter);
    contents_of_slices(routes@);
    contents_of_slices(gone@);
    contents_of_strings(current@);
    assert(peer_views(peers@).len() == peers@.len());
    assert(node_views(members@).len() == members@.len());
}

} // verus!
