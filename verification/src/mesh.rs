//! Full-mesh WireGuard peering with pod-CIDR routing.
//!
//! Every node of the mesh peers every other node directly. WireGuard forwards
//! a packet only if its destination is in some peer's `AllowedIPs`, so each
//! peer carries its `/32` mesh address and, for clusters whose network plugin
//! routes natively, the pod CIDR of its node. This module computes what one
//! node's peers, routes and departed peers are; `mesh_run` puts them in the
//! order in which they are applied.
use crate::names::{contains_name, name_set};
use crate::text::{
    is_blank, lemma_filter_contains, lemma_filter_push, lemma_trimmed_twice, opt_text, str_eq,
    strings, texts, trim, trimmed,
};
use vstd::prelude::*;
use vstd::string::StringExecFns;

verus! {

/// A member of the WireGuard mesh, as known to the controller or operator.
#[derive(Clone, Debug, PartialEq, Eq)]
pub struct MeshNode {
    /// Node hostname (informational).
    pub hostname: String,
    /// WireGuard public key.
    pub public_key: String,
    /// Mesh address on the interface, e.g. `10.44.0.2` (no prefix).
    pub mesh_ip: String,
    /// Underlay endpoint of the tunnel, e.g. `203.0.113.9:51820`.
    pub endpoint: String,
    /// Pod CIDR routed to this node, e.g. `10.42.1.0/24`.
    pub pod_cidr: Option<String>,
}

/// A mesh membership document.
#[derive(Clone, Debug, PartialEq, Eq)]
pub struct MeshMembership {
    pub nodes: Vec<MeshNode>,
}

/// A WireGuard peer, as it is set on an interface.
#[derive(Debug, PartialEq, Eq)]
pub struct WgPeer {
    pub public_key: String,
    /// Comma-separated networks that are routed to the peer.
    pub allowed_ips: String,
    /// `None` leaves the endpoint of a known peer as it is.
    pub endpoint: Option<String>,
    pub persistent_keepalive: Option<u16>,
}

/// The contents of a `MeshNode`.
#[verifier::ext_equal]
pub struct MeshNodeView {
    pub hostname: Seq<char>,
    pub public_key: Seq<char>,
    pub mesh_ip: Seq<char>,
    pub endpoint: Seq<char>,
    pub pod_cidr: Option<Seq<char>>,
}

/// The contents of a `WgPeer`.
#[verifier::ext_equal]
pub struct WgPeerView {
    pub public_key: Seq<char>,
    pub allowed_ips: Seq<char>,
    pub endpoint: Option<Seq<char>>,
    pub persistent_keepalive: Option<u16>,
}

impl View for MeshNode {
    type V = MeshNodeView;

    open spec fn view(&self) -> MeshNodeView {
        MeshNodeView {
            hostname: self.hostname@,
            public_key: self.public_key@,
            mesh_ip: self.mesh_ip@,
            endpoint: self.endpoint@,
            pod_cidr: opt_text(self.pod_cidr),
        }
    }
}

impl View for WgPeer {
    type V = WgPeerView;

    open spec fn view(&self) -> WgPeerView {
        WgPeerView {
            public_key: self.public_key@,
            allowed_ips: self.allowed_ips@,
            endpoint: opt_text(self.endpoint),
            persistent_keepalive: self.persistent_keepalive,
        }
    }
}

impl Clone for WgPeer {
    fn clone(&self) -> (copy: Self)
        ensures
            copy == *self,
    {
        WgPeer {
            public_key: self.public_key.clone(),
            allowed_ips: self.allowed_ips.clone(),
            endpoint: match &self.endpoint {
                Some(endpoint) => Some(endpoint.clone()),
                None => None,
            },
            persistent_keepalive: self.persistent_keepalive,
        }
    }
}

impl Default for MeshMembership {
    fn default() -> (membership: Self)
        ensures
            membership.nodes@.len() == 0,
    {
        MeshMembership { nodes: Vec::new() }
    }
}

/// The contents of a list of members.
pub open spec fn node_views(members: Seq<MeshNode>) -> Seq<MeshNodeView> {
    members.map_values(|n: MeshNode| n@)
}

/// The contents of a list of peers.
pub open spec fn peer_views(peers: Seq<WgPeer>) -> Seq<WgPeerView> {
    peers.map_values(|p: WgPeer| p@)
}

/// Whether a member advertises a pod CIDR. A blank one counts as none.
pub open spec fn advertises_pods(n: MeshNodeView) -> bool {
    n.pod_cidr is Some && !is_blank(n.pod_cidr->0)
}

/// The `AllowedIPs` of a member: its `/32` mesh address, and its pod CIDR when
/// it advertises one.
pub open spec fn allowed_ips_of(n: MeshNodeView) -> Seq<char> {
    if advertises_pods(n) {
        n.mesh_ip + "/32,"@ + trimmed(n.pod_cidr->0)
    } else {
        n.mesh_ip + "/32"@
    }
}

/// Whether a member is another node than the one at `self_mesh_ip`. White
/// space around addresses does not tell them apart.
pub open spec fn is_remote(self_mesh_ip: Seq<char>, n: MeshNodeView) -> bool {
    trimmed(n.mesh_ip) != trimmed(self_mesh_ip)
}

/// The peer that a member is to the other nodes. A blank endpoint is left out,
/// so that the endpoint of a known peer stays as it is.
pub open spec fn peer_of(n: MeshNodeView) -> WgPeerView {
    WgPeerView {
        public_key: n.public_key,
        allowed_ips: allowed_ips_of(n),
        endpoint: if is_blank(n.endpoint) {
            None
        } else {
            Some(n.endpoint)
        },
        persistent_keepalive: Some(25u16),
    }
}

/// The peers of the node at `self_mesh_ip`: every member but itself, in order.
pub open spec fn mesh_peers(self_mesh_ip: Seq<char>, members: Seq<MeshNodeView>) -> Seq<
    WgPeerView,
> {
    members.filter(|n: MeshNodeView| is_remote(self_mesh_ip, n)).map_values(
        |n: MeshNodeView| peer_of(n),
    )
}

/// The pod CIDRs of the other nodes, in order.
pub open spec fn pod_routes(self_mesh_ip: Seq<char>, members: Seq<MeshNodeView>) -> Seq<Seq<char>> {
    members.filter(|n: MeshNodeView| is_remote(self_mesh_ip, n) && advertises_pods(n)).map_values(
        |n: MeshNodeView| trimmed(n.pod_cidr->0),
    )
}

/// The public keys that the node at `self_mesh_ip` should have as peers.
pub open spec fn desired_keys(self_mesh_ip: Seq<char>, members: Seq<MeshNodeView>) -> Set<
    Seq<char>,
> {
    mesh_peers(self_mesh_ip, members).map_values(|p: WgPeerView| p.public_key).to_set()
}

/// Of the keys in `current`, those that are neither desired nor protected.
pub open spec fn departed_keys(
    current: Seq<Seq<char>>,
    desired: Set<Seq<char>>,
    protected: Set<Seq<char>>,
) -> Seq<Seq<char>> {
    current.filter(|key: Seq<char>| !desired.contains(key) && !protected.contains(key))
}

/// The `AllowedIPs` string of a peer: its `/32` mesh address, plus its pod
/// CIDR when set, comma-separated as `wg` accepts.
pub fn peer_allowed_ips(node: &MeshNode) -> (allowed_ips: String)
    ensures
        allowed_ips@ == allowed_ips_of(node@),
{
    if let Some(pod) = &node.pod_cidr {
        let pod = trim(pod.as_str());
        if !pod.is_empty() {
            return node.mesh_ip.clone().concat("/32,").concat(pod);
        }
    }
    node.mesh_ip.clone().concat("/32")
}

/// The peer that a member is to the other nodes.
fn mesh_peer(node: &MeshNode) -> (peer: WgPeer)
    ensures
        peer@ == peer_of(node@),
{
    let endpoint = if trim(node.endpoint.as_str()).is_empty() {
        None
    } else {
        Some(node.endpoint.clone())
    };
    WgPeer {
        public_key: node.public_key.clone(),
        allowed_ips: peer_allowed_ips(node),
        endpoint,
        persistent_keepalive: Some(25),
    }
}

/// The WireGuard peer set for the view that the node at `self_mesh_ip` has of
/// a full mesh: every member except itself, each with pod-CIDR-aware
/// `AllowedIPs`.
pub fn mesh_peers_for(self_mesh_ip: &str, members: &[MeshNode]) -> (peers: Vec<WgPeer>)
    ensures
        peer_views(peers@) == mesh_peers(self_mesh_ip@, node_views(members@)),
{
    let self_ip = trim(self_mesh_ip);
    let mut peers: Vec<WgPeer> = Vec::new();
    let ghost all = node_views(members@);
    let ghost remote = |n: MeshNodeView| is_remote(self_mesh_ip@, n);
    let ghost to_peer = |n: MeshNodeView| peer_of(n);
    let mut i: usize = 0;
    proof {
        reveal(Seq::filter);
        assert(peer_views(peers@) =~= all.take(0).filter(remote).map_values(to_peer));
    }
    while i < members.len()
        invariant
            i <= members.len(),
            all == node_views(members@),
            self_ip@ == trimmed(self_mesh_ip@),
            remote == (|n: MeshNodeView| is_remote(self_mesh_ip@, n)),
            to_peer == (|n: MeshNodeView| peer_of(n)),
            peer_views(peers@) == all.take(i as int).filter(remote).map_values(to_peer),
        decreases members.len() - i,
    {
        let node = &members[i];
        let ghost before = peer_views(peers@);
        let ghost kept = all.take(i as int).filter(remote);
        proof {
            assert(all.take(i + 1) =~= all.take(i as int).push(node@));
            lemma_filter_push(all.take(i as int), node@, remote);
        }
        if !str_eq(trim(node.mesh_ip.as_str()), self_ip) {
            peers.push(mesh_peer(node));
            proof {
                assert(peer_views(peers@) =~= before.push(peer_of(node@)));
                assert(kept.push(node@).map_values(to_peer) =~= kept.map_values(to_peer).push(
                    peer_of(node@),
                ));
            }
        }
        i = i + 1;
    }
    assert(all.take(members.len() as int) =~= all);
    peers
}

/// The pod-CIDR routes of the node at `self_mesh_ip`, one per remote member
/// that advertises a pod CIDR. They matter only where no network plugin owns
/// the kernel's routes.
pub fn mesh_pod_routes<'a>(self_mesh_ip: &str, members: &'a [MeshNode]) -> (routes: Vec<&'a str>)
    ensures
        texts(routes@) == pod_routes(self_mesh_ip@, node_views(members@)),
{
    let self_ip = trim(self_mesh_ip);
    let mut routes: Vec<&'a str> = Vec::new();
    let ghost all = node_views(members@);
    let ghost routed = |n: MeshNodeView| is_remote(self_mesh_ip@, n) && advertises_pods(n);
    let ghost to_cidr = |n: MeshNodeView| trimmed(n.pod_cidr->0);
    let mut i: usize = 0;
    proof {
        reveal(Seq::filter);
        assert(texts(routes@) =~= all.take(0).filter(routed).map_values(to_cidr));
    }
    while i < members.len()
        invariant
            i <= members.len(),
            all == node_views(members@),
            self_ip@ == trimmed(self_mesh_ip@),
            routed == (|n: MeshNodeView| is_remote(self_mesh_ip@, n) && advertises_pods(n)),
            to_cidr == (|n: MeshNodeView| trimmed(n.pod_cidr->0)),
            texts(routes@) == all.take(i as int).filter(routed).map_values(to_cidr),
        decreases members.len() - i,
    {
        let node = &members[i];
        let ghost before = texts(routes@);
        let ghost kept = all.take(i as int).filter(routed);
        proof {
            assert(all.take(i + 1) =~= all.take(i as int).push(node@));
            lemma_filter_push(all.take(i as int), node@, routed);
        }
        if !str_eq(trim(node.mesh_ip.as_str()), self_ip) {
            if let Some(pod) = &node.pod_cidr {
                let cidr = trim(pod.as_str());
                if !cidr.is_empty() {
                    routes.push(cidr);
                    proof {
                        assert(texts(routes@) =~= before.push(to_cidr(node@)));
                        assert(kept.push(node@).map_values(to_cidr) =~= kept.map_values(
                            to_cidr,
                        ).push(to_cidr(node@)));
                    }
                }
            }
        }
        i = i + 1;
    }
    assert(all.take(members.len() as int) =~= all);
    routes
}

/// Of the interface's `current` peer keys, those for nodes that have left the
/// mesh: not in the desired member set (self excluded) and not in `protected`.
/// A key in the node's own persisted config is protected, whatever membership
/// was pushed.
pub fn peers_to_prune<'a>(
    current: &'a [String],
    self_mesh_ip: &str,
    members: &[MeshNode],
    protected: &[String],
) -> (departed: Vec<&'a str>)
    ensures
        texts(departed@) == departed_keys(
            strings(current@),
            desired_keys(self_mesh_ip@, node_views(members@)),
            name_set(protected@),
        ),
{
    let desired = keys_of(mesh_peers_for(self_mesh_ip, members));
    let mut departed: Vec<&'a str> = Vec::new();
    let ghost all = strings(current@);
    let ghost wanted = desired_keys(self_mesh_ip@, node_views(members@));
    let ghost gone = |key: Seq<char>|
        !wanted.contains(key) && !name_set(protected@).contains(key);
    let mut i: usize = 0;
    proof {
        reveal(Seq::filter);
        assert(texts(departed@) =~= all.take(0).filter(gone));
    }
    while i < current.len()
        invariant
            i <= current.len(),
            all == strings(current@),
            name_set(desired@) == wanted,
            gone == (|key: Seq<char>|
                !wanted.contains(key) && !name_set(protected@).contains(key)),
            texts(departed@) == all.take(i as int).filter(gone),
        decreases current.len() - i,
    {
        let key = current[i].as_str();
        let ghost before = texts(departed@);
        proof {
            assert(all.take(i + 1) =~= all.take(i as int).push(key@));
            lemma_filter_push(all.take(i as int), key@, gone);
        }
        if !contains_name(desired.as_slice(), key) && !contains_name(protected, key) {
            departed.push(key);
            assert(texts(departed@) =~= before.push(key@));
        }
        i = i + 1;
    }
    assert(all.take(current.len() as int) =~= all);
    departed
}

/// The public keys of a list of peers.
fn keys_of(peers: Vec<WgPeer>) -> (keys: Vec<String>)
    ensures
        strings(keys@) == peer_views(peers@).map_values(|p: WgPeerView| p.public_key),
{
    let mut keys: Vec<String> = Vec::new();
    let ghost all = peer_views(peers@).map_values(|p: WgPeerView| p.public_key);
    let mut i: usize = 0;
    while i < peers.len()
        invariant
            i <= peers.len(),
            all == peer_views(peers@).map_values(|p: WgPeerView| p.public_key),
            strings(keys@) == all.take(i as int),
        decreases peers.len() - i,
    {
        let ghost before = strings(keys@);
        keys.push(peers[i].public_key.clone());
        proof {
            assert(strings(keys@) =~= before.push(all[i as int]));
            assert(all.take(i + 1) =~= all.take(i as int).push(all[i as int]));
        }
        i = i + 1;
    }
    assert(all.take(peers.len() as int) =~= all);
    keys
}

/// The mesh is full: a peer is in a node's set exactly if it stands for a
/// member at another address.
pub proof fn peers_are_the_other_members(
    self_mesh_ip: Seq<char>,
    members: Seq<MeshNodeView>,
    peer: WgPeerView,
)
    ensures
        mesh_peers(self_mesh_ip, members).contains(peer) <==> exists|n: MeshNodeView|
            #[trigger] members.contains(n) && is_remote(self_mesh_ip, n) && peer == peer_of(n),
{
    let remote = |n: MeshNodeView| is_remote(self_mesh_ip, n);
    let kept = members.filter(remote);
    let peers = mesh_peers(self_mesh_ip, members);
    if peers.contains(peer) {
        let i = choose|i: int| 0 <= i < peers.len() && peers[i] == peer;
        let n = kept[i];
        assert(kept.contains(n));
        lemma_filter_contains(members, remote, n);
        assert(members.contains(n) && is_remote(self_mesh_ip, n) && peer == peer_of(n));
    }
    if exists|n: MeshNodeView|
        #[trigger] members.contains(n) && is_remote(self_mesh_ip, n) && peer == peer_of(n) {
        let n = choose|n: MeshNodeView|
            #[trigger] members.contains(n) && is_remote(self_mesh_ip, n) && peer == peer_of(n);
        lemma_filter_contains(members, remote, n);
        let i = choose|i: int| 0 <= i < kept.len() && kept[i] == n;
        assert(peers[i] == peer);
    }
}

/// Peering is mutual: two members at different addresses are in each other's
/// peer sets.
pub proof fn peering_is_mutual(members: Seq<MeshNodeView>, a: MeshNodeView, b: MeshNodeView)
    requires
        members.contains(a),
        members.contains(b),
        trimmed(a.mesh_ip) != trimmed(b.mesh_ip),
    ensures
        mesh_peers(a.mesh_ip, members).contains(peer_of(b)),
        mesh_peers(b.mesh_ip, members).contains(peer_of(a)),
{
    peers_are_the_other_members(a.mesh_ip, members, peer_of(b));
    peers_are_the_other_members(b.mesh_ip, members, peer_of(a));
}

/// White space around a node's own address changes nothing.
pub proof fn own_address_is_trimmed(self_mesh_ip: Seq<char>, members: Seq<MeshNodeView>)
    ensures
        mesh_peers(trimmed(self_mesh_ip), members) == mesh_peers(self_mesh_ip, members),
        pod_routes(trimmed(self_mesh_ip), members) == pod_routes(self_mesh_ip, members),
{
    lemma_trimmed_twice(self_mesh_ip);
    assert((|n: MeshNodeView| is_remote(trimmed(self_mesh_ip), n)) =~= (|n: MeshNodeView|
        is_remote(self_mesh_ip, n)));
    assert((|n: MeshNodeView| is_remote(trimmed(self_mesh_ip), n) && advertises_pods(n)) =~= (
        |n: MeshNodeView| is_remote(self_mesh_ip, n) && advertises_pods(n)));
}

/// Every pod route has its peer: the networks that the kernel would route over
/// the interface are those in the `AllowedIPs` of some peer, after the mesh
/// address.
pub proof fn routes_match_allowed_ips(
    self_mesh_ip: Seq<char>,
    members: Seq<MeshNodeView>,
    cidr: Seq<char>,
)
    ensures
        pod_routes(self_mesh_ip, members).contains(cidr) <==> exists|n: MeshNodeView|
            {
                &&& #[trigger] members.contains(n)
                &&& advertises_pods(n)
                &&& mesh_peers(self_mesh_ip, members).contains(peer_of(n))
                &&& is_remote(self_mesh_ip, n)
                &&& peer_of(n).allowed_ips == n.mesh_ip + "/32,"@ + cidr
            },
{
    let routed = |n: MeshNodeView| is_remote(self_mesh_ip, n) && advertises_pods(n);
    let kept = members.filter(routed);
    let routes = pod_routes(self_mesh_ip, members);
    if routes.contains(cidr) {
        let i = choose|i: int| 0 <= i < routes.len() && routes[i] == cidr;
        let n = kept[i];
        assert(kept.contains(n));
        lemma_filter_contains(members, routed, n);
        peers_are_the_other_members(self_mesh_ip, members, peer_of(n));
        assert(members.contains(n));
    }
    if exists|n: MeshNodeView|
        {
            &&& #[trigger] members.contains(n)
            &&& advertises_pods(n)
            &&& mesh_peers(self_mesh_ip, members).contains(peer_of(n))
            &&& is_remote(self_mesh_ip, n)
            &&& peer_of(n).allowed_ips == n.mesh_ip + "/32,"@ + cidr
        } {
        let n = choose|n: MeshNodeView|
            {
                &&& #[trigger] members.contains(n)
                &&& advertises_pods(n)
                &&& mesh_peers(self_mesh_ip, members).contains(peer_of(n))
                &&& is_remote(self_mesh_ip, n)
                &&& peer_of(n).allowed_ips == n.mesh_ip + "/32,"@ + cidr
            };
        let head = n.mesh_ip + "/32,"@;
        let pods = trimmed(n.pod_cidr->0);
        assert((head + pods).skip(head.len() as int) =~= pods);
        assert((head + cidr).skip(head.len() as int) =~= cidr);
        lemma_filter_contains(members, routed, n);
        let i = choose|i: int| 0 <= i < kept.len() && kept[i] == n;
        assert(routes[i] == cidr);
    }
}

/// Pruning takes exactly the current keys that no member and no protection
/// accounts for.
pub proof fn pruned_keys(
    current: Seq<Seq<char>>,
    desired: Set<Seq<char>>,
    protected: Set<Seq<char>>,
    key: Seq<char>,
)
    ensures
        departed_keys(current, desired, protected).contains(key) <==> current.contains(key)
            && !desired.contains(key) && !protected.contains(key),
{
    lemma_filter_contains(
        current,
        |k: Seq<char>| !desired.contains(k) && !protected.contains(k),
        key,
    );
}

} // verus!
