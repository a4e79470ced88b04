//! Laws of job placement, told from what a job asks for and what a node has.
use crate::laws::text::{
    all_white, blank_texts, fields_are_trimmed_pieces, free_of, has_name, joined, joined_of_split,
    names_in_a_set,
};
use crate::node_match::{
    expand_hostlist_or_split, hostlist_names, in_force, listed, opt_strings, placement_of,
    Candidate, Hostlist, Job, Node, NodePlacement, PlacementView, Reservation,
};
use crate::text::{fields, lemma_filter_contains, non_empty, strings, trimmed};
use vstd::prelude::*;

verus! {

/// Whether a placement was worked out for a job, with or without its credited
/// nodes.
pub open spec fn is_placement(job: &Job, credited: bool, p: NodePlacement) -> bool {
    if credited {
        call_ensures(NodePlacement::new, (job,), p)
    } else {
        call_ensures(NodePlacement::new_ignoring_preferred_nodes, (job,), p)
    }
}

/// Whether a host list was given at all. An empty one was not.
pub open spec fn is_given(list: Option<Hostlist>) -> bool {
    list is Some && list->0.pattern@.len() > 0
}

/// Whether a list that was given holds a name: one of those that it expands to
/// or, where it does not expand, one of its fields; the empty name never.
pub open spec fn holds(list: Option<Hostlist>, name: Seq<char>) -> bool {
    &&& is_given(list)
    &&& name.len() > 0
    &&& match list->0.expansion {
        Some(names) => has_name(names@, name),
        None => exists|i: int|
            0 <= i < fields(list->0.pattern@).len() && #[trigger] fields(list->0.pattern@)[i]
                == name,
    }
}

/// Whether a job has a node list: its own, or else the nodes credited to it.
pub open spec fn has_list(job: Job, credited: bool) -> bool {
    is_given(job.spec.nodelist) || (credited && job.preferred_nodes@.len() > 0)
}

/// Whether a name is in a job's node list.
pub open spec fn is_on_list(job: Job, credited: bool, name: Seq<char>) -> bool {
    if is_given(job.spec.nodelist) {
        holds(job.spec.nodelist, name)
    } else {
        credited && has_name(job.preferred_nodes@, name)
    }
}

/// Whether a list of fields, such as a constraint, has a field.
pub open spec fn has_field(list: Seq<char>, field: Seq<char>) -> bool {
    exists|i: int| 0 <= i < fields(list).len() && #[trigger] fields(list)[i] == field
}

proof fn lemma_hostlist_names(pattern: Seq<char>, expansion: Option<Vec<String>>, name: Seq<char>)
    ensures
        hostlist_names(pattern, opt_strings(expansion)).contains(name) <==> name.len() > 0 && (
        match expansion {
            Some(names) => has_name(names@, name),
            None => has_field(pattern, name),
        }),
{
    let all = match opt_strings(expansion) {
        Some(names) => names,
        None => fields(pattern),
    };
    lemma_filter_contains(all, |n: Seq<char>| n.len() > 0, name);
    match expansion {
        Some(names) => {
            names_in_a_set(names@, name);
        },
        None => {
            if fields(pattern).contains(name) {
                let i = choose|i: int| 0 <= i < fields(pattern).len() && fields(pattern)[i] == name;
                assert(fields(pattern)[i] == name);
            }
        },
    }
}

proof fn lemma_listed(list: Option<Hostlist>, name: Seq<char>)
    ensures
        listed(list) is Some <==> is_given(list),
        listed(list) is Some ==> (listed(list)->0.contains(name) <==> holds(list, name)),
{
    if is_given(list) {
        lemma_hostlist_names(list->0.pattern@, list->0.expansion, name);
    }
}

/// The names in a host list are those that it expands to or, where it does not
/// expand, its fields; empty ones are left out, and the others keep their
/// order.
pub proof fn names_of_a_hostlist(
    pattern: &str,
    expansion: Option<Vec<String>>,
    names: Vec<String>,
    name: Seq<char>,
)
    requires
        call_ensures(expand_hostlist_or_split, (pattern, expansion), names),
    ensures
        has_name(names@, name) <==> name.len() > 0 && (match expansion {
            Some(all) => has_name(all@, name),
            None => has_field(pattern@, name),
        }),
        expansion is Some ==> strings(names@) == strings(expansion->0@).filter(
            |n: Seq<char>| n.len() > 0,
        ),
        expansion is None ==> strings(names@) == fields(pattern@).filter(
            |n: Seq<char>| n.len() > 0,
        ),
{
    lemma_hostlist_names(pattern@, expansion, name);
    names_in_a_set(names@, name);
}

/// A node is listed exactly if it is on the job's own list or, where the job
/// gave none and its credit is used, among the nodes credited to it.
pub proof fn listed_nodes(job: &Job, credited: bool, p: NodePlacement, name: &str, r: bool)
    requires
        is_placement(job, credited, p),
        call_ensures(NodePlacement::is_listed, (&p, name), r),
    ensures
        r <==> is_on_list(*job, credited, name@),
        r == p@.lists(name@),
{
    lemma_listed(job.spec.nodelist, name@);
    names_in_a_set(job.preferred_nodes@, name@);
}

/// A node list is additive exactly if it has fewer names, each counted once,
/// than the job needs nodes; a job needs at least one.
pub proof fn additive_lists(
    job: &Job,
    credited: bool,
    p: NodePlacement,
    r: bool,
    names: Seq<Seq<char>>,
)
    requires
        is_placement(job, credited, p),
        call_ensures(NodePlacement::nodelist_is_additive, (&p,), r),
        names.no_duplicates(),
        forall|name: Seq<char>| #[trigger]
            names.contains(name) <==> is_on_list(*job, credited, name),
    ensures
        r <==> has_list(*job, credited) && (names.len() < job.spec.num_nodes || names.len() == 0),
        r == p@.is_additive(),
{
    assert forall|name: Seq<char>| #[trigger] names.contains(name) <==> p@.lists(name) by {
        lemma_listed(job.spec.nodelist, name);
        names_in_a_set(job.preferred_nodes@, name);
    }
    lemma_listed(job.spec.nodelist, Seq::empty());
    if has_list(*job, credited) {
        assert(names.to_set() =~= p@.nodelist->0);
        names.unique_seq_to_set();
    }
}

/// A name is allowed exactly if it is not on the list of excluded nodes and, of
/// a node list that is not additive, is on it.
pub proof fn allowed_names(
    job: &Job,
    credited: bool,
    p: NodePlacement,
    name: &str,
    r: bool,
    additive: bool,
    on_list: bool,
)
    requires
        is_placement(job, credited, p),
        call_ensures(NodePlacement::allows_name, (&p, name), r),
        call_ensures(NodePlacement::nodelist_is_additive, (&p,), additive),
        call_ensures(NodePlacement::is_listed, (&p, name), on_list),
    ensures
        r <==> !holds(job.spec.exclude, name@) && (has_list(*job, credited) && !additive
            ==> on_list),
{
    lemma_listed(job.spec.exclude, name@);
    lemma_listed(job.spec.nodelist, name@);
}

/// A node has the features exactly if every field of the job's constraint that
/// is not empty, wherever it stands, is one of the node's features.
pub proof fn every_feature_is_required(
    job: &Job,
    credited: bool,
    p: NodePlacement,
    node: &Node,
    r: bool,
)
    requires
        is_placement(job, credited, p),
        call_ensures(NodePlacement::has_features, (&p, node), r),
    ensures
        job.spec.constraint is None ==> r,
        job.spec.constraint is Some ==> (r <==> forall|i: int|
            0 <= i < fields(job.spec.constraint->0@).len() && fields(
                job.spec.constraint->0@,
            )[i].len() > 0 ==> has_name(
                node.features@,
                #[trigger] fields(job.spec.constraint->0@)[i],
            )),
        r == p@.has_features(*node),
{
    if job.spec.constraint is Some {
        let all = fields(job.spec.constraint->0@);
        let kept = non_empty(all);
        let pred = |n: Seq<char>| n.len() > 0;
        assert(p@.required_features == kept);
        if r {
            assert forall|i: int| 0 <= i < all.len() && all[i].len() > 0 implies has_name(
                node.features@,
                #[trigger] all[i],
            ) by {
                assert(all.contains(all[i]));
                lemma_filter_contains(all, pred, all[i]);
                assert(kept.contains(all[i]));
                names_in_a_set(node.features@, all[i]);
            }
        }
        if forall|i: int|
            0 <= i < all.len() && all[i].len() > 0 ==> has_name(
                node.features@,
                #[trigger] all[i],
            ) {
            assert forall|f: Seq<char>| #[trigger] kept.contains(f) implies strings(
                node.features@,
            ).contains(f) by {
                lemma_filter_contains(all, pred, f);
                let i = choose|i: int| 0 <= i < all.len() && all[i] == f;
                assert(has_name(node.features@, all[i]));
                names_in_a_set(node.features@, f);
            }
        }
    }
}

/// A job whose constraint is made of pieces with commas between them is only
/// eligible for, and only matches, a node that has every piece, without the
/// white space around it, as a feature, blank pieces left aside; and a node
/// that has them all passes.
pub proof fn placed_nodes_have_every_piece(
    job: &Job,
    credited: bool,
    p: NodePlacement,
    node: &Node,
    reservations: &[Reservation],
    features: bool,
    eligible: bool,
    matches: bool,
    pieces: Seq<Seq<char>>,
)
    requires
        is_placement(job, credited, p),
        call_ensures(NodePlacement::has_features, (&p, node), features),
        call_ensures(NodePlacement::eligible, (&p, node, reservations), eligible),
        call_ensures(NodePlacement::matches, (&p, node, reservations), matches),
        job.spec.constraint is Some,
        pieces.len() > 0,
        free_of(pieces, ','),
        job.spec.constraint->0@ == joined(pieces, ','),
    ensures
        features <==> forall|i: int|
            0 <= i < pieces.len() && !all_white(#[trigger] pieces[i]) ==> has_name(
                node.features@,
                trimmed(pieces[i]),
            ),
        eligible ==> features,
        matches ==> features,
{
    let all = fields(job.spec.constraint->0@);
    fields_are_trimmed_pieces(job.spec.constraint->0@, pieces);
    every_feature_is_required(job, credited, p, node, features);
    assert forall|i: int| 0 <= i < pieces.len() implies (all[i].len() > 0 <==> !all_white(
        #[trigger] pieces[i],
    )) by {
        blank_texts(pieces[i]);
        assert(all[i] == trimmed(pieces[i]));
    }
    if features {
        assert forall|i: int| 0 <= i < pieces.len() && !all_white(#[trigger] pieces[i]) implies
        has_name(node.features@, trimmed(pieces[i])) by {
            assert(all[i].len() > 0);
            assert(has_name(node.features@, all[i]));
        }
    }
    if forall|i: int|
        0 <= i < pieces.len() && !all_white(#[trigger] pieces[i]) ==> has_name(
            node.features@,
            trimmed(pieces[i]),
        ) {
        assert forall|i: int| 0 <= i < all.len() && all[i].len() > 0 implies has_name(
            node.features@,
            #[trigger] all[i],
        ) by {
            assert(!all_white(pieces[i]));
        }
    }
}

/// A node is in a partition of the job exactly if the job asked for none, or
/// one of the fields of what it asked for is one of the node's partitions.
pub proof fn one_partition_is_enough(
    job: &Job,
    credited: bool,
    p: NodePlacement,
    node: &Node,
    r: bool,
)
    requires
        is_placement(job, credited, p),
        call_ensures(NodePlacement::in_partition, (&p, node), r),
    ensures
        job.spec.partition is None ==> r,
        job.spec.partition is Some ==> (r <==> exists|i: int|
            0 <= i < fields(job.spec.partition->0@).len() && has_name(
                node.partitions@,
                #[trigger] fields(job.spec.partition->0@)[i],
            )),
        r == p@.in_partition(*node),
{
    if job.spec.partition is Some {
        let all = fields(job.spec.partition->0@);
        joined_of_split(job.spec.partition->0@, ',');
        assert(all.len() > 0);
        assert(p@.partitions == all);
        if r {
            let w = choose|w: Seq<char>| #[trigger]
                all.contains(w) && strings(node.partitions@).contains(w);
            names_in_a_set(node.partitions@, w);
            let i = choose|i: int| 0 <= i < all.len() && all[i] == w;
            assert(has_name(node.partitions@, all[i]));
        }
        if exists|i: int| 0 <= i < all.len() && has_name(node.partitions@, #[trigger] all[i]) {
            let i = choose|i: int|
                0 <= i < all.len() && has_name(node.partitions@, #[trigger] all[i]);
            names_in_a_set(node.partitions@, all[i]);
            assert(all.contains(all[i]));
        }
    }
}

/// Whether the reservations leave a node to a job: one that names a reservation
/// needs one of that name that is active, covers the node and allows the job's
/// user; one that names none needs that no active one covers the node.
pub open spec fn is_left_to(job: Job, reservations: Seq<Reservation>) -> bool {
    if job.spec.reservation is Some && job.spec.reservation->0@.len() > 0 {
        exists|i: int|
            {
                &&& 0 <= i < reservations.len()
                &&& (#[trigger] reservations[i]).name@ == job.spec.reservation->0@
                &&& reservations[i].active
                &&& reservations[i].covers_node
                &&& reservations[i].allows_user
            }
    } else {
        forall|i: int|
            0 <= i < reservations.len() ==> !((#[trigger] reservations[i]).active
                && reservations[i].covers_node)
    }
}

/// A node is eligible exactly if its name is allowed, it is in a partition and
/// has the features that were asked for, and the reservations leave it to the
/// job.
pub proof fn eligible_nodes(
    job: &Job,
    credited: bool,
    p: NodePlacement,
    node: &Node,
    reservations: &[Reservation],
    r: bool,
    name: &str,
    allowed: bool,
    partition: bool,
    features: bool,
)
    requires
        is_placement(job, credited, p),
        call_ensures(NodePlacement::eligible, (&p, node, reservations), r),
        name@ == node.name@,
        call_ensures(NodePlacement::allows_name, (&p, name), allowed),
        call_ensures(NodePlacement::in_partition, (&p, node), partition),
        call_ensures(NodePlacement::has_features, (&p, node), features),
    ensures
        r <==> allowed && partition && features && is_left_to(*job, reservations@),
        r == p@.eligible(*node, reservations@),
{
    lemma_reservation_ok(*job, p@, reservations@);
}

proof fn lemma_reservation_ok(job: Job, p: PlacementView, reservations: Seq<Reservation>)
    requires
        p == placement_of(job, true) || p == placement_of(job, false),
    ensures
        p.reservation_ok(reservations) <==> is_left_to(job, reservations),
{
    match p.reservation {
        Some(name) => {
            if p.reservation_ok(reservations) {
                let i = choose|i: int|
                    0 <= i < reservations.len() && in_force(#[trigger] reservations[i])
                        && reservations[i].name@ == name && reservations[i].allows_user;
                assert(reservations[i].name@ == job.spec.reservation->0@);
            }
            if is_left_to(job, reservations) {
                let i = choose|i: int|
                    {
                        &&& 0 <= i < reservations.len()
                        &&& (#[trigger] reservations[i]).name@ == job.spec.reservation->0@
                        &&& reservations[i].active
                        &&& reservations[i].covers_node
                        &&& reservations[i].allows_user
                    };
                assert(in_force(reservations[i]));
            }
        },
        None => {
            if p.reservation_ok(reservations) {
                assert forall|i: int| 0 <= i < reservations.len() implies !((
                #[trigger] reservations[i]).active && reservations[i].covers_node) by {
                    assert(!in_force(reservations[i]));
                }
            }
            if is_left_to(job, reservations) {
                assert forall|i: int| 0 <= i < reservations.len() implies !in_force(
                    #[trigger] reservations[i],
                ) by {}
            }
        },
    }
}

/// A job may start on a node exactly if the node is eligible, takes work, is
/// idle where the job is exclusive, and is not claimed by k0s; the last is left
/// aside by the question that ignores k0s.
pub proof fn matching_nodes(
    job: &Job,
    credited: bool,
    p: NodePlacement,
    node: &Node,
    reservations: &[Reservation],
    eligible: bool,
    r: bool,
    ignoring_k0s: bool,
)
    requires
        is_placement(job, credited, p),
        call_ensures(NodePlacement::eligible, (&p, node, reservations), eligible),
        call_ensures(NodePlacement::matches, (&p, node, reservations), r),
        call_ensures(NodePlacement::matches_ignoring_k0s, (&p, node, reservations), ignoring_k0s),
    ensures
        ignoring_k0s <==> eligible && node.schedulable && (job.spec.exclusive ==> node.alloc_cpus
            == 0 && !node.alloc_devices),
        r <==> ignoring_k0s && !node.k0s_reserved,
{
}

/// A node is a candidate for a later start exactly if it is eligible, up, and
/// not claimed by k0s.
pub proof fn candidates_for_later(
    job: &Job,
    credited: bool,
    p: NodePlacement,
    node: &Node,
    reservations: &[Reservation],
    eligible: bool,
    r: bool,
)
    requires
        is_placement(job, credited, p),
        call_ensures(NodePlacement::eligible, (&p, node, reservations), eligible),
        call_ensures(NodePlacement::matches_for_reservation, (&p, node, reservations), r),
    ensures
        r <==> eligible && node.up && !node.k0s_reserved,
{
}

/// Whether a candidate is listed, eligible and able, but claimed by k0s or not
/// up.
pub open spec fn is_wanted_in_vain(p: PlacementView, c: Candidate) -> bool {
    &&& p.lists(c.node.name@)
    &&& p.eligible(c.node, c.reservations@)
    &&& c.can_satisfy
    &&& c.node.k0s_reserved || !c.node.up
}

/// An additive list cannot be had exactly if some candidate is listed, eligible
/// and able, but claimed by k0s or not up. So where it can be had, every
/// candidate that is listed, eligible and able is up and free of k0s; and a
/// list that is not additive never stands in the way.
pub proof fn unavailable_lists(
    job: &Job,
    credited: bool,
    p: NodePlacement,
    nodes: &[Candidate],
    additive: bool,
    r: bool,
)
    requires
        is_placement(job, credited, p),
        call_ensures(NodePlacement::nodelist_is_additive, (&p,), additive),
        call_ensures(NodePlacement::additive_listed_node_unavailable, (&p, nodes), r),
    ensures
        r <==> additive && exists|i: int|
            0 <= i < nodes@.len() && is_wanted_in_vain(p@, #[trigger] nodes@[i]),
        !r && additive ==> forall|i: int|
            0 <= i < nodes@.len() && p@.lists((#[trigger] nodes@[i]).node.name@) && p@.eligible(
                nodes@[i].node,
                nodes@[i].reservations@,
            ) && nodes@[i].can_satisfy ==> nodes@[i].node.up && !nodes@[i].node.k0s_reserved,
{
    assert forall|i: int| 0 <= i < nodes@.len() implies (p@.lacks(#[trigger] nodes@[i])
        <==> is_wanted_in_vain(p@, nodes@[i])) by {}
    if r {
        let i = choose|i: int| 0 <= i < nodes@.len() && p@.lacks(#[trigger] nodes@[i]);
        assert(is_wanted_in_vain(p@, nodes@[i]));
    }
    if additive && exists|i: int|
        0 <= i < nodes@.len() && is_wanted_in_vain(p@, #[trigger] nodes@[i]) {
        let i = choose|i: int|
            0 <= i < nodes@.len() && is_wanted_in_vain(p@, #[trigger] nodes@[i]);
        assert(p@.lacks(nodes@[i]));
    }
    if !r && additive {
        assert forall|i: int|
            0 <= i < nodes@.len() && p@.lists((#[trigger] nodes@[i]).node.name@) && p@.eligible(
                nodes@[i].node,
                nodes@[i].reservations@,
            ) && nodes@[i].can_satisfy implies nodes@[i].node.up
            && !nodes@[i].node.k0s_reserved by {
            let c = nodes@[i];
            if c.node.k0s_reserved || !c.node.up {
                assert(p@.lacks(nodes@[i]));
                assert(r);
            }
        }
    }
}

} // verus!
