//! Laws of the caches: what they answer after what happened to them.
use crate::limits_cache::{
    consumed_minutes, figures, is_last_of_its_name, lists_values_of, qos_by_name, Fetched,
    GrpWallCache, GrpWallUsage, QosCache,
};
use crate::names::NameMap;
use crate::qos::{is_qos_of, Qos, QosRecord};
use crate::text::text_le;
use std::sync::Arc;
use vstd::prelude::*;

verus! {

/// A map answers with the value that was last put under a name, and with what
/// it had under every other name.
pub proof fn maps_keep_what_is_put_in<V>(
    m: &mut NameMap<V>,
    name: String,
    value: V,
    other: &str,
    before: NameMap<V>,
    after: NameMap<V>,
    had: Option<&V>,
    has: Option<&V>,
)
    requires
        call_ensures(NameMap::<V>::insert, (m, name, value), ()),
        before == *old(m),
        after == *final(m),
        call_ensures(NameMap::<V>::get, (&before, other), had),
        call_ensures(NameMap::<V>::get, (&after, other), has),
    ensures
        other@ == name@ ==> has == Some(&value),
        other@ != name@ ==> has == had,
{
}

/// A new map answers nothing and counts nothing.
pub proof fn new_maps_are_empty<V>(m: NameMap<V>, name: &str, has: Option<&V>, n: usize)
    requires
        call_ensures(NameMap::<V>::new, (), m),
        call_ensures(NameMap::<V>::get, (&m, name), has),
        call_ensures(NameMap::<V>::len, (&m,), n),
    ensures
        has is None,
        n == 0,
{
}

/// The definitions that rows give: each name that a row has, and no other, and
/// under it what the last row of that name stores.
pub proof fn rows_become_definitions<M: Default, T>(
    records: Vec<QosRecord<M, T>>,
    m: NameMap<Qos<M, T>>,
    name: &str,
    q: Option<&Qos<M, T>>,
)
    requires
        call_ensures(qos_by_name::<M, T>, (records,), m),
        call_ensures(NameMap::<Qos<M, T>>::get, (&m, name), q),
    ensures
        q is Some <==> exists|i: int|
            0 <= i < records@.len() && (#[trigger] records@[i]).name@ == name@,
        q is Some ==> q->0.name@ == name@,
        forall|i: int|
            0 <= i < records@.len() && (#[trigger] records@[i]).name@ == name@ && (forall|j: int|
                i < j < records@.len() ==> (#[trigger] records@[j]).name@ != name@) ==> q is Some
                && is_qos_of(*q->0, records@[i]),
{
    assert(m@.dom().contains(name@) <==> exists|i: int|
        0 <= i < records@.len() && (#[trigger] records@[i]).name@ == name@);
    assert forall|i: int|
        0 <= i < records@.len() && (#[trigger] records@[i]).name@ == name@ && (forall|j: int|
            i < j < records@.len() ==> (#[trigger] records@[j]).name@ != name@) implies q is Some
        && is_qos_of(*q->0, records@[i]) by {
        assert(is_last_of_its_name(records@, i));
        assert(is_qos_of(m@[records@[i].name@], records@[i]));
    }
}

/// A new cache is not loaded and answers nothing, and so does one that was
/// reset.
pub proof fn new_caches_are_empty<M, T>(
    cache: QosCache<M, T>,
    reset: &mut QosCache<M, T>,
    cleared: QosCache<M, T>,
    name: &str,
    q: Option<&Qos<M, T>>,
    p: Option<&Qos<M, T>>,
    loaded: bool,
    still_loaded: bool,
)
    requires
        call_ensures(QosCache::<M, T>::new, (), cache),
        call_ensures(QosCache::<M, T>::get, (&cache, name), q),
        call_ensures(QosCache::<M, T>::is_loaded, (&cache,), loaded),
        call_ensures(QosCache::<M, T>::reset, (reset,), ()),
        cleared == *final(reset),
        call_ensures(QosCache::<M, T>::get, (&cleared, name), p),
        call_ensures(QosCache::<M, T>::is_loaded, (&cleared,), still_loaded),
    ensures
        q is None,
        p is None,
        !loaded,
        !still_loaded,
{
}

/// A cache made by default is a new one.
pub proof fn default_caches_are_new<M, T>(cache: QosCache<M, T>, figures: GrpWallCache)
    requires
        call_ensures(<QosCache<M, T> as Default>::default, (), cache),
        call_ensures(<GrpWallCache as Default>::default, (), figures),
    ensures
        !cache@.loaded,
        cache@.qos == Map::<Seq<char>, Qos<M, T>>::empty(),
        figures@ is None,
{
}

/// After a refresh that loaded definitions, the cache is loaded and answers
/// every name as they do. After one that failed or timed out, it answers as
/// before.
pub proof fn refreshes_replace_or_keep<M, T>(
    cache: &mut QosCache<M, T>,
    outcome: Fetched<NameMap<Qos<M, T>>>,
    before: QosCache<M, T>,
    after: QosCache<M, T>,
    name: &str,
    had: Option<&Qos<M, T>>,
    has: Option<&Qos<M, T>>,
    was_loaded: bool,
    is_loaded: bool,
)
    requires
        call_ensures(QosCache::<M, T>::refresh, (cache, outcome), ()),
        before == *old(cache),
        after == *final(cache),
        call_ensures(QosCache::<M, T>::get, (&before, name), had),
        call_ensures(QosCache::<M, T>::get, (&after, name), has),
        call_ensures(QosCache::<M, T>::is_loaded, (&before,), was_loaded),
        call_ensures(QosCache::<M, T>::is_loaded, (&after,), is_loaded),
    ensures
        outcome matches Fetched::Loaded(m) ==> {
            &&& is_loaded
            &&& has is Some <==> m@.dom().contains(name@)
            &&& has is Some ==> *has->0 == m@[name@]
        },
        !(outcome is Loaded) ==> has == had && is_loaded == was_loaded,
{
}

/// Replacing the definitions makes the cache answer as the new ones do.
pub proof fn replacing_is_loading<M, T>(
    cache: &mut QosCache<M, T>,
    m: NameMap<Qos<M, T>>,
    after: QosCache<M, T>,
    name: &str,
    has: Option<&Qos<M, T>>,
    is_loaded: bool,
)
    requires
        call_ensures(QosCache::<M, T>::replace, (cache, m), ()),
        after == *final(cache),
        call_ensures(QosCache::<M, T>::get, (&after, name), has),
        call_ensures(QosCache::<M, T>::is_loaded, (&after,), is_loaded),
    ensures
        is_loaded,
        has is Some <==> m@.dom().contains(name@),
        has is Some ==> *has->0 == m@[name@],
{
}

/// A definition that is put in is what the cache answers under its own name,
/// and every other answer stays.
pub proof fn insertions_touch_one_name<M, T>(
    cache: &mut QosCache<M, T>,
    q: Qos<M, T>,
    before: QosCache<M, T>,
    after: QosCache<M, T>,
    name: &str,
    had: Option<&Qos<M, T>>,
    has: Option<&Qos<M, T>>,
    is_loaded: bool,
)
    requires
        call_ensures(QosCache::<M, T>::insert, (cache, q), ()),
        before == *old(cache),
        after == *final(cache),
        call_ensures(QosCache::<M, T>::get, (&before, name), had),
        call_ensures(QosCache::<M, T>::get, (&after, name), has),
        call_ensures(QosCache::<M, T>::is_loaded, (&after,), is_loaded),
    ensures
        is_loaded,
        name@ == q.name@ ==> has == Some(&q),
        name@ != q.name@ ==> has == had,
{
}

/// The list of all definitions holds what the cache answers under each name,
/// as often as there are names, and no name comes before a smaller one.
pub proof fn lists_hold_every_definition<M, T>(
    cache: QosCache<M, T>,
    all: Vec<&Qos<M, T>>,
    name: &str,
    has: Option<&Qos<M, T>>,
    i: int,
    j: int,
)
    requires
        call_ensures(QosCache::<M, T>::all, (&cache,), all),
        call_ensures(QosCache::<M, T>::get, (&cache, name), has),
    ensures
        has is Some ==> exists|k: int| 0 <= k < all@.len() && *(#[trigger] all@[k]) == *has->0,
        all@.len() == cache@.qos.dom().len(),
        0 <= i < j < all@.len() ==> text_le(all@[i].name@, all@[j].name@),
        0 <= i < all@.len() ==> exists|n: Seq<char>| #[trigger]
            cache@.qos.dom().contains(n) && cache@.qos[n] == *all@[i],
{
    let names = choose|names: Seq<Seq<char>>| #[trigger]
        lists_values_of(all@, cache@.qos, names);
    names.unique_seq_to_set();
    if has is Some {
        assert(names.to_set().contains(name@));
        let k = choose|k: int| 0 <= k < names.len() && names[k] == name@;
        assert(*all@[k] == *has->0);
    }
    if 0 <= i < all@.len() {
        assert(names.to_set().contains(names[i]));
        assert(cache@.qos.dom().contains(names[i]) && cache@.qos[names[i]] == *all@[i]);
    }
}

/// Nothing is known of a QOS before the first figures are loaded.
pub proof fn nothing_is_known_at_first(
    cache: GrpWallCache,
    usage: GrpWallUsage,
    name: &str,
    minutes: Option<u64>,
)
    requires
        call_ensures(GrpWallCache::new, (), cache),
        call_ensures(GrpWallCache::usage, (&cache,), usage),
        call_ensures(consumed_minutes, (&usage, name), minutes),
    ensures
        minutes is None,
{
}

/// The minutes of a QOS are those in the snapshot, and zero where it has none.
pub proof fn minutes_are_the_figures(
    consumed: Arc<NameMap<u64>>,
    name: &str,
    minutes: Option<u64>,
)
    requires
        call_ensures(consumed_minutes, (&Some(consumed), name), minutes),
    ensures
        consumed@.dom().contains(name@) ==> minutes == Some(consumed@[name@]),
        !consumed@.dom().contains(name@) ==> minutes == Some(0u64),
{
}

/// After figures were loaded, the minutes of every QOS are those of the new
/// figures. After a failure or a timeout, they are what they were. The first
/// load, and no other attempt, tells how many QOS there are.
pub proof fn figures_are_replaced_or_kept(
    cache: &mut GrpWallCache,
    outcome: Fetched<NameMap<u64>>,
    initialized: Option<usize>,
    before: GrpWallCache,
    after: GrpWallCache,
    usage: GrpWallUsage,
    later: GrpWallUsage,
    name: &str,
    had: Option<u64>,
    has: Option<u64>,
)
    requires
        call_ensures(GrpWallCache::refresh_once, (cache, outcome), initialized),
        before == *old(cache),
        after == *final(cache),
        call_ensures(GrpWallCache::usage, (&before,), usage),
        call_ensures(GrpWallCache::usage, (&after,), later),
        call_ensures(consumed_minutes, (&usage, name), had),
        call_ensures(consumed_minutes, (&later, name), has),
    ensures
        outcome matches Fetched::Loaded(m) ==> {
            &&& m@.dom().contains(name@) ==> has == Some(m@[name@])
            &&& !m@.dom().contains(name@) ==> has == Some(0u64)
            &&& initialized is Some <==> had is None
            &&& initialized is Some ==> initialized->0 == m@.dom().len()
        },
        !(outcome is Loaded) ==> has == had && initialized is None,
{
    assert(had is None <==> figures(usage) is None);
}

/// Figures that are put in are what the cache answers from then on; they are
/// the first exactly if nothing was known.
pub proof fn figures_that_are_put_in(
    cache: &mut GrpWallCache,
    consumed: NameMap<u64>,
    first: bool,
    seeded: &mut GrpWallCache,
    before: GrpWallCache,
    after: GrpWallCache,
    name: &str,
    usage: GrpWallUsage,
    later: GrpWallUsage,
    had: Option<u64>,
    has: Option<u64>,
)
    requires
        call_ensures(GrpWallCache::replace, (cache, consumed), first),
        call_ensures(GrpWallCache::seed, (seeded, consumed), ()),
        before == *old(cache),
        after == *final(cache) || after == *final(seeded),
        call_ensures(GrpWallCache::usage, (&before,), usage),
        call_ensures(GrpWallCache::usage, (&after,), later),
        call_ensures(consumed_minutes, (&usage, name), had),
        call_ensures(consumed_minutes, (&later, name), has),
    ensures
        first <==> had is None,
        consumed@.dom().contains(name@) ==> has == Some(consumed@[name@]),
        !consumed@.dom().contains(name@) ==> has == Some(0u64),
{
}

} // verus!
