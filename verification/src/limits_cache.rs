//! Controller-side caches of what the accounting database knows: the QOS
//! definitions, and the wall-clock time that each QOS has consumed.
//!
//! Both are refreshed in the background and keep what they have when a refresh
//! fails. Here stand their states and what each refresh makes of them; locks,
//! timers and the database are their owner's.
use crate::names::NameMap;
use crate::qos::{
    has_one_default, is_cleaned_row, is_qos_of, qos_from_record, same_but_for_mode, same_qos,
    unusable_tres_is_unset, Qos, QosRecord,
};
use crate::text::{
    lemma_push_contains, str_le, text_le, text_order_is_antisymmetric, text_order_is_total,
    text_order_is_transitive,
};
use std::sync::Arc;
use vstd::prelude::*;

verus! {

/// What came of an attempt to fetch a fresh value.
pub enum Fetched<V> {
    /// It arrived.
    Loaded(V),
    /// The database reported an error.
    Failed,
    /// It did not arrive in time.
    TimedOut,
}

/// The maps that an attempt brought, by their contents.
pub open spec fn fetched_map<V>(outcome: Fetched<NameMap<V>>) -> Fetched<Map<Seq<char>, V>> {
    match outcome {
        Fetched::Loaded(m) => Fetched::Loaded(m@),
        Fetched::Failed => Fetched::Failed,
        Fetched::TimedOut => Fetched::TimedOut,
    }
}

/// The value that the last successful attempt brought.
pub open spec fn last_loaded<V>(outcomes: Seq<Fetched<V>>) -> Option<V>
    decreases outcomes.len(),
{
    if outcomes.len() == 0 {
        None
    } else {
        match outcomes.last() {
            Fetched::Loaded(v) => Some(v),
            _ => last_loaded(outcomes.drop_last()),
        }
    }
}

/// The QOS that rows store, by name; of rows with one name the last counts.
pub open spec fn are_qos_of<M: Default, T>(
    m: Map<Seq<char>, Qos<M, T>>,
    records: Seq<QosRecord<M, T>>,
) -> bool {
    &&& forall|name: Seq<char>| #[trigger]
        m.dom().contains(name) <==> exists|i: int|
            0 <= i < records.len() && (#[trigger] records[i]).name@ == name
    &&& forall|i: int|
        0 <= i < records.len() && is_last_of_its_name(records, i) ==> is_qos_of(
            m[(#[trigger] records[i]).name@],
            records[i],
        )
}

/// Whether no later row has the name of row `i`.
pub open spec fn is_last_of_its_name<M, T>(records: Seq<QosRecord<M, T>>, i: int) -> bool {
    forall|j: int| i < j < records.len() ==> (#[trigger] records[j]).name@ != records[i].name@
}

/// The QOS that the rows of the database store, by name.
pub fn qos_by_name<M: Default, T>(records: Vec<QosRecord<M, T>>) -> (m: NameMap<Qos<M, T>>)
    ensures
        are_qos_of(m@, records@),
        filed_by_name(m@),
{
    let mut m: NameMap<Qos<M, T>> = NameMap::new();
    let ghost all = records@;
    for record in it: records
        invariant
            it.seq() == all,
            are_qos_of(m@, all.take(it.index())),
            filed_by_name(m@),
    {
        let ghost before = m@;
        let ghost seen = all.take(it.index());
        let ghost row = record;
        let name = record.name.clone();
        let q = qos_from_record(record);
        m.insert(name, q);
        proof {
            let now = all.take(it.index() + 1);
            assert(now =~= seen.push(row));
            assert forall|n: Seq<char>| #[trigger] m@.dom().contains(n) <==> exists|i: int|
                0 <= i < now.len() && (#[trigger] now[i]).name@ == n by {
                if before.dom().contains(n) {
                    let i = choose|i: int|
                        0 <= i < seen.len() && (#[trigger] seen[i]).name@ == n;
                    assert(now[i].name@ == n);
                }
                if n == row.name@ {
                    assert(now[seen.len() as int].name@ == n);
                }
                if exists|i: int| 0 <= i < now.len() && (#[trigger] now[i]).name@ == n {
                    let i = choose|i: int| 0 <= i < now.len() && (#[trigger] now[i]).name@ == n;
                    if i < seen.len() {
                        assert(seen[i].name@ == n);
                    }
                }
            }
            assert forall|i: int| 0 <= i < now.len() && is_last_of_its_name(now, i) implies is_qos_of(
                m@[(#[trigger] now[i]).name@],
                now[i],
            ) by {
                if i < seen.len() {
                    assert(now[seen.len() as int].name@ != now[i].name@);
                    assert(seen[i] == now[i]);
                    assert(is_last_of_its_name(seen, i)) by {
                        assert forall|j: int| i < j < seen.len() implies (#[trigger] seen[j]).name@
                            != seen[i].name@ by {
                            assert(now[j] == seen[j]);
                        }
                    }
                    assert(seen[i].name@ != row.name@);
                }
            }
        }
    }
    assert(all.take(all.len() as int) =~= all);
    m
}

/// Whether every QOS in a map stands under its own name.
pub open spec fn filed_by_name<M, T>(m: Map<Seq<char>, Qos<M, T>>) -> bool {
    forall|name: Seq<char>| #[trigger] m.dom().contains(name) ==> m[name].name@ == name
}

/// The state of the QOS cache.
#[verifier::reject_recursive_types(M)]
#[verifier::reject_recursive_types(T)]
#[verifier::ext_equal]
pub struct QosCacheView<M, T> {
    pub qos: Map<Seq<char>, Qos<M, T>>,
    /// A fetch has succeeded at least once.
    pub loaded: bool,
}

impl<M, T> QosCacheView<M, T> {
    /// The cache before the first fetch.
    pub open spec fn initial() -> Self {
        QosCacheView { qos: Map::empty(), loaded: false }
    }

    /// The cache after an attempt to refresh it. One that brought nothing
    /// leaves what is there.
    pub open spec fn refreshed(self, outcome: Fetched<Map<Seq<char>, Qos<M, T>>>) -> Self {
        match outcome {
            Fetched::Loaded(qos) => QosCacheView { qos, loaded: true },
            _ => self,
        }
    }

    /// The cache after several attempts.
    pub open spec fn after(self, outcomes: Seq<Fetched<Map<Seq<char>, Qos<M, T>>>>) -> Self
        decreases outcomes.len(),
    {
        if outcomes.len() == 0 {
            self
        } else {
            self.after(outcomes.drop_last()).refreshed(outcomes.last())
        }
    }
}

/// The cache of QOS definitions.
pub struct QosCache<M, T> {
    qos: NameMap<Qos<M, T>>,
    loaded: bool,
}

impl<M, T> View for QosCache<M, T> {
    type V = QosCacheView<M, T>;

    closed spec fn view(&self) -> QosCacheView<M, T> {
        QosCacheView { qos: self.qos@, loaded: self.loaded }
    }
}

/// Whether `listed` holds the values of a map, one for each name.
pub open spec fn lists_values<V>(listed: Seq<&V>, m: Map<Seq<char>, V>) -> bool {
    exists|names: Seq<Seq<char>>| #[trigger] lists_values_of(listed, m, names)
}

/// Whether `listed` holds the values of a map under `names`, which are the
/// names in the map, each once.
pub open spec fn lists_values_of<V>(
    listed: Seq<&V>,
    m: Map<Seq<char>, V>,
    names: Seq<Seq<char>>,
) -> bool {
    &&& names.no_duplicates()
    &&& names.to_set() == m.dom()
    &&& names.len() == listed.len()
    &&& forall|i: int| 0 <= i < listed.len() ==> *(#[trigger] listed[i]) == m[names[i]]
}

/// Whether the QOS stand in the order of their names.
pub open spec fn sorted_by_name<M, T>(listed: Seq<&Qos<M, T>>) -> bool {
    forall|i: int, j: int|
        0 <= i <= j < listed.len() ==> text_le(
            (#[trigger] listed[i]).name@,
            (#[trigger] listed[j]).name@,
        )
}

impl<M, T> QosCache<M, T> {
    /// The cache before the first fetch.
    pub fn new() -> (cache: Self)
        ensures
            cache@ == QosCacheView::<M, T>::initial(),
    {
        QosCache { qos: NameMap::new(), loaded: false }
    }

    /// The QOS of a name.
    pub fn get(&self, name: &str) -> (qos: Option<&Qos<M, T>>)
        ensures
            match qos {
                Some(q) => self@.qos.dom().contains(name@) && *q == self@.qos[name@],
                None => !self@.qos.dom().contains(name@),
            },
    {
        self.qos.get(name)
    }

    /// Whether a fetch has succeeded at least once.
    pub fn is_loaded(&self) -> (loaded: bool)
        ensures
            loaded == self@.loaded,
    {
        self.loaded
    }

    /// Every cached QOS, name-sorted, so that a view for operators can report
    /// a QOS that no job is using.
    pub fn all(&self) -> (all: Vec<&Qos<M, T>>)
        ensures
            lists_values(all@, self@.qos),
            sorted_by_name(all@),
    {
        let n = self.qos.len();
        let mut all: Vec<&Qos<M, T>> = Vec::new();
        let ghost mut names: Seq<Seq<char>> = Seq::empty();
        let ghost keys = self.qos.keys();
        let mut i: usize = 0;
        while i < n
            invariant
                i <= n,
                n == keys.len(),
                keys == self.qos.keys(),
                sorted_by_name(all@),
                names.len() == i,
                all.len() == i,
                forall|j: int| 0 <= j < i ==> *(#[trigger] all@[j]) == self.qos@[names[j]],
                forall|k: Seq<char>| names.contains(k) <==> keys.take(i as int).contains(k),
            decreases n - i,
        {
            let q = self.qos.entry(i);
            let mut at: usize = 0;
            while at < all.len() && str_le(all[at].name.as_str(), q.name.as_str())
                invariant
                    at <= all.len(),
                    forall|j: int| 0 <= j < at ==> text_le((#[trigger] all@[j]).name@, q.name@),
                decreases all.len() - at,
            {
                at = at + 1;
            }
            let ghost before = all@;
            let ghost old_names = names;
            all.insert(at, q);
            proof {
                names = old_names.insert(at as int, keys[i as int]);
                lemma_insert_keeps_order(before, at as int, q);
                assert(keys.take(i + 1) =~= keys.take(i as int).push(keys[i as int]));
                assert forall|k: Seq<char>| names.contains(k) <==> keys.take(i + 1).contains(k) by {
                    lemma_insert_contains(old_names, at as int, keys[i as int], k);
                    lemma_push_contains(keys.take(i as int), keys[i as int], k);
                }
            }
            i = i + 1;
        }
        proof {
            assert(keys.take(n as int) =~= keys);
            assert(names.to_set() =~= self.qos@.dom());
            names.lemma_no_dup_set_cardinality();
            assert(lists_values_of(all@, self@.qos, names));
        }
        all
    }

    /// Puts freshly fetched definitions in place of the old ones.
    pub fn replace(&mut self, new_qos: NameMap<Qos<M, T>>)
        ensures
            final(self)@ == old(self)@.refreshed(Fetched::Loaded(new_qos@)),
    {
        self.qos = new_qos;
        self.loaded = true;
    }

    /// Puts one definition into the cache.
    pub fn insert(&mut self, qos: Qos<M, T>)
        ensures
            final(self)@ == (QosCacheView {
                qos: old(self)@.qos.insert(qos.name@, qos),
                loaded: true,
            }),
    {
        let name = qos.name.clone();
        self.qos.insert(name, qos);
        self.loaded = true;
    }

    /// Returns the cache to its state before the first fetch.
    pub fn reset(&mut self)
        ensures
            final(self)@ == QosCacheView::<M, T>::initial(),
    {
        self.qos = NameMap::new();
        self.loaded = false;
    }

    /// Takes note of what came of an attempt to refresh the cache.
    pub fn refresh(&mut self, outcome: Fetched<NameMap<Qos<M, T>>>)
        ensures
            final(self)@ == old(self)@.refreshed(fetched_map(outcome)),
    {
        match outcome {
            Fetched::Loaded(qos) => self.replace(qos),
            Fetched::Failed => {},
            Fetched::TimedOut => {},
        }
    }
}

impl<M, T> Default for QosCache<M, T> {
    fn default() -> (cache: Self)
        ensures
            cache@ == QosCacheView::<M, T>::initial(),
    {
        QosCache::new()
    }
}

/// A value put where all before it are no greater and the next one is not
/// smaller keeps a list in order.
proof fn lemma_insert_keeps_order<M, T>(listed: Seq<&Qos<M, T>>, at: int, q: &Qos<M, T>)
    requires
        sorted_by_name(listed),
        0 <= at <= listed.len(),
        forall|j: int| 0 <= j < at ==> text_le((#[trigger] listed[j]).name@, q.name@),
        at < listed.len() ==> !text_le(listed[at].name@, q.name@),
    ensures
        sorted_by_name(listed.insert(at, q)),
{
    let after = listed.insert(at, q);
    assert forall|i: int, j: int| 0 <= i <= j < after.len() implies text_le(
        (#[trigger] after[i]).name@,
        (#[trigger] after[j]).name@,
    ) by {
        if i == at && j == at {
            text_order_is_total(q.name@, q.name@);
        } else if i == at {
            text_order_is_total(listed[at].name@, q.name@);
            assert(after[j] == listed[j - 1]);
            assert(text_le(listed[at].name@, listed[j - 1].name@));
            text_order_is_transitive(q.name@, listed[at].name@, listed[j - 1].name@);
        } else if j == at {
            assert(after[i] == listed[i]);
        } else {
            let a = if i < at {
                i
            } else {
                i - 1
            };
            let b = if j < at {
                j
            } else {
                j - 1
            };
            assert(after[i] == listed[a]);
            assert(after[j] == listed[b]);
        }
    }
}

/// What a sequence contains after an insertion.
proof fn lemma_insert_contains<A>(s: Seq<A>, at: int, x: A, a: A)
    requires
        0 <= at <= s.len(),
    ensures
        s.insert(at, x).contains(a) <==> s.contains(a) || a == x,
{
    let after = s.insert(at, x);
    if s.contains(a) {
        let i = choose|i: int| 0 <= i < s.len() && s[i] == a;
        if i < at {
            assert(after[i] == a);
        } else {
            assert(after[i + 1] == a);
        }
    }
    assert(after[at] == x);
    if after.contains(a) && a != x {
        let i = choose|i: int| 0 <= i < after.len() && after[i] == a;
        if i < at {
            assert(s[i] == a);
        } else {
            assert(s[i - 1] == a);
        }
    }
}

/// Minutes of wall-clock time by QOS, taken once for a scheduling pass. `None`
/// means that no figure has been read yet, which leaves budgets unapplied.
pub type GrpWallUsage = Option<Arc<NameMap<u64>>>;

/// The figures in a snapshot, by QOS name.
pub open spec fn figures(usage: GrpWallUsage) -> Option<Map<Seq<char>, u64>> {
    match usage {
        Some(consumed) => Some(consumed@),
        None => None,
    }
}

/// The minutes that a QOS has consumed: zero for one without job history,
/// unknown while nothing has been read.
pub open spec fn minutes_of(
    figures: Option<Map<Seq<char>, u64>>,
    qos_name: Seq<char>,
) -> Option<u64> {
    match figures {
        Some(consumed) => if consumed.dom().contains(qos_name) {
            Some(consumed[qos_name])
        } else {
            Some(0)
        },
        None => None,
    }
}

/// Minutes consumed by `qos_name` within a pass's snapshot. A loaded snapshot
/// reports zero for a QOS without job history; an unloaded one reports `None`.
pub fn consumed_minutes(usage: &GrpWallUsage, qos_name: &str) -> (minutes: Option<u64>)
    ensures
        minutes == minutes_of(figures(*usage), qos_name@),
{
    match usage {
        Some(consumed) => match consumed.get(qos_name) {
            Some(minutes) => Some(*minutes),
            None => Some(0),
        },
        None => None,
    }
}

/// Another handle on a shared value: `std::sync::Arc::clone`, which makes
/// another pointer to the same value.
#[verifier::external_body]
fn share<T>(value: &Arc<T>) -> (handle: Arc<T>)
    ensures
        handle == *value,
{
    Arc::clone(value)
}

/// The figures after an attempt to refresh them. One that brought nothing
/// keeps the last figures.
pub open spec fn figures_refreshed(
    figures: Option<Map<Seq<char>, u64>>,
    outcome: Fetched<Map<Seq<char>, u64>>,
) -> Option<Map<Seq<char>, u64>> {
    match outcome {
        Fetched::Loaded(consumed) => Some(consumed),
        _ => figures,
    }
}

/// The figures after several attempts.
pub open spec fn figures_after(
    figures: Option<Map<Seq<char>, u64>>,
    outcomes: Seq<Fetched<Map<Seq<char>, u64>>>,
) -> Option<Map<Seq<char>, u64>>
    decreases outcomes.len(),
{
    if outcomes.len() == 0 {
        figures
    } else {
        figures_refreshed(figures_after(figures, outcomes.drop_last()), outcomes.last())
    }
}

/// Wall-clock consumption per QOS, derived from the job history in the
/// accounting database. Nothing is known until a first load succeeds, which
/// leaves the limit unapplied while accounting is unavailable. A refresh that
/// fails later keeps the last figures, so that spending cannot run unbounded
/// while the database is away.
pub struct GrpWallCache {
    snapshot: GrpWallUsage,
}

impl View for GrpWallCache {
    type V = Option<Map<Seq<char>, u64>>;

    closed spec fn view(&self) -> Option<Map<Seq<char>, u64>> {
        figures(self.snapshot)
    }
}

impl GrpWallCache {
    /// The cache before the first load.
    pub fn new() -> (cache: Self)
        ensures
            cache@ is None,
    {
        GrpWallCache { snapshot: None }
    }

    /// Snapshot for one scheduling pass. Read `consumed_minutes` from it per
    /// job.
    pub fn usage(&self) -> (usage: GrpWallUsage)
        ensures
            figures(usage) == self@,
    {
        match &self.snapshot {
            Some(consumed) => Some(share(consumed)),
            None => None,
        }
    }

    /// Puts freshly read figures in place of the old ones. The result tells
    /// whether these are the first.
    pub fn replace(&mut self, consumed: NameMap<u64>) -> (first: bool)
        ensures
            final(self)@ == Some(consumed@),
            first == (old(self)@ is None),
    {
        let first = self.snapshot.is_none();
        self.snapshot = Some(Arc::new(consumed));
        first
    }

    /// Puts figures into the cache.
    pub fn seed(&mut self, consumed: NameMap<u64>)
        ensures
            final(self)@ == Some(consumed@),
    {
        let _ = self.replace(consumed);
    }

    /// Takes note of what came of an attempt to refresh the cache. The result
    /// is the number of QOS in the first figures that were loaded: until then
    /// no budget is applied, and an operator is to be told that it now is.
    pub fn refresh_once(&mut self, outcome: Fetched<NameMap<u64>>) -> (initialized: Option<usize>)
        ensures
            final(self)@ == figures_refreshed(old(self)@, fetched_map(outcome)),
            match initialized {
                Some(qos_count) => announces(old(self)@, fetched_map(outcome)) && qos_count
                    == final(self)@->0.len(),
                None => !announces(old(self)@, fetched_map(outcome)),
            },
    {
        match outcome {
            Fetched::Loaded(consumed) => {
                let qos_count = consumed.len();
                if self.replace(consumed) {
                    Some(qos_count)
                } else {
                    None
                }
            },
            Fetched::Failed => None,
            Fetched::TimedOut => None,
        }
    }
}

/// Whether an attempt brings the first figures.
pub open spec fn announces(
    figures: Option<Map<Seq<char>, u64>>,
    outcome: Fetched<Map<Seq<char>, u64>>,
) -> bool {
    figures is None && outcome is Loaded
}

impl Default for GrpWallCache {
    fn default() -> (cache: Self)
        ensures
            cache@ is None,
    {
        GrpWallCache::new()
    }
}

/// What the last successful attempt brought is what some attempt brought that
/// no successful one follows; there is none if and only if all failed.
pub proof fn last_load_is_the_last<V>(outcomes: Seq<Fetched<V>>)
    ensures
        match last_loaded(outcomes) {
            Some(v) => exists|i: int|
                0 <= i < outcomes.len() && #[trigger] outcomes[i] == Fetched::Loaded(v) && (
                forall|j: int| i < j < outcomes.len() ==> !((#[trigger] outcomes[j]) is Loaded)),
            None => forall|j: int|
                0 <= j < outcomes.len() ==> !((#[trigger] outcomes[j]) is Loaded),
        },
    decreases outcomes.len(),
{
    if outcomes.len() > 0 {
        let before = outcomes.drop_last();
        last_load_is_the_last(before);
        let n = outcomes.len() - 1;
        match outcomes.last() {
            Fetched::Loaded(v) => {
                assert(outcomes[n] == Fetched::Loaded(v));
            },
            _ => {
                assert(!(outcomes[n] is Loaded));
                assert forall|j: int| 0 <= j < n implies outcomes[j] == #[trigger] before[j] by {}
                match last_loaded(before) {
                    Some(v) => {
                        let i = choose|i: int|
                            0 <= i < before.len() && #[trigger] before[i] == Fetched::Loaded(v) && (
                            forall|j: int|
                                i < j < before.len() ==> !((#[trigger] before[j]) is Loaded));
                        assert(outcomes[i] == Fetched::Loaded(v));
                        assert forall|j: int| i < j < outcomes.len() implies !((
                        #[trigger] outcomes[j]) is Loaded) by {
                            if j < n {
                                assert(!(before[j] is Loaded));
                            }
                        }
                    },
                    None => {
                        assert forall|j: int| 0 <= j < outcomes.len() implies !((
                        #[trigger] outcomes[j]) is Loaded) by {
                            if j < n {
                                assert(!(before[j] is Loaded));
                            }
                        }
                    },
                }
            },
        }
    }
}

/// After any number of refreshes the QOS cache holds what the last successful
/// one brought and counts as loaded; as long as none succeeds it is what it
/// was.
pub proof fn qos_cache_holds_the_last_load<M, T>(
    cache: QosCacheView<M, T>,
    outcomes: Seq<Fetched<Map<Seq<char>, Qos<M, T>>>>,
)
    ensures
        cache.after(outcomes) == match last_loaded(outcomes) {
            Some(qos) => QosCacheView { qos, loaded: true },
            None => cache,
        },
    decreases outcomes.len(),
{
    if outcomes.len() > 0 {
        qos_cache_holds_the_last_load(cache, outcomes.drop_last());
    }
}

/// After any number of refreshes the consumed minutes are those of the last
/// successful one. A failure never takes a figure back: they are unknown only
/// while none was known and no refresh has succeeded.
pub proof fn consumption_is_the_last_load(
    figures: Option<Map<Seq<char>, u64>>,
    outcomes: Seq<Fetched<Map<Seq<char>, u64>>>,
    qos_name: Seq<char>,
)
    ensures
        figures_after(figures, outcomes) == match last_loaded(outcomes) {
            Some(consumed) => Some(consumed),
            None => figures,
        },
        minutes_of(figures_after(figures, outcomes), qos_name) is None <==> figures is None
            && last_loaded(outcomes) is None,
    decreases outcomes.len(),
{
    if outcomes.len() > 0 {
        consumption_is_the_last_load(figures, outcomes.drop_last(), qos_name);
    }
}

/// Over any number of refreshes the enforcement of budgets is announced exactly
/// at the first that succeeds, and never again.
pub proof fn enforcement_is_announced_at_the_first_load(
    outcomes: Seq<Fetched<Map<Seq<char>, u64>>>,
    i: int,
)
    requires
        0 <= i < outcomes.len(),
    ensures
        announces(figures_after(None, outcomes.take(i)), outcomes[i]) <==> outcomes[i] is Loaded
            && forall|j: int| 0 <= j < i ==> !((#[trigger] outcomes[j]) is Loaded),
{
    let earlier = outcomes.take(i);
    consumption_is_the_last_load(None, earlier, Seq::empty());
    last_load_is_the_last(earlier);
    assert forall|j: int| 0 <= j < i implies outcomes[j] == #[trigger] earlier[j] by {}
    if forall|j: int| 0 <= j < i ==> !((#[trigger] outcomes[j]) is Loaded) {
        assert(last_loaded(earlier) is None);
    }
    if last_loaded(earlier) is None {
        assert forall|j: int| 0 <= j < i implies !((#[trigger] outcomes[j]) is Loaded) by {
            assert(!(earlier[j] is Loaded));
        }
    }
}

/// A cache that was refreshed from the rows of the database serves, under each
/// name, the QOS that the last row of that name stores, and nothing else.
pub proof fn refreshed_cache_serves_the_rows<M: Default, T>(
    cache: QosCacheView<M, T>,
    records: Seq<QosRecord<M, T>>,
    m: Map<Seq<char>, Qos<M, T>>,
    i: int,
)
    requires
        are_qos_of(m, records),
        0 <= i < records.len(),
        is_last_of_its_name(records, i),
    ensures
        cache.refreshed(Fetched::Loaded(m)).loaded,
        cache.refreshed(Fetched::Loaded(m)).qos.dom().contains(records[i].name@),
        is_qos_of(cache.refreshed(Fetched::Loaded(m)).qos[records[i].name@], records[i]),
        forall|name: Seq<char>| #[trigger]
            cache.refreshed(Fetched::Loaded(m)).qos.dom().contains(name) ==> exists|j: int|
                0 <= j < records.len() && (#[trigger] records[j]).name@ == name,
{
    assert(m.dom().contains(records[i].name@));
}

/// Resource lists that cannot be used do not spoil a refresh: rows with such
/// columns give, name by name, what the rows without them give.
pub proof fn unusable_tres_spoils_no_refresh<M: Default, T>(
    records: Seq<QosRecord<M, T>>,
    clean: Seq<QosRecord<M, T>>,
    m: Map<Seq<char>, Qos<M, T>>,
    n: Map<Seq<char>, Qos<M, T>>,
)
    requires
        records.len() == clean.len(),
        forall|i: int| 0 <= i < records.len() ==> is_cleaned_row(#[trigger] records[i], clean[i]),
        are_qos_of(m, records),
        are_qos_of(n, clean),
    ensures
        m.dom() == n.dom(),
        forall|name: Seq<char>| #[trigger]
            m.dom().contains(name) ==> same_but_for_mode(m[name], n[name]),
        has_one_default::<M>() ==> forall|name: Seq<char>| #[trigger]
            m.dom().contains(name) ==> same_qos(m[name], n[name]),
{
    assert forall|i: int| 0 <= i < records.len() implies (#[trigger] records[i]).name
        == clean[i].name by {
        assert(is_cleaned_row(records[i], clean[i]));
    }
    assert forall|name: Seq<char>| m.dom().contains(name) == n.dom().contains(name) by {
        if m.dom().contains(name) {
            let i = choose|i: int|
                0 <= i < records.len() && (#[trigger] records[i]).name@ == name;
            assert(clean[i].name@ == name);
        }
        if n.dom().contains(name) {
            let i = choose|i: int| 0 <= i < clean.len() && (#[trigger] clean[i]).name@ == name;
            assert(records[i].name@ == name);
        }
    }
    assert(m.dom() =~= n.dom());
    assert forall|name: Seq<char>| #[trigger] m.dom().contains(name) implies same_but_for_mode(
        m[name],
        n[name],
    ) && (has_one_default::<M>() ==> same_qos(m[name], n[name])) by {
        let k = choose|k: int| 0 <= k < records.len() && (#[trigger] records[k]).name@ == name;
        let i = lemma_last_of_a_name(records, k);
        assert forall|j: int| i < j < clean.len() implies (#[trigger] clean[j]).name@
            != clean[i].name@ by {
            assert(records[j].name@ != records[i].name@);
        }
        assert(is_last_of_its_name(clean, i));
        assert(is_qos_of(m[records[i].name@], records[i]));
        assert(is_qos_of(n[clean[i].name@], clean[i]));
        unusable_tres_is_unset(records[i], clean[i], m[name], n[name]);
    }
}

/// Every name that rows have is that of a last row.
proof fn lemma_last_of_a_name<M, T>(records: Seq<QosRecord<M, T>>, k: int) -> (i: int)
    requires
        0 <= k < records.len(),
    ensures
        0 <= i < records.len(),
        records[i].name@ == records[k].name@,
        is_last_of_its_name(records, i),
    decreases records.len() - k,
{
    if is_last_of_its_name(records, k) {
        k
    } else {
        let j = choose|j: int|
            k < j < records.len() && (#[trigger] records[j]).name@ == records[k].name@;
        lemma_last_of_a_name(records, j)
    }
}

/// Every QOS stays under its own name: in an empty cache, after a refresh with
/// maps of which that holds, and after an insertion.
pub proof fn qos_are_filed_by_name<M, T>(
    cache: QosCacheView<M, T>,
    m: Map<Seq<char>, Qos<M, T>>,
    qos: Qos<M, T>,
)
    requires
        filed_by_name(cache.qos),
        filed_by_name(m),
    ensures
        filed_by_name(QosCacheView::<M, T>::initial().qos),
        filed_by_name(cache.refreshed(Fetched::Loaded(m)).qos),
        filed_by_name(cache.refreshed(Fetched::Failed).qos),
        filed_by_name(cache.refreshed(Fetched::TimedOut).qos),
        filed_by_name(cache.qos.insert(qos.name@, qos)),
{
}

/// The name-sorted list of a cache is fixed by what the cache holds: where
/// every QOS stands under its own name, no two sorted lists of it differ.
pub proof fn listing_is_determined<M, T>(
    m: Map<Seq<char>, Qos<M, T>>,
    a: Seq<&Qos<M, T>>,
    b: Seq<&Qos<M, T>>,
)
    requires
        filed_by_name(m),
        lists_values(a, m),
        lists_values(b, m),
        sorted_by_name(a),
        sorted_by_name(b),
    ensures
        a == b,
{
    let x = choose|names: Seq<Seq<char>>| #[trigger] lists_values_of(a, m, names);
    let y = choose|names: Seq<Seq<char>>| #[trigger] lists_values_of(b, m, names);
    x.unique_seq_to_set();
    y.unique_seq_to_set();
    lemma_listed_names(m, a, x);
    lemma_listed_names(m, b, y);
    assert forall|i: int| 0 <= i < x.len() implies x[i] == #[trigger] y[i] by {
        lemma_sorted_names_agree(x, y, i);
    }
    assert(a =~= b);
}

/// In a sorted list of QOS that stand under their own names, the names are
/// sorted.
proof fn lemma_listed_names<M, T>(
    m: Map<Seq<char>, Qos<M, T>>,
    listed: Seq<&Qos<M, T>>,
    names: Seq<Seq<char>>,
)
    requires
        filed_by_name(m),
        lists_values_of(listed, m, names),
        sorted_by_name(listed),
    ensures
        forall|i: int, j: int|
            0 <= i <= j < names.len() ==> text_le(#[trigger] names[i], #[trigger] names[j]),
{
    assert forall|i: int| 0 <= i < names.len() implies (#[trigger] listed[i]).name@ == names[i] by {
        assert(names.to_set().contains(names[i]));
    }
    assert forall|i: int, j: int| 0 <= i <= j < names.len() implies text_le(
        #[trigger] names[i],
        #[trigger] names[j],
    ) by {
        assert(text_le(listed[i].name@, listed[j].name@));
    }
}

/// Two sorted lists of the same names, without repetitions, agree.
proof fn lemma_sorted_names_agree(x: Seq<Seq<char>>, y: Seq<Seq<char>>, i: int)
    requires
        x.no_duplicates(),
        y.no_duplicates(),
        x.to_set() == y.to_set(),
        x.len() == y.len(),
        forall|i: int, j: int|
            0 <= i <= j < x.len() ==> text_le(#[trigger] x[i], #[trigger] x[j]),
        forall|i: int, j: int|
            0 <= i <= j < y.len() ==> text_le(#[trigger] y[i], #[trigger] y[j]),
        0 <= i < x.len(),
    ensures
        x[i] == y[i],
    decreases i,
{
    assert forall|j: int| 0 <= j < i implies x[j] == #[trigger] y[j] by {
        lemma_sorted_names_agree(x, y, j);
    }
    assert(x.to_set().contains(x[i]));
    assert(y.to_set().contains(y[i]));
    assert(y.to_set().contains(x[i]));
    assert(x.to_set().contains(y[i]));
    let k = choose|k: int| 0 <= k < x.len() && x[k] == y[i];
    let l = choose|l: int| 0 <= l < y.len() && y[l] == x[i];
    if k < i {
        assert(y[k] == y[i]);
    }
    if l < i {
        assert(x[l] == x[i]);
    }
    assert(text_le(x[i], x[k]));
    assert(text_le(y[i], y[l]));
    text_order_is_antisymmetric(x[i], y[i]);
}

} // verus!
