//! Qualities of service (QOS), as the accounting database stores them and as
//! the scheduler reads them.
use crate::text::{
    eq_ignore_ascii_case, fields, non_empty, same_ignoring_ascii_case, split_fields,
    split_non_empty_fields, strings, texts, to_strings,
};
use vstd::prelude::*;

verus! {

/// A stored list of trackable resources, such as `cpu=32,mem=131072`.
#[derive(Clone, Debug)]
pub struct TresColumn<T> {
    /// The list as it is stored.
    pub text: String,
    /// What the list parses to; `None` if it does not parse.
    pub parsed: Option<T>,
}

/// A row of the QOS table. `M` is the type of preemption modes, `T` that of
/// lists of trackable resources.
#[derive(Clone, Debug)]
pub struct QosRecord<M, T> {
    pub name: String,
    pub description: String,
    pub priority: i32,
    /// The stored preemption mode; `None` if it does not parse.
    pub preempt_mode: Option<M>,
    /// Comma-separated names of the QOS that this one may preempt.
    pub preempt: String,
    /// The usage factor, as the bits of a double-precision number.
    pub usage_factor_bits: u64,
    pub max_jobs_per_user: Option<i32>,
    pub max_wall_min: Option<i32>,
    pub max_tres_per_job: Option<TresColumn<T>>,
    pub max_submit_per_user: Option<i32>,
    pub max_submit_per_account: Option<i32>,
    pub grp_submit_jobs: Option<i32>,
    pub max_tres_per_user: Option<TresColumn<T>>,
    pub grp_tres: Option<TresColumn<T>>,
    pub grp_wall_min: Option<i32>,
    pub preempt_exempt_time: Option<i32>,
    /// Comma-separated flags.
    pub flags: String,
}

/// The limits of a QOS. `None` is no limit.
#[derive(Clone, Debug)]
pub struct QosLimits<T> {
    pub max_jobs_per_user: Option<u32>,
    pub max_submit_jobs_per_user: Option<u32>,
    pub max_submit_jobs_per_account: Option<u32>,
    pub grp_submit_jobs: Option<u32>,
    pub max_tres_per_job: Option<T>,
    pub max_tres_per_user: Option<T>,
    pub grp_tres: Option<T>,
    pub max_wall_minutes: Option<u32>,
    pub grp_wall_minutes: Option<u32>,
    pub preempt_exempt_time: Option<u32>,
}

/// A QOS.
#[derive(Clone, Debug)]
pub struct Qos<M, T> {
    pub name: String,
    pub description: String,
    pub priority: i32,
    pub preempt_mode: M,
    /// The QOS that this one may preempt.
    pub preempt: Vec<String>,
    pub limits: QosLimits<T>,
    /// The usage factor, as the bits of a double-precision number.
    pub usage_factor_bits: u64,
    /// A job over a limit is refused instead of left pending.
    pub deny_on_limit: bool,
}

/// The limit that a column stores: zero is a limit of nothing at all, an
/// absent or negative value is no limit.
pub open spec fn stored_limit(v: Option<i32>) -> Option<u32> {
    match v {
        Some(n) => if n >= 0 {
            Some(n as u32)
        } else {
            None
        },
        None => None,
    }
}

/// The resource list that a column stores. An absent, empty or unparseable one
/// is none.
pub open spec fn stored_tres<T>(column: Option<TresColumn<T>>) -> Option<T> {
    match column {
        Some(c) => if c.text@.len() > 0 {
            c.parsed
        } else {
            None
        },
        None => None,
    }
}

/// A 32-bit number read as unsigned, a negative one in two's complement.
pub open spec fn as_unsigned(v: i32) -> int {
    if v >= 0 {
        v as int
    } else {
        v + 0x1_0000_0000
    }
}

/// Whether a list of flags holds `DenyOnLimit`, in any case.
pub open spec fn denies_on_limit(flags: Seq<char>) -> bool {
    exists|i: int|
        0 <= i < fields(flags).len() && same_ignoring_ascii_case(
            #[trigger] fields(flags)[i],
            "denyonlimit"@,
        )
}

/// Whether the limits are those that a row stores.
pub open spec fn are_limits_of<M, T>(limits: QosLimits<T>, r: QosRecord<M, T>) -> bool {
    &&& limits.max_jobs_per_user == stored_limit(r.max_jobs_per_user)
    &&& limits.max_submit_jobs_per_user == stored_limit(r.max_submit_per_user)
    &&& limits.max_submit_jobs_per_account == stored_limit(r.max_submit_per_account)
    &&& limits.grp_submit_jobs == stored_limit(r.grp_submit_jobs)
    &&& limits.max_tres_per_job == stored_tres(r.max_tres_per_job)
    &&& limits.max_tres_per_user == stored_tres(r.max_tres_per_user)
    &&& limits.grp_tres == stored_tres(r.grp_tres)
    &&& limits.max_wall_minutes == stored_limit(r.max_wall_min)
    &&& limits.grp_wall_minutes == stored_limit(r.grp_wall_min)
    &&& match r.preempt_exempt_time {
        Some(v) => limits.preempt_exempt_time is Some && limits.preempt_exempt_time->0
            == as_unsigned(v),
        None => limits.preempt_exempt_time is None,
    }
}

/// Whether `q` is the QOS that a row stores. A preemption mode that does not
/// parse is the default one.
pub open spec fn is_qos_of<M: Default, T>(q: Qos<M, T>, r: QosRecord<M, T>) -> bool {
    &&& q.name == r.name
    &&& q.description == r.description
    &&& q.priority == r.priority
    &&& match r.preempt_mode {
        Some(mode) => q.preempt_mode == mode,
        None => call_ensures(M::default, (), q.preempt_mode),
    }
    &&& strings(q.preempt@) == non_empty(fields(r.preempt@))
    &&& are_limits_of(q.limits, r)
    &&& q.usage_factor_bits == r.usage_factor_bits
    &&& q.deny_on_limit == denies_on_limit(r.flags@)
}

/// The limit that a column stores.
pub fn limit_from_db(v: Option<i32>) -> (limit: Option<u32>)
    ensures
        limit == stored_limit(v),
{
    match v {
        Some(n) => if n >= 0 {
            Some(n as u32)
        } else {
            None
        },
        None => None,
    }
}

/// The resource list that a column stores.
fn tres_from_db<T>(column: Option<TresColumn<T>>) -> (tres: Option<T>)
    ensures
        tres == stored_tres(column),
{
    match column {
        Some(c) => if c.text.as_str().is_empty() {
            None
        } else {
            c.parsed
        },
        None => None,
    }
}

/// Whether a comma-separated list of flags holds `DenyOnLimit`. Other flags
/// are passed over, since rows may carry flags that are not modelled here.
pub fn parse_deny_on_limit(flags: &str) -> (deny: bool)
    ensures
        deny == denies_on_limit(flags@),
{
    let parts = split_fields(flags);
    let mut i: usize = 0;
    while i < parts.len()
        invariant
            i <= parts.len(),
            texts(parts@) == fields(flags@),
            forall|j: int|
                0 <= j < i ==> !same_ignoring_ascii_case(
                    #[trigger] fields(flags@)[j],
                    "denyonlimit"@,
                ),
        decreases parts.len() - i,
    {
        assert(texts(parts@)[i as int] == parts@[i as int]@);
        if eq_ignore_ascii_case(parts[i], "denyonlimit") {
            return true;
        }
        i = i + 1;
    }
    assert(texts(parts@).len() == parts.len());
    false
}

/// The QOS that a row stores. Values are checked when they are stored; what
/// does not parse here is taken as unset, so that one bad row does not spoil
/// the refresh of all.
pub fn qos_from_record<M: Default, T>(r: QosRecord<M, T>) -> (q: Qos<M, T>)
    ensures
        is_qos_of(q, r),
{
    let preempt_exempt_time = match r.preempt_exempt_time {
        Some(v) => {
            assert(v < 0 ==> (v as u32) == v + 0x1_0000_0000) by (bit_vector);
            Some(
                #[verifier::truncate]
                (v as u32),
            )
        },
        None => None,
    };
    let limits = QosLimits {
        max_jobs_per_user: limit_from_db(r.max_jobs_per_user),
        max_submit_jobs_per_user: limit_from_db(r.max_submit_per_user),
        max_submit_jobs_per_account: limit_from_db(r.max_submit_per_account),
        grp_submit_jobs: limit_from_db(r.grp_submit_jobs),
        max_tres_per_job: tres_from_db(r.max_tres_per_job),
        max_tres_per_user: tres_from_db(r.max_tres_per_user),
        grp_tres: tres_from_db(r.grp_tres),
        max_wall_minutes: limit_from_db(r.max_wall_min),
        grp_wall_minutes: limit_from_db(r.grp_wall_min),
        preempt_exempt_time,
    };
    let preempt = to_strings(split_non_empty_fields(r.preempt.as_str()));
    let deny_on_limit = parse_deny_on_limit(r.flags.as_str());
    Qos {
        name: r.name,
        description: r.description,
        priority: r.priority,
        preempt_mode: r.preempt_mode.unwrap_or_default(),
        preempt,
        limits,
        usage_factor_bits: r.usage_factor_bits,
        deny_on_limit,
    }
}

/// Whether a column stores a list that cannot be used: an empty one, or one
/// that does not parse.
pub open spec fn is_unusable<T>(column: Option<TresColumn<T>>) -> bool {
    match column {
        Some(c) => c.text@.len() == 0 || c.parsed is None,
        None => false,
    }
}

/// Whether `clean` is `column`, or is absent where `column` cannot be used.
pub open spec fn is_cleaned<T>(
    column: Option<TresColumn<T>>,
    clean: Option<TresColumn<T>>,
) -> bool {
    clean == column || (is_unusable(column) && clean is None)
}

/// Whether `clean` is the row `r` without some of the resource lists that
/// cannot be used.
pub open spec fn is_cleaned_row<M, T>(r: QosRecord<M, T>, clean: QosRecord<M, T>) -> bool {
    &&& is_cleaned(r.max_tres_per_job, clean.max_tres_per_job)
    &&& is_cleaned(r.max_tres_per_user, clean.max_tres_per_user)
    &&& is_cleaned(r.grp_tres, clean.grp_tres)
    &&& clean == (QosRecord {
        max_tres_per_job: clean.max_tres_per_job,
        max_tres_per_user: clean.max_tres_per_user,
        grp_tres: clean.grp_tres,
        ..r
    })
}

/// Whether the default of a type is one value.
pub open spec fn has_one_default<M: Default>() -> bool {
    forall|a: M, b: M| #[trigger]
        call_ensures(M::default, (), a) && #[trigger] call_ensures(M::default, (), b) ==> a == b
}

/// Whether two QOS agree in everything but, perhaps, their preemption modes.
pub open spec fn same_but_for_mode<M, T>(a: Qos<M, T>, b: Qos<M, T>) -> bool {
    &&& a.name == b.name
    &&& a.description == b.description
    &&& a.priority == b.priority
    &&& strings(a.preempt@) == strings(b.preempt@)
    &&& a.limits == b.limits
    &&& a.usage_factor_bits == b.usage_factor_bits
    &&& a.deny_on_limit == b.deny_on_limit
}

/// Whether two QOS agree in everything.
pub open spec fn same_qos<M, T>(a: Qos<M, T>, b: Qos<M, T>) -> bool {
    same_but_for_mode(a, b) && a.preempt_mode == b.preempt_mode
}

/// A resource list that cannot be used is just unset: a row with such columns
/// stores what the row without them stores, and they spoil no other field. The
/// preemption mode could differ only where it does not parse and the default
/// mode were not one value.
pub proof fn unusable_tres_is_unset<M: Default, T>(
    r: QosRecord<M, T>,
    clean: QosRecord<M, T>,
    q: Qos<M, T>,
    p: Qos<M, T>,
)
    requires
        is_cleaned_row(r, clean),
        is_qos_of(q, r),
        is_qos_of(p, clean),
    ensures
        same_but_for_mode(q, p),
        r.preempt_mode is Some || has_one_default::<M>() ==> same_qos(q, p),
{
    assert(stored_tres(r.max_tres_per_job) == stored_tres(clean.max_tres_per_job));
    assert(stored_tres(r.max_tres_per_user) == stored_tres(clean.max_tres_per_user));
    assert(stored_tres(r.grp_tres) == stored_tres(clean.grp_tres));
    assert(q.limits.preempt_exempt_time == p.limits.preempt_exempt_time);
    assert(q.limits == p.limits);
}

/// A row stores one QOS: two readings of it agree in everything but the mode,
/// and in the mode too where the default mode is one value. A mode that does
/// not parse is then read as that value.
pub proof fn rows_are_read_alike<M: Default, T>(
    r: QosRecord<M, T>,
    q: Qos<M, T>,
    p: Qos<M, T>,
    default_mode: M,
)
    requires
        is_qos_of(q, r),
        is_qos_of(p, r),
        call_ensures(M::default, (), default_mode),
    ensures
        same_but_for_mode(q, p),
        has_one_default::<M>() ==> same_qos(q, p),
        has_one_default::<M>() && r.preempt_mode is None ==> q.preempt_mode == default_mode,
{
    unusable_tres_is_unset(r, r, q, p);
}

} // verus!
