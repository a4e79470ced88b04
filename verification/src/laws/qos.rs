//! Laws of QOS rows: what each column of a row becomes.
use crate::laws::text::{has_name, names_in_a_set, same_letter};
use crate::qos::{
    limit_from_db, parse_deny_on_limit, qos_from_record, Qos, QosRecord, TresColumn,
};
use crate::text::{
    ascii_lower, fields, lemma_filter_contains, same_ignoring_ascii_case, strings,
};
use vstd::prelude::*;

verus! {

/// Whether a limit is the number that a column holds: none where the column is
/// absent or negative, else that very number.
pub open spec fn is_number_of(limit: Option<u32>, column: Option<i32>) -> bool {
    &&& limit is Some <==> column is Some && column->0 >= 0
    &&& limit is Some ==> limit->0 == column->0
}

/// Whether a resource limit is the list that a column holds: none where the
/// column is absent, empty or does not parse, else what it parses to.
pub open spec fn is_list_of<T>(limit: Option<T>, column: Option<TresColumn<T>>) -> bool {
    &&& limit is Some <==> column is Some && column->0.text@.len() > 0 && column->0.parsed is Some
    &&& limit is Some ==> limit == column->0.parsed
}

/// A limit is the number of its column, and of nothing else.
pub proof fn limits_are_numbers(column: Option<i32>, limit: Option<u32>)
    requires
        call_ensures(limit_from_db, (column,), limit),
    ensures
        is_number_of(limit, column),
{
}

/// Every limit of a QOS is what its own column holds.
pub proof fn limits_come_from_their_columns<M: Default, T>(r: QosRecord<M, T>, q: Qos<M, T>)
    requires
        call_ensures(qos_from_record::<M, T>, (r,), q),
    ensures
        is_number_of(q.limits.max_jobs_per_user, r.max_jobs_per_user),
        is_number_of(q.limits.max_submit_jobs_per_user, r.max_submit_per_user),
        is_number_of(q.limits.max_submit_jobs_per_account, r.max_submit_per_account),
        is_number_of(q.limits.grp_submit_jobs, r.grp_submit_jobs),
        is_number_of(q.limits.max_wall_minutes, r.max_wall_min),
        is_number_of(q.limits.grp_wall_minutes, r.grp_wall_min),
        is_list_of(q.limits.max_tres_per_job, r.max_tres_per_job),
        is_list_of(q.limits.max_tres_per_user, r.max_tres_per_user),
        is_list_of(q.limits.grp_tres, r.grp_tres),
{
}

/// The exempt time of a QOS is what its column holds, a negative number taken
/// as the one that is 2 to the 32nd greater.
pub proof fn exempt_time_is_its_column<M: Default, T>(r: QosRecord<M, T>, q: Qos<M, T>)
    requires
        call_ensures(qos_from_record::<M, T>, (r,), q),
    ensures
        q.limits.preempt_exempt_time is Some <==> r.preempt_exempt_time is Some,
        r.preempt_exempt_time is Some && r.preempt_exempt_time->0 >= 0
            ==> q.limits.preempt_exempt_time->0 == r.preempt_exempt_time->0,
        r.preempt_exempt_time is Some && r.preempt_exempt_time->0 < 0
            ==> q.limits.preempt_exempt_time->0 == r.preempt_exempt_time->0 + 4294967296,
{
}

/// Each limit depends on its own column only: where two rows agree in a column,
/// whatever else they hold, the limit is the same.
pub proof fn columns_do_not_mix<M: Default, T>(
    r: QosRecord<M, T>,
    s: QosRecord<M, T>,
    q: Qos<M, T>,
    p: Qos<M, T>,
)
    requires
        call_ensures(qos_from_record::<M, T>, (r,), q),
        call_ensures(qos_from_record::<M, T>, (s,), p),
    ensures
        r.max_jobs_per_user == s.max_jobs_per_user ==> q.limits.max_jobs_per_user
            == p.limits.max_jobs_per_user,
        r.max_submit_per_user == s.max_submit_per_user ==> q.limits.max_submit_jobs_per_user
            == p.limits.max_submit_jobs_per_user,
        r.max_submit_per_account == s.max_submit_per_account
            ==> q.limits.max_submit_jobs_per_account == p.limits.max_submit_jobs_per_account,
        r.grp_submit_jobs == s.grp_submit_jobs ==> q.limits.grp_submit_jobs
            == p.limits.grp_submit_jobs,
        r.max_tres_per_job == s.max_tres_per_job ==> q.limits.max_tres_per_job
            == p.limits.max_tres_per_job,
        r.max_tres_per_user == s.max_tres_per_user ==> q.limits.max_tres_per_user
            == p.limits.max_tres_per_user,
        r.grp_tres == s.grp_tres ==> q.limits.grp_tres == p.limits.grp_tres,
        r.max_wall_min == s.max_wall_min ==> q.limits.max_wall_minutes
            == p.limits.max_wall_minutes,
        r.grp_wall_min == s.grp_wall_min ==> q.limits.grp_wall_minutes
            == p.limits.grp_wall_minutes,
        r.preempt_exempt_time == s.preempt_exempt_time ==> q.limits.preempt_exempt_time
            == p.limits.preempt_exempt_time,
        r.flags@ == s.flags@ ==> q.deny_on_limit == p.deny_on_limit,
        r.preempt@ == s.preempt@ ==> strings(q.preempt@) == strings(p.preempt@),
{
}

/// What is not a limit is handed on: name, description, priority and usage
/// factor as they are, and the preemption mode where it parses; where it does
/// not, the mode is a default of its type.
pub proof fn other_columns_are_kept<M: Default, T>(r: QosRecord<M, T>, q: Qos<M, T>)
    requires
        call_ensures(qos_from_record::<M, T>, (r,), q),
    ensures
        q.name@ == r.name@,
        q.description@ == r.description@,
        q.priority == r.priority,
        q.usage_factor_bits == r.usage_factor_bits,
        r.preempt_mode is Some ==> q.preempt_mode == r.preempt_mode->0,
        r.preempt_mode is None ==> call_ensures(M::default, (), q.preempt_mode),
{
}

/// The preempted names are the fields of their column that are not empty, in
/// order.
pub proof fn preempted_names_are_fields<M: Default, T>(
    r: QosRecord<M, T>,
    q: Qos<M, T>,
    name: Seq<char>,
)
    requires
        call_ensures(qos_from_record::<M, T>, (r,), q),
    ensures
        strings(q.preempt@) == fields(r.preempt@).filter(|n: Seq<char>| n.len() > 0),
        has_name(q.preempt@, name) <==> name.len() > 0 && exists|i: int|
            0 <= i < fields(r.preempt@).len() && #[trigger] fields(r.preempt@)[i] == name,
{
    let all = fields(r.preempt@);
    lemma_filter_contains(all, |n: Seq<char>| n.len() > 0, name);
    names_in_a_set(q.preempt@, name);
    if all.contains(name) {
        let i = choose|i: int| 0 <= i < all.len() && all[i] == name;
        assert(all[i] == name);
    }
}

/// Whether a text is `denyonlimit`, with small or capital letters.
pub open spec fn spells_deny_on_limit(s: Seq<char>) -> bool {
    let word = seq!['d', 'e', 'n', 'y', 'o', 'n', 'l', 'i', 'm', 'i', 't'];
    &&& s.len() == word.len()
    &&& forall|i: int| 0 <= i < s.len() ==> same_letter(#[trigger] s[i], word[i])
}

/// A list of flags denies on limit exactly if one of its fields spells
/// `denyonlimit`, and a QOS does if its flags do.
pub proof fn deny_flag_is_a_field<M: Default, T>(
    flags: &str,
    deny: bool,
    r: QosRecord<M, T>,
    q: Qos<M, T>,
)
    requires
        call_ensures(parse_deny_on_limit, (flags,), deny),
        call_ensures(qos_from_record::<M, T>, (r,), q),
        flags@ == r.flags@,
    ensures
        deny <==> exists|i: int|
            0 <= i < fields(flags@).len() && spells_deny_on_limit(#[trigger] fields(flags@)[i]),
        q.deny_on_limit == deny,
{
    reveal_strlit("denyonlimit");
    let word = seq!['d', 'e', 'n', 'y', 'o', 'n', 'l', 'i', 'm', 'i', 't'];
    assert("denyonlimit"@ =~= word);
    let all = fields(flags@);
    assert forall|k: int| 0 <= k < all.len() implies (same_ignoring_ascii_case(
        #[trigger] all[k],
        word,
    ) <==> spells_deny_on_limit(all[k])) by {
        let s = all[k];
        if same_ignoring_ascii_case(s, word) {
            assert forall|i: int| 0 <= i < s.len() implies same_letter(#[trigger] s[i], word[i]) by {
                assert(ascii_lower(s[i]) == ascii_lower(word[i]));
            }
        }
        if spells_deny_on_limit(s) {
            assert forall|i: int| 0 <= i < s.len() implies ascii_lower(#[trigger] s[i])
                == ascii_lower(word[i]) by {
                assert(same_letter(s[i], word[i]));
            }
        }
    }
    if deny {
        let i = choose|i: int|
            0 <= i < all.len() && same_ignoring_ascii_case(
                #[trigger] all[i],
                "denyonlimit"@,
            );
        assert(spells_deny_on_limit(all[i]));
    }
    if exists|i: int| 0 <= i < all.len() && spells_deny_on_limit(#[trigger] all[i]) {
        let i = choose|i: int| 0 <= i < all.len() && spells_deny_on_limit(#[trigger] all[i]);
        assert(same_ignoring_ascii_case(all[i], "denyonlimit"@));
    }
}

} // verus!
