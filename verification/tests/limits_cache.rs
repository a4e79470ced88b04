use spur::limits_cache::{consumed_minutes, qos_by_name, Fetched, GrpWallCache, QosCache};
use spur::names::NameMap;
use spur::qos::{
    limit_from_db, parse_deny_on_limit, qos_from_record, Qos, QosLimits, QosRecord, TresColumn,
};
use spur::refresh::{RefreshAction, RefreshSchedule};
use std::sync::Arc;

#[derive(Clone, Copy, Debug, PartialEq)]
enum QosPreemptMode {
    Off,
    Cancel,
}

impl Default for QosPreemptMode {
    fn default() -> Self {
        QosPreemptMode::Off
    }
}

impl QosPreemptMode {
    fn parse(s: &str) -> Option<Self> {
        match s {
            "off" => Some(QosPreemptMode::Off),
            "cancel" => Some(QosPreemptMode::Cancel),
            _ => None,
        }
    }
}

#[derive(Clone, Copy, Debug, PartialEq)]
enum TresType {
    Cpu,
    Mem,
    Gpu,
}

#[derive(Clone, Debug, PartialEq)]
struct TresRecord(Vec<(TresType, u64)>);

impl TresRecord {
    fn parse(s: &str) -> Option<Self> {
        let mut entries = Vec::new();
        for part in s.split(',') {
            let (kind, count) = part.split_once('=')?;
            let kind = match kind {
                "cpu" => TresType::Cpu,
                "mem" => TresType::Mem,
                "gpu" => TresType::Gpu,
                _ => return None,
            };
            entries.push((kind, count.parse().ok()?));
        }
        Some(TresRecord(entries))
    }

    fn get(&self, kind: TresType) -> u64 {
        self.0.iter().find(|e| e.0 == kind).map(|e| e.1).unwrap_or(0)
    }
}

type Record = QosRecord<QosPreemptMode, TresRecord>;
type TestQos = Qos<QosPreemptMode, TresRecord>;

fn tres(text: &str) -> Option<TresColumn<TresRecord>> {
    Some(TresColumn {
        text: text.to_string(),
        parsed: TresRecord::parse(text),
    })
}

fn make_qos(name: &str) -> TestQos {
    Qos {
        name: name.into(),
        description: String::new(),
        priority: 0,
        preempt_mode: QosPreemptMode::default(),
        preempt: Vec::new(),
        limits: QosLimits {
            max_jobs_per_user: None,
            max_submit_jobs_per_user: None,
            max_submit_jobs_per_account: None,
            grp_submit_jobs: None,
            max_tres_per_job: None,
            max_tres_per_user: None,
            grp_tres: None,
            max_wall_minutes: None,
            grp_wall_minutes: None,
            preempt_exempt_time: None,
        },
        usage_factor_bits: 1.0f64.to_bits(),
        deny_on_limit: false,
    }
}

fn minimal(name: &str) -> Record {
    QosRecord {
        name: name.into(),
        description: String::new(),
        priority: 0,
        preempt_mode: QosPreemptMode::parse("off"),
        preempt: String::new(),
        usage_factor_bits: 1.0f64.to_bits(),
        max_jobs_per_user: Some(0),
        max_wall_min: None,
        max_tres_per_job: tres(""),
        max_submit_per_user: Some(-1),
        max_submit_per_account: None,
        grp_submit_jobs: Some(0),
        max_tres_per_user: None,
        grp_tres: None,
        grp_wall_min: None,
        preempt_exempt_time: None,
        flags: String::new(),
    }
}

fn map_of(entries: Vec<TestQos>) -> NameMap<TestQos> {
    let mut m = NameMap::new();
    for q in entries {
        m.insert(q.name.clone(), q);
    }
    m
}

fn minutes(entries: &[(&str, u64)]) -> NameMap<u64> {
    let mut m = NameMap::new();
    for (name, spent) in entries {
        m.insert(name.to_string(), *spent);
    }
    m
}

#[test]
fn test_cache_get_returns_converted_qos() {
    let mut cache = QosCache::new();
    let mut qos = make_qos("normal");
    qos.limits.max_submit_jobs_per_user = Some(3);
    cache.replace(map_of(vec![qos]));

    assert!(cache.get("missing").is_none());
    let got = cache.get("normal").expect("present");
    assert_eq!(got.limits.max_submit_jobs_per_user, Some(3));
}

#[test]
fn test_qos_from_record_parses_limits() {
    let record: Record = QosRecord {
        name: "high".into(),
        description: "High priority QoS".into(),
        priority: 100,
        preempt_mode: QosPreemptMode::parse("cancel"),
        preempt: String::new(),
        usage_factor_bits: 2.0f64.to_bits(),
        max_jobs_per_user: Some(10),
        max_wall_min: Some(60),
        max_tres_per_job: tres("cpu=32,mem=131072"),
        max_submit_per_user: Some(50),
        max_submit_per_account: Some(40),
        grp_submit_jobs: Some(30),
        max_tres_per_user: tres("cpu=64"),
        grp_tres: tres("gpu=8"),
        grp_wall_min: Some(120),
        preempt_exempt_time: None,
        flags: "DenyOnLimit".into(),
    };

    let qos = qos_from_record(record);

    assert_eq!(qos.name, "high");
    assert!(qos.deny_on_limit);
    assert_eq!(qos.limits.max_submit_jobs_per_account, Some(40));
    assert_eq!(qos.limits.grp_submit_jobs, Some(30));
    assert_eq!(qos.priority, 100);
    assert_eq!(qos.preempt_mode, QosPreemptMode::Cancel);
    assert_eq!(f64::from_bits(qos.usage_factor_bits), 2.0);
    assert_eq!(qos.limits.max_jobs_per_user, Some(10));
    assert_eq!(qos.limits.max_wall_minutes, Some(60));
    assert_eq!(qos.limits.grp_wall_minutes, Some(120));
    assert_eq!(qos.limits.max_submit_jobs_per_user, Some(50));
    assert!(qos.limits.max_tres_per_job.is_some());
    assert_eq!(
        qos.limits
            .max_tres_per_job
            .as_ref()
            .unwrap()
            .get(TresType::Cpu),
        32
    );
    assert!(qos.limits.max_tres_per_user.is_some());
    assert_eq!(
        qos.limits
            .max_tres_per_user
            .as_ref()
            .unwrap()
            .get(TresType::Cpu),
        64
    );
    assert!(qos.limits.grp_tres.is_some());
    assert_eq!(qos.description, "High priority QoS");
    assert_eq!(qos.limits.preempt_exempt_time, None);
}

#[test]
fn test_qos_from_record_zero_is_literal_negative_and_null_are_unset() {
    // A stored 0 is a real "block all" value; NULL and a stray negative are
    // "no limit" (unset).
    let qos = qos_from_record(minimal("minimal"));

    assert_eq!(qos.limits.max_jobs_per_user, Some(0));
    assert_eq!(qos.limits.max_wall_minutes, None);
    assert!(qos.limits.max_tres_per_job.is_none());
    assert_eq!(qos.limits.max_submit_jobs_per_user, None);
    assert_eq!(qos.limits.grp_submit_jobs, Some(0));
    assert!(qos.limits.max_tres_per_user.is_none());
    assert!(qos.limits.grp_tres.is_none());
    assert_eq!(qos.limits.grp_wall_minutes, None);
    assert!(!qos.deny_on_limit);
}

#[test]
fn stored_values_that_do_not_parse_are_unset() {
    let mut record = minimal("odd");
    record.preempt_mode = QosPreemptMode::parse("whatever");
    record.max_tres_per_job = tres("cpu=many");
    record.preempt = " low ,,scavenger, ".into();
    let qos = qos_from_record(record);
    assert_eq!(qos.preempt_mode, QosPreemptMode::Off);
    assert!(qos.limits.max_tres_per_job.is_none());
    assert_eq!(qos.preempt, vec!["low", "scavenger"]);
}

#[test]
fn exempt_time_is_reinterpreted_not_dropped() {
    let mut record = minimal("exempt");
    record.preempt_exempt_time = Some(-1);
    assert_eq!(
        qos_from_record(record).limits.preempt_exempt_time,
        Some(4294967295)
    );
    let mut record = minimal("exempt");
    record.preempt_exempt_time = Some(300);
    assert_eq!(qos_from_record(record).limits.preempt_exempt_time, Some(300));
}

#[test]
fn limits_keep_zero_and_drop_negatives() {
    assert_eq!(limit_from_db(None), None);
    assert_eq!(limit_from_db(Some(-1)), None);
    assert_eq!(limit_from_db(Some(i32::MIN)), None);
    assert_eq!(limit_from_db(Some(0)), Some(0));
    assert_eq!(limit_from_db(Some(i32::MAX)), Some(2147483647));
}

#[test]
fn deny_flag_is_found_in_any_case_among_others() {
    assert!(parse_deny_on_limit("DenyOnLimit"));
    assert!(parse_deny_on_limit("NoDecay, denyONlimit ,Other"));
    assert!(!parse_deny_on_limit(""));
    assert!(!parse_deny_on_limit("DenyOnLimits"));
    assert!(!parse_deny_on_limit("Deny OnLimit"));
    // Only ASCII letters are folded.
    assert!(!parse_deny_on_limit("denyonl\u{131}mit"));
}

#[test]
fn last_row_of_a_name_counts() {
    let mut first = minimal("a");
    first.priority = 1;
    let mut second = minimal("b");
    second.priority = 2;
    let mut third = minimal("a");
    third.priority = 3;
    let m = qos_by_name(vec![first, second, third]);
    assert_eq!(m.len(), 2);
    assert_eq!(m.get("a").unwrap().priority, 3);
    assert_eq!(m.get("b").unwrap().priority, 2);
    assert!(m.get("c").is_none());
}

#[test]
fn refreshed_cache_serves_the_rows_of_the_database() {
    let mut cache: QosCache<QosPreemptMode, TresRecord> = QosCache::default();
    assert!(!cache.is_loaded());
    let mut row = minimal("normal");
    row.max_jobs_per_user = Some(7);
    cache.refresh(Fetched::Loaded(qos_by_name(vec![row])));
    assert!(cache.is_loaded());
    assert_eq!(cache.get("normal").unwrap().limits.max_jobs_per_user, Some(7));
}

#[test]
fn failed_refreshes_keep_stale_data() {
    let mut cache = QosCache::new();
    cache.refresh(Fetched::Failed);
    cache.refresh(Fetched::TimedOut);
    assert!(!cache.is_loaded());

    cache.refresh(Fetched::Loaded(map_of(vec![make_qos("old")])));
    cache.refresh(Fetched::Failed);
    cache.refresh(Fetched::TimedOut);
    assert!(cache.is_loaded());
    assert!(cache.get("old").is_some());

    cache.refresh(Fetched::Loaded(map_of(vec![make_qos("new")])));
    assert!(cache.get("old").is_none(), "a load replaces everything");
    assert!(cache.get("new").is_some());

    // An empty table is a load too.
    cache.refresh(Fetched::Loaded(map_of(Vec::new())));
    assert!(cache.is_loaded());
    assert!(cache.get("new").is_none());
}

#[test]
fn insert_adds_and_reset_starts_over() {
    let mut cache = QosCache::new();
    cache.insert(make_qos("a"));
    assert!(cache.is_loaded());
    let mut changed = make_qos("a");
    changed.priority = 9;
    cache.insert(changed);
    cache.insert(make_qos("b"));
    assert_eq!(cache.get("a").unwrap().priority, 9);
    assert_eq!(cache.all().len(), 2);
    cache.reset();
    assert!(!cache.is_loaded());
    assert!(cache.all().is_empty());
}

#[test]
fn all_is_sorted_by_name_whatever_the_order_of_arrival() {
    let listed = |names: &[&str]| -> Vec<String> {
        let mut cache = QosCache::new();
        for name in names {
            cache.insert(make_qos(name));
        }
        cache.all().iter().map(|q| q.name.clone()).collect()
    };
    let expected = vec!["High", "a", "ab", "b", "normal", "\u{e9}"];
    assert_eq!(listed(&["normal", "ab", "b", "\u{e9}", "High", "a"]), expected);
    assert_eq!(listed(&["\u{e9}", "b", "a", "ab", "normal", "High"]), expected);
    let mut by_std = expected.clone();
    by_std.sort();
    assert_eq!(by_std, expected);
}

#[test]
fn consumption_is_unknown_until_loaded() {
    let cache = GrpWallCache::new();
    assert_eq!(consumed_minutes(&cache.usage(), "normal"), None);
    assert_eq!(consumed_minutes(&None, "normal"), None);

    let mut cache = GrpWallCache::default();
    cache.seed(minutes(&[("normal", 42)]));
    let usage = cache.usage();
    assert_eq!(consumed_minutes(&usage, "normal"), Some(42));
    assert_eq!(consumed_minutes(&usage, "idle"), Some(0));
}

#[test]
fn snapshot_is_shared_and_outlives_a_refresh() {
    let mut cache = GrpWallCache::new();
    assert!(cache.replace(minutes(&[("normal", 1)])));
    let pass = cache.usage();
    let again = cache.usage();
    assert!(Arc::ptr_eq(pass.as_ref().unwrap(), again.as_ref().unwrap()));
    assert!(!cache.replace(minutes(&[("normal", 2)])));
    assert_eq!(consumed_minutes(&pass, "normal"), Some(1));
    assert_eq!(consumed_minutes(&cache.usage(), "normal"), Some(2));
}

#[test]
fn enforcement_is_announced_at_the_first_load_only() {
    let mut cache = GrpWallCache::new();
    assert_eq!(cache.refresh_once(Fetched::Failed), None);
    assert_eq!(cache.refresh_once(Fetched::TimedOut), None);
    assert_eq!(
        cache.refresh_once(Fetched::Loaded(minutes(&[("a", 1), ("b", 2)]))),
        Some(2)
    );
    assert_eq!(cache.refresh_once(Fetched::Failed), None);
    assert_eq!(consumed_minutes(&cache.usage(), "b"), Some(2));
    assert_eq!(cache.refresh_once(Fetched::Loaded(minutes(&[("a", 5)]))), None);
    assert_eq!(consumed_minutes(&cache.usage(), "a"), Some(5));
    assert_eq!(consumed_minutes(&cache.usage(), "b"), Some(0));
}

#[test]
fn first_figures_may_be_empty() {
    let mut cache = GrpWallCache::new();
    assert_eq!(cache.refresh_once(Fetched::Loaded(minutes(&[]))), Some(0));
    assert_eq!(consumed_minutes(&cache.usage(), "a"), Some(0));
}

#[test]
fn schedule_fetches_at_once_and_then_after_every_interval() {
    let mut schedule = RefreshSchedule::new(300);
    assert_eq!(
        schedule.next(),
        RefreshAction::Fetch { timeout_secs: 5, initial: true }
    );
    for _ in 0..3 {
        assert_eq!(schedule.next(), RefreshAction::Sleep { secs: 300 });
        assert_eq!(
            schedule.next(),
            RefreshAction::Fetch { timeout_secs: 10, initial: false }
        );
    }
}

#[test]
fn interval_is_at_least_ten_seconds() {
    for (requested, secs) in [(0, 10), (9, 10), (10, 10), (11, 11), (u64::MAX, u64::MAX)] {
        let mut schedule = RefreshSchedule::new(requested);
        schedule.next();
        assert_eq!(schedule.next(), RefreshAction::Sleep { secs });
    }
}

#[test]
fn unusable_tres_columns_are_as_if_absent() {
    let row = |tres_column: Option<TresColumn<TresRecord>>| -> Record {
        let mut r = minimal("mixed");
        r.priority = 5;
        r.preempt = "low, scavenger".into();
        r.preempt_mode = QosPreemptMode::parse("whatever");
        r.flags = "DenyOnLimit".into();
        r.max_tres_per_job = tres_column.clone();
        r.max_tres_per_user = tres("cpu=64");
        r.grp_tres = tres_column;
        r
    };
    let clean = qos_from_record(row(None));
    assert_eq!(clean.preempt_mode, QosPreemptMode::default());
    for bad in ["", "cpu=many", "nonsense"] {
        let q = qos_from_record(row(tres(bad)));
        assert_eq!(format!("{q:?}"), format!("{clean:?}"), "{bad:?}");
        assert!(q.limits.max_tres_per_user.is_some());

        let m = qos_by_name(vec![minimal("other"), row(tres(bad))]);
        let n = qos_by_name(vec![minimal("other"), row(None)]);
        for name in ["other", "mixed"] {
            assert_eq!(format!("{:?}", m.get(name)), format!("{:?}", n.get(name)));
        }
    }
}
