use mikrodb::error::DatabaseError;
use mikrodb::log::{decoded_prefix, LogRecord};
use mikrodb::recovery::{apply_log_record, crash_recover};
use std::collections::BTreeMap;

type Rec = LogRecord<i32, String>;

fn create(k: i32, v: &str) -> Rec {
    LogRecord::Create { key: k, value: v.to_string() }
}

fn update(k: i32, v: &str) -> Rec {
    LogRecord::Update { key: k, value: v.to_string() }
}

fn sample_log() -> Vec<Rec> {
    vec![
        create(1, "a"),
        create(2, "b"),
        LogRecord::Commit,
        update(1, "lost"),
        LogRecord::Delete { key: 2 },
        LogRecord::Abort,
        LogRecord::Read { key: 1 },
        update(2, "c"),
        LogRecord::Delete { key: 1 },
        LogRecord::Commit,
        create(9, "pending"),
    ]
}

fn recovered(start: &BTreeMap<i32, String>, log: Vec<Rec>) -> BTreeMap<i32, String> {
    let mut data = start.clone();
    crash_recover(&mut data, log);
    data
}

#[test]
fn recovery_applies_committed_groups_only() {
    let data = recovered(&BTreeMap::new(), sample_log());
    let expected: BTreeMap<i32, String> = [(2, "c".to_string())].into_iter().collect();
    assert_eq!(data, expected);
}

#[test]
fn recovery_over_an_image() {
    let image: BTreeMap<i32, String> = [(5, "old".to_string())].into_iter().collect();
    let data = recovered(&image, vec![update(5, "new"), LogRecord::Commit]);
    assert_eq!(data.get(&5).map(|s| s.as_str()), Some("new"));
}

#[test]
fn recovery_is_idempotent() {
    let image: BTreeMap<i32, String> = [(1, "x".to_string()), (7, "y".to_string())].into_iter().collect();
    let once = recovered(&image, sample_log());
    let twice = recovered(&once, sample_log());
    assert_eq!(once, twice);
}

#[test]
fn read_records_change_nothing() {
    let with_reads = vec![
        LogRecord::Read { key: 1 },
        create(1, "a"),
        LogRecord::Read { key: 1 },
        LogRecord::Commit,
        LogRecord::Read { key: 3 },
    ];
    let without = vec![create(1, "a"), LogRecord::Commit];
    assert_eq!(recovered(&BTreeMap::new(), with_reads), recovered(&BTreeMap::new(), without));
}

#[test]
fn pending_tail_is_dropped() {
    let data = recovered(&BTreeMap::new(), vec![create(1, "a"), create(2, "b")]);
    assert!(data.is_empty());
}

#[test]
fn losing_a_trailing_non_commit_record_changes_nothing() {
    let mut log = sample_log();
    let full = recovered(&BTreeMap::new(), sample_log());
    log.pop();
    assert_eq!(recovered(&BTreeMap::new(), log), full);
}

#[test]
fn delete_of_absent_key_is_a_no_op() {
    let image: BTreeMap<i32, String> = [(1, "a".to_string())].into_iter().collect();
    let data = recovered(&image, vec![LogRecord::Delete { key: 4 }, LogRecord::Commit]);
    assert_eq!(data, image);
}

#[test]
fn apply_one_record() {
    let mut data: BTreeMap<i32, String> = BTreeMap::new();
    apply_log_record(&mut data, create(1, "a"));
    apply_log_record(&mut data, update(1, "b"));
    assert_eq!(data.get(&1).map(|s| s.as_str()), Some("b"));
    apply_log_record(&mut data, LogRecord::Read { key: 1 });
    apply_log_record(&mut data, LogRecord::Commit);
    assert_eq!(data.len(), 1);
    apply_log_record(&mut data, LogRecord::Delete { key: 1 });
    assert!(data.is_empty());
}

#[test]
fn decoded_prefix_stops_at_first_failure() {
    let decoded: Vec<Option<Rec>> = vec![Some(create(1, "a")), Some(LogRecord::Commit), None, Some(LogRecord::Abort)];
    let r = decoded_prefix(decoded);
    assert_eq!(r, vec![create(1, "a"), LogRecord::Commit]);
}

#[test]
fn decoded_prefix_keeps_all_when_all_decode() {
    let decoded: Vec<Option<Rec>> = vec![Some(create(1, "a")), Some(LogRecord::Commit)];
    assert_eq!(decoded_prefix(decoded).len(), 2);
    assert!(decoded_prefix(Vec::<Option<Rec>>::new()).is_empty());
    assert!(decoded_prefix(vec![None, Some(LogRecord::<i32, String>::Commit)]).is_empty());
}

#[test]
fn boundary_records() {
    assert!(LogRecord::<i32, i32>::Commit.boundary());
    assert!(LogRecord::<i32, i32>::Abort.boundary());
    assert!(!LogRecord::<i32, i32>::Read { key: 1 }.boundary());
}

#[test]
fn error_descriptions() {
    assert_eq!(DatabaseError::KeyNotFoundError.describe(), "Key Not Found");
    assert_eq!(DatabaseError::KeyDuplicationError.describe(), "Key Duplication");
    assert_eq!(DatabaseError::TransactionLogError.describe(), "Transaction log error");
    let e = DatabaseError::InvalidLogError { message: "bad hash".to_string() };
    assert_eq!(e.describe(), "bad hash");
}
