use mikrodb::database::{Database, Transaction};
use mikrodb::error::DatabaseError;
use mikrodb::frame::{decode_frames, encode_frame};
use mikrodb::log::{decoded_prefix, LogRecord};
use std::collections::BTreeMap;

/// What a store keeps on disk: the checkpoint image and the log bytes.
#[derive(Default, Clone)]
struct Disk {
    image: BTreeMap<i32, i32>,
    log: Vec<u8>,
}

fn encode(rec: &LogRecord<i32, i32>) -> Vec<u8> {
    let text = match rec {
        LogRecord::Create { key, value } => format!("C {} {}", key, value),
        LogRecord::Read { key } => format!("R {}", key),
        LogRecord::Update { key, value } => format!("U {} {}", key, value),
        LogRecord::Delete { key } => format!("D {}", key),
        LogRecord::Commit => "commit".to_string(),
        LogRecord::Abort => "abort".to_string(),
    };
    text.into_bytes()
}

fn decode(body: &[u8]) -> Option<LogRecord<i32, i32>> {
    let text = std::str::from_utf8(body).ok()?;
    let parts: Vec<&str> = text.split(' ').collect();
    let num = |i: usize| parts.get(i).and_then(|p| p.parse::<i32>().ok());
    match parts[0] {
        "C" => Some(LogRecord::Create { key: num(1)?, value: num(2)? }),
        "R" => Some(LogRecord::Read { key: num(1)? }),
        "U" => Some(LogRecord::Update { key: num(1)?, value: num(2)? }),
        "D" => Some(LogRecord::Delete { key: num(1)? }),
        "commit" => Some(LogRecord::Commit),
        "abort" => Some(LogRecord::Abort),
        _ => None,
    }
}

fn records(disk: &Disk) -> Vec<LogRecord<i32, i32>> {
    let bodies = decode_frames(&disk.log);
    decoded_prefix(bodies.iter().map(|b| decode(b)).collect())
}

/// Opens the store: recovery, then a fresh image and an empty log.
fn open(disk: &mut Disk) -> Database<i32, i32> {
    let mut db = Database::new(disk.image.clone(), records(disk));
    disk.image = db.data().clone();
    disk.log.clear();
    db.checkpointed();
    db
}

fn append(disk: &mut Disk, rec: &LogRecord<i32, i32>) {
    disk.log.extend_from_slice(&encode_frame(&encode(rec)));
}

fn create(disk: &mut Disk, db: &Database<i32, i32>, tx: &mut Transaction<i32, i32>, k: i32, v: i32) -> Result<(), DatabaseError> {
    let rec = tx.create(db, k, v)?;
    append(disk, &rec);
    tx.stage(db, rec);
    Ok(())
}

fn update(disk: &mut Disk, db: &Database<i32, i32>, tx: &mut Transaction<i32, i32>, k: i32, v: i32) -> Result<(), DatabaseError> {
    let rec = tx.update(db, k, v)?;
    append(disk, &rec);
    tx.stage(db, rec);
    Ok(())
}

fn delete(disk: &mut Disk, db: &Database<i32, i32>, tx: &mut Transaction<i32, i32>, k: i32) -> Result<(), DatabaseError> {
    let rec = tx.delete(db, k)?;
    append(disk, &rec);
    tx.stage(db, rec);
    Ok(())
}

fn read(disk: &mut Disk, db: &Database<i32, i32>, tx: &mut Transaction<i32, i32>, k: i32) -> Result<i32, DatabaseError> {
    let rec = LogRecord::Read { key: k };
    append(disk, &rec);
    tx.stage(db, rec);
    tx.read(db, &k).map(|v| *v)
}

fn commit(disk: &mut Disk, db: &mut Database<i32, i32>, tx: Transaction<i32, i32>) {
    append(disk, &LogRecord::Commit);
    tx.commit(db);
}

fn abort(disk: &mut Disk, db: &mut Database<i32, i32>, tx: Transaction<i32, i32>) {
    append(disk, &LogRecord::Abort);
    tx.abort(db);
}

/// An orderly close: the image is written and the log cleared.
fn close(disk: &mut Disk, db: &mut Database<i32, i32>) {
    disk.image = db.data().clone();
    disk.log.clear();
    db.checkpointed();
}

#[test]
fn log_rw() {
    let record = LogRecord::Create { key: 123, value: 456 };
    let mut disk = Disk::default();
    append(&mut disk, &record);
    let result = records(&disk);
    assert_eq!(result.len(), 1);
    assert_eq!(result[0], record);
}

#[test]
fn basic_commit_persists() {
    let mut disk = Disk::default();
    let mut db = open(&mut disk);
    let mut tx = db.begin_transaction();
    create(&mut disk, &db, &mut tx, 1, 123).unwrap();
    commit(&mut disk, &mut db, tx);
    close(&mut disk, &mut db);
    let db = open(&mut disk);
    let tx = db.begin_transaction();
    assert_eq!(*tx.read(&db, &1).unwrap(), 123);
}

#[test]
fn forget1() {
    let mut disk = Disk::default();
    {
        let mut db = open(&mut disk);
        db.clear();
        let mut tx = db.begin_transaction();
        create(&mut disk, &db, &mut tx, 1, 123).unwrap();
        commit(&mut disk, &mut db, tx);
        close(&mut disk, &mut db);
    }
    {
        let db = open(&mut disk);
        let mut tx = db.begin_transaction();
        assert_eq!(read(&mut disk, &db, &mut tx, 1).unwrap(), 123);
        update(&mut disk, &db, &mut tx, 1, 456).unwrap();
        // The handle is released without commit: its teardown logs an abort.
        append(&mut disk, &LogRecord::Abort);
    }
    {
        let mut db = open(&mut disk);
        let mut tx = db.begin_transaction();
        assert_eq!(read(&mut disk, &db, &mut tx, 1).unwrap(), 123);
        abort(&mut disk, &mut db, tx);
    }
}

#[test]
fn redo1() {
    let mut disk = Disk::default();
    {
        let mut db = open(&mut disk);
        db.clear();
        let mut tx = db.begin_transaction();
        create(&mut disk, &db, &mut tx, 1, 123).unwrap();
        commit(&mut disk, &mut db, tx);
        close(&mut disk, &mut db);
    }
    {
        // No orderly close: the image is stale and the log holds the commit.
        let mut db = open(&mut disk);
        let mut tx = db.begin_transaction();
        assert_eq!(read(&mut disk, &db, &mut tx, 1).unwrap(), 123);
        update(&mut disk, &db, &mut tx, 1, 456).unwrap();
        commit(&mut disk, &mut db, tx);
    }
    {
        let mut db = open(&mut disk);
        let mut tx = db.begin_transaction();
        assert_eq!(read(&mut disk, &db, &mut tx, 1).unwrap(), 456);
        commit(&mut disk, &mut db, tx);
    }
}

#[test]
fn many_transaction() {
    let mut disk = Disk::default();
    {
        let mut db = open(&mut disk);
        db.clear();
        for x in 0..1000 {
            let mut tx = db.begin_transaction();
            create(&mut disk, &db, &mut tx, x, x).unwrap();
            commit(&mut disk, &mut db, tx);
        }
        for x in 0..1000 {
            let mut tx = db.begin_transaction();
            update(&mut disk, &db, &mut tx, x, x + 1).unwrap();
            commit(&mut disk, &mut db, tx);
        }
        close(&mut disk, &mut db);
    }
    {
        let mut db = open(&mut disk);
        for x in 0..1000 {
            let mut tx = db.begin_transaction();
            assert_eq!(read(&mut disk, &db, &mut tx, x).unwrap(), x + 1);
            commit(&mut disk, &mut db, tx);
        }
    }
}

#[test]
fn many_checkpoint() {
    let mut disk = Disk::default();
    {
        let mut db = open(&mut disk);
        db.clear();
        close(&mut disk, &mut db);
    }
    for x in 0..1000 {
        let mut db = open(&mut disk);
        let mut tx = db.begin_transaction();
        create(&mut disk, &db, &mut tx, x, x).unwrap();
        commit(&mut disk, &mut db, tx);
        close(&mut disk, &mut db);
    }
    let mut db = open(&mut disk);
    assert!(disk.log.is_empty());
    let mut tx = db.begin_transaction();
    for x in 0..1000 {
        delete(&mut disk, &db, &mut tx, x).unwrap();
    }
    commit(&mut disk, &mut db, tx);
    assert!(db.data().is_empty());
}

#[test]
fn corrupt_tail_is_discarded_and_log_reset() {
    let mut disk = Disk::default();
    let mut db = open(&mut disk);
    let mut tx = db.begin_transaction();
    create(&mut disk, &db, &mut tx, 1, 123).unwrap();
    commit(&mut disk, &mut db, tx);
    let n = disk.log.len();
    disk.log[n - 1] ^= 0xff;
    let db = open(&mut disk);
    assert!(db.data().is_empty());
    assert!(disk.log.is_empty());
}

#[test]
fn abort_discards_staged_mutations() {
    let mut disk = Disk::default();
    let mut db = open(&mut disk);
    let mut tx = db.begin_transaction();
    create(&mut disk, &db, &mut tx, 1, 1).unwrap();
    create(&mut disk, &db, &mut tx, 2, 2).unwrap();
    abort(&mut disk, &mut db, tx);
    let db = open(&mut disk);
    let tx = db.begin_transaction();
    assert!(matches!(tx.read(&db, &1), Err(DatabaseError::KeyNotFoundError)));
    assert!(matches!(tx.read(&db, &2), Err(DatabaseError::KeyNotFoundError)));
}

#[test]
fn create_on_visible_key_is_a_duplication() {
    let mut disk = Disk::default();
    let db = open(&mut disk);
    let mut tx = db.begin_transaction();
    create(&mut disk, &db, &mut tx, 5, 50).unwrap();
    let before = disk.log.len();
    assert!(matches!(create(&mut disk, &db, &mut tx, 5, 51), Err(DatabaseError::KeyDuplicationError)));
    assert_eq!(disk.log.len(), before);
    assert_eq!(*tx.read(&db, &5).unwrap(), 50);
}

#[test]
fn update_and_delete_need_a_visible_key() {
    let mut disk = Disk::default();
    let db = open(&mut disk);
    let mut tx = db.begin_transaction();
    assert!(matches!(update(&mut disk, &db, &mut tx, 9, 1), Err(DatabaseError::KeyNotFoundError)));
    assert!(matches!(delete(&mut disk, &db, &mut tx, 9), Err(DatabaseError::KeyNotFoundError)));
    assert!(matches!(read(&mut disk, &db, &mut tx, 9), Err(DatabaseError::KeyNotFoundError)));
}

#[test]
fn tombstone_shadows_the_dataset() {
    let mut disk = Disk::default();
    let mut db = open(&mut disk);
    let mut tx = db.begin_transaction();
    create(&mut disk, &db, &mut tx, 1, 10).unwrap();
    commit(&mut disk, &mut db, tx);
    let mut tx = db.begin_transaction();
    delete(&mut disk, &db, &mut tx, 1).unwrap();
    assert!(matches!(tx.read(&db, &1), Err(DatabaseError::KeyNotFoundError)));
    create(&mut disk, &db, &mut tx, 1, 11).unwrap();
    assert_eq!(*tx.read(&db, &1).unwrap(), 11);
    delete(&mut disk, &db, &mut tx, 1).unwrap();
    commit(&mut disk, &mut db, tx);
    assert!(db.get(&1).is_none());
    let db = open(&mut disk);
    assert!(db.get(&1).is_none());
}

#[test]
fn uncommitted_tail_is_invisible_after_reopen() {
    let mut disk = Disk::default();
    let mut db = open(&mut disk);
    let mut tx = db.begin_transaction();
    create(&mut disk, &db, &mut tx, 1, 1).unwrap();
    commit(&mut disk, &mut db, tx);
    let mut tx = db.begin_transaction();
    create(&mut disk, &db, &mut tx, 2, 2).unwrap();
    update(&mut disk, &db, &mut tx, 1, 7).unwrap();
    // Crash: neither commit nor abort reaches the log.
    let db = open(&mut disk);
    assert_eq!(db.get(&1), Some(&1));
    assert_eq!(db.get(&2), None);
}

#[test]
fn committed_writesets_apply_in_order() {
    let mut disk = Disk::default();
    let mut db = open(&mut disk);
    let mut tx = db.begin_transaction();
    create(&mut disk, &db, &mut tx, 1, 1).unwrap();
    create(&mut disk, &db, &mut tx, 2, 2).unwrap();
    commit(&mut disk, &mut db, tx);
    let mut tx = db.begin_transaction();
    update(&mut disk, &db, &mut tx, 1, 100).unwrap();
    abort(&mut disk, &mut db, tx);
    let mut tx = db.begin_transaction();
    delete(&mut disk, &db, &mut tx, 2).unwrap();
    create(&mut disk, &db, &mut tx, 3, 3).unwrap();
    commit(&mut disk, &mut db, tx);
    let live = db.data().clone();
    let reopened = open(&mut disk);
    let expected: BTreeMap<i32, i32> = [(1, 1), (3, 3)].into_iter().collect();
    assert_eq!(live, expected);
    assert_eq!(reopened.data(), &expected);
}
