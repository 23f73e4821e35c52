//! The transaction engine: the authoritative dataset, the writeset of the
//! live transaction, and the log that couples them.
use crate::error::DatabaseError;
use crate::log::{no_boundary, no_commit, LogRecord};
use crate::recovery::{
    apply_record, apply_records, crash_recover, entry, lemma_apply_records_push,
    lemma_replay_group, lemma_uncommitted_invisible, replay,
};
use std::collections::BTreeMap;
use vstd::laws_cmp::obeys_cmp;
use vstd::pervasive::strictly_cloned;
use vstd::prelude::*;

verus! {

/// A clone of a key is the key itself.
pub open spec fn clone_is_identity<K: Clone>() -> bool {
    forall|a: K, b: K| #[trigger] strictly_cloned(a, b) ==> a == b
}

/// The keys obey the ordering model of `BTreeMap` and clone to themselves.
pub open spec fn key_laws<K: Ord + Clone>() -> bool {
    obeys_cmp::<K>() && clone_is_identity::<K>()
}

/// Integer keys obey the key laws.
pub proof fn lemma_integer_key_laws()
    ensures
        key_laws::<i32>(),
        key_laws::<i64>(),
        key_laws::<u64>(),
{
    broadcast use vstd::laws_cmp::group_laws_cmp;

    assert forall|a: i32, b: i32| #[trigger] strictly_cloned(a, b) implies a == b by {}
    assert forall|a: i64, b: i64| #[trigger] strictly_cloned(a, b) implies a == b by {}
    assert forall|a: u64, b: u64| #[trigger] strictly_cloned(a, b) implies a == b by {}
}

/// What a transaction sees at `k`: its own writeset first (a `None` there
/// is a deletion), the dataset second.
pub open spec fn visible<K, V>(data: Map<K, V>, ws: Map<K, Option<V>>, k: K) -> Option<V> {
    if ws.contains_key(k) {
        ws[k]
    } else {
        entry(data, k)
    }
}

/// The dataset with the writeset merged in: `Some` inserts or overwrites,
/// `None` removes.
pub open spec fn merge<K, V>(data: Map<K, V>, ws: Map<K, Option<V>>) -> Map<K, V> {
    Map::new(|k: K| visible(data, ws, k) is Some, |k: K| visible(data, ws, k)->Some_0)
}

/// The store: the authoritative dataset, with the checkpoint image and the
/// log records written since that image.
#[verifier::reject_recursive_types(K)]
pub struct Database<K, V> {
    data: BTreeMap<K, V>,
    image: Ghost<Map<K, V>>,
    log: Ghost<Seq<LogRecord<K, V>>>,
}

/// The state of the one live transaction: its writeset, the keys it wrote in
/// the order it wrote them, and the records it logged.
#[verifier::reject_recursive_types(K)]
pub struct Transaction<K, V> {
    writeset: BTreeMap<K, Option<V>>,
    keys: Vec<K>,
    staged: Ghost<Seq<LogRecord<K, V>>>,
}

impl<K: Ord + Clone, V> Database<K, V> {
    /// The dataset.
    pub closed spec fn view(&self) -> Map<K, V> {
        self.data@
    }

    /// The checkpoint image the log starts from.
    pub closed spec fn image(&self) -> Map<K, V> {
        self.image@
    }

    /// The records logged since the checkpoint image.
    pub closed spec fn log(&self) -> Seq<LogRecord<K, V>> {
        self.log@
    }

    /// With no transaction live, the dataset is what recovery rebuilds from
    /// the image and the log, and the log ends at a boundary.
    pub closed spec fn wf(&self) -> bool {
        &&& key_laws::<K>()
        &&& replay(self.image@, self.log@) == self.data@
        &&& self.log@.len() > 0 ==> self.log@.last().is_boundary()
    }

    /// The dataset recovered from a checkpoint image and the records of the
    /// log. The caller then writes it as the new image and clears the log.
    pub fn new(image: BTreeMap<K, V>, logs: Vec<LogRecord<K, V>>) -> (r: Self)
        requires
            key_laws::<K>(),
        ensures
            r.wf(),
            r@ == replay(image@, logs@),
            r.image() == r@,
            r.log() == Seq::<LogRecord<K, V>>::empty(),
    {
        let mut data = image;
        crash_recover(&mut data, logs);
        let ghost d = data@;
        Database { data, image: Ghost(d), log: Ghost(Seq::empty()) }
    }

    /// Records that the dataset was written as the checkpoint image and the
    /// log was cleared.
    pub fn checkpointed(&mut self)
        requires
            old(self).wf(),
        ensures
            final(self).wf(),
            final(self)@ == old(self)@,
            final(self).image() == old(self)@,
            final(self).log() == Seq::<LogRecord<K, V>>::empty(),
    {
        let ghost d = self.data@;
        self.image = Ghost(d);
        self.log = Ghost(Seq::empty());
    }

    /// Forgets every entry, together with the image and the log.
    pub fn clear(&mut self)
        requires
            old(self).wf(),
        ensures
            final(self).wf(),
            final(self)@ == Map::<K, V>::empty(),
            final(self).image() == Map::<K, V>::empty(),
            final(self).log() == Seq::<LogRecord<K, V>>::empty(),
    {
        self.data.clear();
        self.image = Ghost(Map::empty());
        self.log = Ghost(Seq::empty());
    }

    /// The value stored under `key`.
    pub fn get(&self, key: &K) -> (r: Option<&V>)
        requires
            self.wf(),
        ensures
            r matches Some(v) ==> self@.contains_key(*key) && *v == self@[*key],
            r is None ==> !self@.contains_key(*key),
    {
        self.data.get(key)
    }

    /// With no transaction live, reopening the store (recovering from the
    /// image and the log) gives the dataset held in memory.
    pub proof fn lemma_reopen_recovers(&self)
        requires
            self.wf(),
        ensures
            replay(self.image(), self.log()) == self@,
    {
    }

    /// A crash in the middle of a transaction, after its first `n` records
    /// reached the log, recovers the dataset as it was before the
    /// transaction began: none of its mutations is visible.
    pub proof fn lemma_crash_mid_transaction(&self, tx: &Transaction<K, V>, n: nat)
        requires
            self.wf(),
            tx.inv(self@),
            n <= tx.staged().len(),
        ensures
            replay(self.image(), self.log() + tx.staged().take(n as int)) == self@,
    {
        let st = tx.staged().take(n as int);
        assert(no_commit(st)) by {
            assert forall|i: int| 0 <= i < st.len() implies !((#[trigger] st[i]) is Commit) by {
                assert(st[i] == tx.staged()[i]);
                assert(!st[i].is_boundary());
            }
        }
        lemma_uncommitted_invisible(self.image@, self.log@, st);
    }

    /// The dataset, for writing the checkpoint image.
    pub fn data(&self) -> (r: &BTreeMap<K, V>)
        ensures
            r@ == self@,
    {
        &self.data
    }

    /// Starts a transaction with an empty writeset.
    pub fn begin_transaction(&self) -> (tx: Transaction<K, V>)
        requires
            self.wf(),
        ensures
            tx.inv(self@),
            tx.writes() == Map::<K, Option<V>>::empty(),
            tx.staged() == Seq::<LogRecord<K, V>>::empty(),
    {
        let tx = Transaction {
            writeset: BTreeMap::new(),
            keys: Vec::new(),
            staged: Ghost(Seq::empty()),
        };
        assert(merge(self@, tx.writeset@) =~= self@);
        tx
    }
}

impl<K: Ord + Clone, V> Transaction<K, V> {
    /// Ends the transaction after its `Commit` record is durable: its writeset is
    /// merged into the dataset, and the log has gained its records and the
    /// `Commit`.
    pub fn commit(self, db: &mut Database<K, V>)
        requires
            old(db).wf(),
            self.inv(old(db)@),
        ensures
            final(db).wf(),
            final(db)@ == merge(old(db)@, self.writes()),
            final(db)@ == apply_records(old(db)@, self.staged()),
            final(db).image() == old(db).image(),
            final(db).log() == old(db).log() + self.staged() + seq![LogRecord::Commit],
    {
        let ghost d0 = db.data@;
        let ghost ws0 = self.writeset@;
        let ghost staged = self.staged@;
        let Transaction { mut writeset, mut keys, staged: _ } = self;
        while keys.len() > 0
            invariant
                key_laws::<K>(),
                db.log@ == old(db).log@,
                db.image@ == old(db).image@,
                db.log@.len() > 0 ==> db.log@.last().is_boundary(),
                replay(db.image@, db.log@) == d0,
                no_boundary(staged),
                apply_records(d0, staged) == merge(d0, ws0),
                merge(db.data@, writeset@) == merge(d0, ws0),
                forall|k: K| #[trigger] writeset@.contains_key(k) ==> keys@.contains(k),
            decreases keys@.len(),
        {
            let ghost ks = keys@;
            let ghost d = db.data@;
            let ghost ws = writeset@;
            let k = keys.pop().unwrap();
            assert(keys@ =~= ks.drop_last());
            let ghost kk = k;
            match writeset.remove(&k) {
                Some(Some(v)) => {
                    db.data.insert(k, v);
                },
                Some(None) => {
                    db.data.remove(&k);
                },
                None => {},
            }
            assert(merge(db.data@, writeset@) =~= merge(d, ws));
            assert forall|j: K| #[trigger] writeset@.contains_key(j) implies keys@.contains(j) by {
                assert(ks.contains(j));
                let i = choose|i: int| 0 <= i < ks.len() && ks[i] == j;
                assert(i != ks.len() - 1);
                assert(keys@[i] == j);
            }
        }
        assert(merge(db.data@, writeset@) =~= db.data@);
        proof {
            lemma_replay_group(db.image@, db.log@, staged, true);
        }
        db.log = Ghost(db.log@ + staged + seq![LogRecord::Commit]);
    }

    /// Ends the transaction after its `Abort` record is durable: the dataset is left as
    /// it was, and the log has gained its records and the `Abort`.
    pub fn abort(self, db: &mut Database<K, V>)
        requires
            old(db).wf(),
            self.inv(old(db)@),
        ensures
            final(db).wf(),
            final(db)@ == old(db)@,
            final(db).image() == old(db).image(),
            final(db).log() == old(db).log() + self.staged() + seq![LogRecord::Abort],
    {
        let ghost staged = self.staged@;
        proof {
            lemma_replay_group(db.image@, db.log@, staged, false);
        }
        db.log = Ghost(db.log@ + staged + seq![LogRecord::Abort]);
    }

    /// The writeset.
    pub closed spec fn writes(&self) -> Map<K, Option<V>> {
        self.writeset@
    }

    /// The records this transaction logged, in order.
    pub closed spec fn staged(&self) -> Seq<LogRecord<K, V>> {
        self.staged@
    }

    /// Over the dataset `data`, the logged records have the effect of the
    /// writeset, and every key of the writeset is listed.
    pub closed spec fn inv(&self, data: Map<K, V>) -> bool {
        &&& key_laws::<K>()
        &&& no_boundary(self.staged@)
        &&& apply_records(data, self.staged@) == merge(data, self.writeset@)
        &&& forall|k: K| #[trigger] self.writeset@.contains_key(k) ==> self.keys@.contains(k)
    }

    /// What the transaction sees at `key`.
    pub fn lookup<'a>(&'a self, db: &'a Database<K, V>, key: &K) -> (r: Option<&'a V>)
        requires
            db.wf(),
            self.inv(db@),
        ensures
            r matches Some(v) ==> visible(db@, self.writes(), *key) == Some(*v),
            r is None ==> visible(db@, self.writes(), *key) is None,
    {
        match self.writeset.get(key) {
            Some(o) => match o {
                Some(v) => Some(v),
                None => None,
            },
            None => db.data.get(key),
        }
    }

    /// The record to log for `create(key, value)`; a
    /// `KeyDuplicationError` where the transaction already sees `key`.
    pub fn create(&self, db: &Database<K, V>, key: K, value: V) -> (r: Result<
        LogRecord<K, V>,
        DatabaseError,
    >)
        requires
            db.wf(),
            self.inv(db@),
        ensures
            r is Err <==> visible(db@, self.writes(), key) is Some,
            r matches Err(e) ==> e is KeyDuplicationError,
            r matches Ok(rec) ==> rec == (LogRecord::Create { key, value }),
    {
        if self.lookup(db, &key).is_some() {
            return Err(DatabaseError::KeyDuplicationError);
        }
        Ok(LogRecord::Create { key, value })
    }

    /// The value the transaction sees at `key`; a `KeyNotFoundError` where
    /// it sees none.
    pub fn read<'a>(&'a self, db: &'a Database<K, V>, key: &K) -> (r: Result<&'a V, DatabaseError>)
        requires
            db.wf(),
            self.inv(db@),
        ensures
            r is Err <==> visible(db@, self.writes(), *key) is None,
            r matches Err(e) ==> e is KeyNotFoundError,
            r matches Ok(v) ==> visible(db@, self.writes(), *key) == Some(*v),
    {
        match self.lookup(db, key) {
            Some(v) => Ok(v),
            None => Err(DatabaseError::KeyNotFoundError),
        }
    }

    /// The record to log for `update(key, value)`; a `KeyNotFoundError`
    /// where the transaction sees nothing at `key`.
    pub fn update(&self, db: &Database<K, V>, key: K, value: V) -> (r: Result<
        LogRecord<K, V>,
        DatabaseError,
    >)
        requires
            db.wf(),
            self.inv(db@),
        ensures
            r is Err <==> visible(db@, self.writes(), key) is None,
            r matches Err(e) ==> e is KeyNotFoundError,
            r matches Ok(rec) ==> rec == (LogRecord::Update { key, value }),
    {
        if self.lookup(db, &key).is_none() {
            return Err(DatabaseError::KeyNotFoundError);
        }
        Ok(LogRecord::Update { key, value })
    }

    /// The record to log for `delete(key)`; a `KeyNotFoundError` where the
    /// transaction sees nothing at `key`.
    pub fn delete(&self, db: &Database<K, V>, key: K) -> (r: Result<LogRecord<K, V>, DatabaseError>)
        requires
            db.wf(),
            self.inv(db@),
        ensures
            r is Err <==> visible(db@, self.writes(), key) is None,
            r matches Err(e) ==> e is KeyNotFoundError,
            r matches Ok(rec) ==> rec == (LogRecord::<K, V>::Delete { key }),
    {
        if self.lookup(db, &key).is_none() {
            return Err(DatabaseError::KeyNotFoundError);
        }
        Ok(LogRecord::Delete { key })
    }

    /// Takes in a record once it is in the log: a mutation goes into the
    /// writeset (`Some` for `Create` and `Update`, `None` for `Delete`), a
    /// `Read` changes nothing there.
    pub fn stage(&mut self, db: &Database<K, V>, rec: LogRecord<K, V>)
        requires
            db.wf(),
            old(self).inv(db@),
            !rec.is_boundary(),
        ensures
            final(self).inv(db@),
            final(self).staged() == old(self).staged().push(rec),
            final(self).writes() == staged_writes(old(self).writes(), rec),
    {
        let ghost r = rec;
        let ghost ws = self.writeset@;
        let ghost st = self.staged@;
        let ghost ks = self.keys@;
        match rec {
            LogRecord::Create { key, value } => {
                let k2 = key.clone();
                assert(strictly_cloned(key, k2));
                self.writeset.insert(key, Some(value));
                self.keys.push(k2);
            },
            LogRecord::Update { key, value } => {
                let k2 = key.clone();
                assert(strictly_cloned(key, k2));
                self.writeset.insert(key, Some(value));
                self.keys.push(k2);
            },
            LogRecord::Delete { key } => {
                let k2 = key.clone();
                assert(strictly_cloned(key, k2));
                self.writeset.insert(key, None);
                self.keys.push(k2);
            },
            _ => {},
        }
        self.staged = Ghost(st.push(r));
        proof {
            lemma_apply_records_push(db@, st, r);
            assert(merge(db@, self.writeset@) =~= apply_record(merge(db@, ws), r));
            assert forall|k: K| #[trigger] self.writeset@.contains_key(k) implies self.keys@.contains(
                k,
            ) by {
                if ws.contains_key(k) {
                    let i = choose|i: int| 0 <= i < ks.len() && ks[i] == k;
                    assert(self.keys@[i] == k);
                } else {
                    assert(self.keys@[self.keys@.len() - 1] == k);
                }
            }
            assert forall|i: int| 0 <= i < self.staged@.len() implies !(
            #[trigger] self.staged@[i]).is_boundary() by {
                if i < st.len() {
                    assert(self.staged@[i] == st[i]);
                }
            }
        }
    }
}

/// The writeset after staging `rec`.
pub open spec fn staged_writes<K, V>(ws: Map<K, Option<V>>, rec: LogRecord<K, V>) -> Map<
    K,
    Option<V>,
> {
    match rec {
        LogRecord::Create { key, value } => ws.insert(key, Some(value)),
        LogRecord::Update { key, value } => ws.insert(key, Some(value)),
        LogRecord::Delete { key } => ws.insert(key, None),
        _ => ws,
    }
}

} // verus!
