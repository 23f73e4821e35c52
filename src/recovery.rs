//! Crash recovery: replaying the log over the checkpoint image.
use crate::frame::{frame_of, frames_of, framable, lemma_torn_tail, parse_frames};
use crate::log::{no_boundary, no_commit, LogRecord};
use std::collections::{BTreeMap, VecDeque};
use vstd::laws_cmp::obeys_cmp;
use vstd::prelude::*;

verus! {

/// The dataset after one mutation: `Create` and `Update` insert or overwrite,
/// `Delete` removes, every other record leaves it as it is.
pub open spec fn apply_record<K, V>(m: Map<K, V>, r: LogRecord<K, V>) -> Map<K, V> {
    match r {
        LogRecord::Create { key, value } => m.insert(key, value),
        LogRecord::Update { key, value } => m.insert(key, value),
        LogRecord::Delete { key } => m.remove(key),
        _ => m,
    }
}

/// The dataset after the records of `rs`, in order.
pub open spec fn apply_records<K, V>(m: Map<K, V>, rs: Seq<LogRecord<K, V>>) -> Map<K, V>
    decreases rs.len(),
{
    if rs.len() == 0 {
        m
    } else {
        apply_records(apply_record(m, rs[0]), rs.drop_first())
    }
}

/// The recovery walk: `pending` holds the mutations read since the last
/// boundary; a `Commit` applies them, an `Abort` drops them, and those still
/// pending at the end of the log are dropped.
pub open spec fn replay_from<K, V>(
    m: Map<K, V>,
    pending: Seq<LogRecord<K, V>>,
    rs: Seq<LogRecord<K, V>>,
) -> Map<K, V>
    decreases rs.len(),
{
    if rs.len() == 0 {
        m
    } else {
        match rs[0] {
            LogRecord::Commit => replay_from(apply_records(m, pending), Seq::empty(), rs.drop_first()),
            LogRecord::Abort => replay_from(m, Seq::empty(), rs.drop_first()),
            _ => replay_from(m, pending.push(rs[0]), rs.drop_first()),
        }
    }
}

/// The dataset that recovery rebuilds from the image `m` and the log `rs`.
pub open spec fn replay<K, V>(m: Map<K, V>, rs: Seq<LogRecord<K, V>>) -> Map<K, V> {
    replay_from(m, Seq::empty(), rs)
}

/// Applies one record to the dataset.
pub fn apply_log_record<K: Ord, V>(data: &mut BTreeMap<K, V>, r: LogRecord<K, V>)
    requires
        obeys_cmp::<K>(),
    ensures
        final(data)@ == apply_record(old(data)@, r),
{
    match r {
        LogRecord::Create { key, value } => {
            data.insert(key, value);
        },
        LogRecord::Update { key, value } => {
            data.insert(key, value);
        },
        LogRecord::Delete { key } => {
            data.remove(&key);
        },
        _ => {},
    }
}

/// Replays the log `logs` over `data`: the mutations of each group closed by
/// a `Commit` are applied in order, those of a group closed by an `Abort` or
/// left open at the end are dropped, and `Read` records change nothing.
pub fn crash_recover<K: Ord, V>(data: &mut BTreeMap<K, V>, logs: Vec<LogRecord<K, V>>)
    requires
        obeys_cmp::<K>(),
    ensures
        final(data)@ == replay(old(data)@, logs@),
{
    let ghost all = logs@;
    let ghost start = data@;
    let mut logs = logs;
    let mut queue: VecDeque<LogRecord<K, V>> = VecDeque::new();
    while logs.len() > 0
        invariant
            logs@ + queue@ == all,
        decreases logs@.len(),
    {
        let r = logs.pop().unwrap();
        queue.push_front(r);
        assert(logs@ + queue@ =~= all);
    }
    assert(queue@ =~= logs@ + queue@);
    let mut pending: VecDeque<LogRecord<K, V>> = VecDeque::new();
    while queue.len() > 0
        invariant
            obeys_cmp::<K>(),
            replay_from(data@, pending@, queue@) == replay(start, all),
        decreases queue@.len(),
    {
        let ghost rest = queue@;
        let r = queue.pop_front().unwrap();
        assert(queue@ =~= rest.drop_first());
        let ghost p0 = pending@;
        assert(replay_from(data@, p0, rest) == match r {
            LogRecord::Commit => replay_from(apply_records(data@, p0), Seq::empty(), queue@),
            LogRecord::Abort => replay_from(data@, Seq::empty(), queue@),
            _ => replay_from(data@, p0.push(r), queue@),
        });
        match r {
            LogRecord::Commit => {
                let ghost target = apply_records(data@, pending@);
                while pending.len() > 0
                    invariant
                        obeys_cmp::<K>(),
                        apply_records(data@, pending@) == target,
                    decreases pending@.len(),
                {
                    let ghost p = pending@;
                    let m = pending.pop_front().unwrap();
                    apply_log_record(data, m);
                    assert(pending@ =~= p.drop_first());
                }
                assert(pending@ =~= Seq::<LogRecord<K, V>>::empty());
            },
            LogRecord::Abort => {
                pending.clear();
                assert(pending@ =~= Seq::<LogRecord<K, V>>::empty());
            },
            _ => {
                pending.push_back(r);
            },
        }
    }
}

/// Applying one more record after a list applies it to the result.
pub proof fn lemma_apply_records_push<K, V>(
    m: Map<K, V>,
    rs: Seq<LogRecord<K, V>>,
    r: LogRecord<K, V>,
)
    ensures
        apply_records(m, rs.push(r)) == apply_record(apply_records(m, rs), r),
    decreases rs.len(),
{
    if rs.len() == 0 {
        assert(rs.push(r).drop_first() =~= Seq::<LogRecord<K, V>>::empty());
        assert(apply_records(apply_record(m, r), Seq::<LogRecord<K, V>>::empty()) == apply_record(
            m,
            r,
        ));
    } else {
        assert(rs.push(r)[0] == rs[0]);
        lemma_apply_records_push(apply_record(m, rs[0]), rs.drop_first(), r);
        assert(rs.push(r).drop_first() =~= rs.drop_first().push(r));
    }
}

/// Applying two lists one after the other applies their concatenation.
pub proof fn lemma_apply_records_concat<K, V>(
    m: Map<K, V>,
    a: Seq<LogRecord<K, V>>,
    b: Seq<LogRecord<K, V>>,
)
    ensures
        apply_records(m, a + b) == apply_records(apply_records(m, a), b),
    decreases a.len(),
{
    if a.len() == 0 {
        assert(a + b =~= b);
    } else {
        lemma_apply_records_concat(apply_record(m, a[0]), a.drop_first(), b);
        assert((a + b).drop_first() =~= a.drop_first() + b);
    }
}

/// Two pending lists with the same effect on every dataset give the same
/// replay of any log.
proof fn lemma_replay_equivalent_pending<K, V>(
    m: Map<K, V>,
    p1: Seq<LogRecord<K, V>>,
    p2: Seq<LogRecord<K, V>>,
    rs: Seq<LogRecord<K, V>>,
)
    requires
        forall|d: Map<K, V>| #[trigger] apply_records(d, p1) == apply_records(d, p2),
    ensures
        replay_from(m, p1, rs) == replay_from(m, p2, rs),
    decreases rs.len(),
{
    if rs.len() > 0 {
        let rest = rs.drop_first();
        match rs[0] {
            LogRecord::Commit => {
                assert(apply_records(m, p1) == apply_records(m, p2));
            },
            LogRecord::Abort => {},
            _ => {
                assert forall|d: Map<K, V>| #[trigger]
                    apply_records(d, p1.push(rs[0])) == apply_records(d, p2.push(rs[0])) by {
                    lemma_apply_records_push(d, p1, rs[0]);
                    lemma_apply_records_push(d, p2, rs[0]);
                    assert(apply_records(d, p1) == apply_records(d, p2));
                }
                lemma_replay_equivalent_pending(m, p1.push(rs[0]), p2.push(rs[0]), rest);
            },
        }
    }
}

proof fn lemma_read_ignored_from<K, V>(
    m: Map<K, V>,
    p: Seq<LogRecord<K, V>>,
    a: Seq<LogRecord<K, V>>,
    key: K,
    b: Seq<LogRecord<K, V>>,
)
    ensures
        replay_from(m, p, a + seq![LogRecord::Read { key }] + b) == replay_from(m, p, a + b),
    decreases a.len(),
{
    let r = LogRecord::<K, V>::Read { key };
    if a.len() == 0 {
        assert((a + seq![r] + b).drop_first() =~= b);
        assert(a + b =~= b);
        assert forall|d: Map<K, V>| #[trigger] apply_records(d, p.push(r)) == apply_records(d, p) by {
            lemma_apply_records_push(d, p, r);
        }
        lemma_replay_equivalent_pending(m, p.push(r), p, b);
    } else {
        let a2 = a.drop_first();
        assert((a + seq![r] + b).drop_first() =~= a2 + seq![r] + b);
        assert((a + b).drop_first() =~= a2 + b);
        assert((a + seq![r] + b)[0] == a[0]);
        assert((a + b)[0] == a[0]);
        match a[0] {
            LogRecord::Commit => lemma_read_ignored_from(
                apply_records(m, p),
                Seq::empty(),
                a2,
                key,
                b,
            ),
            LogRecord::Abort => lemma_read_ignored_from(m, Seq::empty(), a2, key, b),
            _ => lemma_read_ignored_from(m, p.push(a[0]), a2, key, b),
        }
    }
}

/// A `Read` record, wherever it stands in the log, does not change the
/// recovered dataset.
pub proof fn lemma_read_ignored<K, V>(
    m: Map<K, V>,
    a: Seq<LogRecord<K, V>>,
    key: K,
    b: Seq<LogRecord<K, V>>,
)
    ensures
        replay(m, a + seq![LogRecord::Read { key }] + b) == replay(m, a + b),
{
    lemma_read_ignored_from(m, Seq::empty(), a, key, b);
}

proof fn lemma_no_commit_from<K, V>(m: Map<K, V>, p: Seq<LogRecord<K, V>>, rs: Seq<LogRecord<K, V>>)
    requires
        no_commit(rs),
    ensures
        replay_from(m, p, rs) == m,
    decreases rs.len(),
{
    if rs.len() > 0 {
        assert(!(rs[0] is Commit));
        let rest = rs.drop_first();
        assert(no_commit(rest)) by {
            assert forall|i: int| 0 <= i < rest.len() implies !((#[trigger] rest[i]) is Commit) by {
                assert(rest[i] == rs[i + 1]);
            }
        }
        match rs[0] {
            LogRecord::Abort => lemma_no_commit_from(m, Seq::empty(), rest),
            _ => lemma_no_commit_from(m, p.push(rs[0]), rest),
        }
    }
}

proof fn lemma_uncommitted_tail_from<K, V>(
    m: Map<K, V>,
    q: Seq<LogRecord<K, V>>,
    a: Seq<LogRecord<K, V>>,
    p: Seq<LogRecord<K, V>>,
)
    requires
        a.len() == 0 ==> q.len() == 0,
        a.len() > 0 ==> a.last().is_boundary(),
        no_commit(p),
    ensures
        replay_from(m, q, a + p) == replay_from(m, q, a),
    decreases a.len(),
{
    if a.len() == 0 {
        assert(a + p =~= p);
        lemma_no_commit_from(m, q, p);
    } else {
        let a2 = a.drop_first();
        assert((a + p).drop_first() =~= a2 + p);
        assert((a + p)[0] == a[0]);
        if a2.len() == 0 {
            assert(a[0] == a.last());
            let m2 = match a[0] {
                LogRecord::Commit => apply_records(m, q),
                _ => m,
            };
            lemma_no_commit_from(m2, Seq::empty(), p);
            assert(a2 + p =~= p);
            assert(replay_from(m2, Seq::empty(), a2) == m2);
        } else {
            assert(a2.last() == a.last());
            match a[0] {
                LogRecord::Commit => lemma_uncommitted_tail_from(
                    apply_records(m, q),
                    Seq::empty(),
                    a2,
                    p,
                ),
                LogRecord::Abort => lemma_uncommitted_tail_from(m, Seq::empty(), a2, p),
                _ => lemma_uncommitted_tail_from(m, q.push(a[0]), a2, p),
            }
        }
    }
}

/// Records behind the last boundary that no `Commit` follows are never
/// visible after recovery: the log `a + p`, where `a` is empty or ends with a
/// `Commit` or an `Abort` and `p` holds no `Commit`, recovers as `a` alone.
pub proof fn lemma_uncommitted_invisible<K, V>(
    m: Map<K, V>,
    a: Seq<LogRecord<K, V>>,
    p: Seq<LogRecord<K, V>>,
)
    requires
        a.len() > 0 ==> a.last().is_boundary(),
        no_commit(p),
    ensures
        replay(m, a + p) == replay(m, a),
{
    lemma_uncommitted_tail_from(m, Seq::empty(), a, p);
}

/// Losing the last record of the log does not change the recovered dataset,
/// unless that record is a `Commit`.
pub proof fn lemma_drop_last_record<K, V>(m: Map<K, V>, rs: Seq<LogRecord<K, V>>)
    requires
        rs.len() > 0,
        !(rs.last() is Commit),
    ensures
        replay(m, rs.drop_last()) == replay(m, rs),
{
    let a = rs.drop_last();
    assert(rs =~= a.push(rs.last()));
    lemma_drop_last_from(m, Seq::empty(), a, rs.last());
}

proof fn lemma_drop_last_from<K, V>(
    m: Map<K, V>,
    q: Seq<LogRecord<K, V>>,
    a: Seq<LogRecord<K, V>>,
    x: LogRecord<K, V>,
)
    requires
        !(x is Commit),
    ensures
        replay_from(m, q, a.push(x)) == replay_from(m, q, a),
    decreases a.len(),
{
    if a.len() == 0 {
        let e = Seq::<LogRecord<K, V>>::empty();
        assert(a.push(x).drop_first() =~= e);
        assert(a.push(x)[0] == x);
        assert(replay_from(m, e, e) == m);
        assert(replay_from(m, q.push(x), e) == m);
    } else {
        let a2 = a.drop_first();
        assert(a.push(x).drop_first() =~= a2.push(x));
        assert(a.push(x)[0] == a[0]);
        match a[0] {
            LogRecord::Commit => lemma_drop_last_from(apply_records(m, q), Seq::empty(), a2, x),
            LogRecord::Abort => lemma_drop_last_from(m, Seq::empty(), a2, x),
            _ => lemma_drop_last_from(m, q.push(a[0]), a2, x),
        }
    }
}

/// The mutations that recovery applies, in order: those of each group that a
/// `Commit` closes.
pub open spec fn committed_from<K, V>(
    pending: Seq<LogRecord<K, V>>,
    rs: Seq<LogRecord<K, V>>,
) -> Seq<LogRecord<K, V>>
    decreases rs.len(),
{
    if rs.len() == 0 {
        Seq::empty()
    } else {
        match rs[0] {
            LogRecord::Commit => pending + committed_from(Seq::empty(), rs.drop_first()),
            LogRecord::Abort => committed_from(Seq::empty(), rs.drop_first()),
            _ => committed_from(pending.push(rs[0]), rs.drop_first()),
        }
    }
}

/// Recovery applies the committed mutations, in order.
pub proof fn lemma_replay_is_committed<K, V>(
    m: Map<K, V>,
    p: Seq<LogRecord<K, V>>,
    rs: Seq<LogRecord<K, V>>,
)
    ensures
        replay_from(m, p, rs) == apply_records(m, committed_from(p, rs)),
    decreases rs.len(),
{
    if rs.len() == 0 {
        assert(apply_records(m, Seq::<LogRecord<K, V>>::empty()) == m);
    } else {
        let rest = rs.drop_first();
        match rs[0] {
            LogRecord::Commit => {
                lemma_replay_is_committed(apply_records(m, p), Seq::empty(), rest);
                lemma_apply_records_concat(m, p, committed_from(Seq::empty(), rest));
            },
            LogRecord::Abort => lemma_replay_is_committed(m, Seq::empty(), rest),
            _ => lemma_replay_is_committed(m, p.push(rs[0]), rest),
        }
    }
}

/// What the dataset holds at `k`.
pub open spec fn entry<K, V>(m: Map<K, V>, k: K) -> Option<V> {
    if m.contains_key(k) {
        Some(m[k])
    } else {
        None
    }
}

/// The record is a mutation of `k`.
pub open spec fn touches<K, V>(r: LogRecord<K, V>, k: K) -> bool {
    match r {
        LogRecord::Create { key, value } => key == k,
        LogRecord::Update { key, value } => key == k,
        LogRecord::Delete { key } => key == k,
        _ => false,
    }
}

/// Some record of `rs` is a mutation of `k`.
pub open spec fn touched<K, V>(rs: Seq<LogRecord<K, V>>, k: K) -> bool
    decreases rs.len(),
{
    rs.len() > 0 && (touches(rs[0], k) || touched(rs.drop_first(), k))
}

proof fn lemma_untouched<K, V>(m: Map<K, V>, rs: Seq<LogRecord<K, V>>, k: K)
    requires
        !touched(rs, k),
    ensures
        entry(apply_records(m, rs), k) == entry(m, k),
    decreases rs.len(),
{
    if rs.len() > 0 {
        lemma_untouched(apply_record(m, rs[0]), rs.drop_first(), k);
    }
}

proof fn lemma_touched<K, V>(m1: Map<K, V>, m2: Map<K, V>, rs: Seq<LogRecord<K, V>>, k: K)
    requires
        touched(rs, k),
    ensures
        entry(apply_records(m1, rs), k) == entry(apply_records(m2, rs), k),
    decreases rs.len(),
{
    let a1 = apply_record(m1, rs[0]);
    let a2 = apply_record(m2, rs[0]);
    let rest = rs.drop_first();
    if touched(rest, k) {
        lemma_touched(a1, a2, rest, k);
    } else {
        lemma_untouched(a1, rest, k);
        lemma_untouched(a2, rest, k);
    }
}

proof fn lemma_maps_by_entry<K, V>(m1: Map<K, V>, m2: Map<K, V>)
    requires
        forall|k: K| #[trigger] entry(m1, k) == entry(m2, k),
    ensures
        m1 == m2,
{
    assert forall|k: K| m1.contains_key(k) == m2.contains_key(k) by {
        assert(entry(m1, k) == entry(m2, k));
    }
    assert forall|k: K| m1.contains_key(k) implies m1[k] == m2[k] by {
        assert(entry(m1, k) == entry(m2, k));
    }
    assert(m1 =~= m2);
}

/// Applying the same mutations twice gives what applying them once gives.
pub proof fn lemma_apply_records_idempotent<K, V>(m: Map<K, V>, rs: Seq<LogRecord<K, V>>)
    ensures
        apply_records(apply_records(m, rs), rs) == apply_records(m, rs),
{
    let once = apply_records(m, rs);
    assert forall|k: K| #[trigger] entry(apply_records(once, rs), k) == entry(once, k) by {
        if touched(rs, k) {
            lemma_touched(once, m, rs, k);
        } else {
            lemma_untouched(once, rs, k);
        }
    }
    lemma_maps_by_entry(apply_records(once, rs), once);
}

/// Recovery is idempotent: replaying a log over the dataset it recovered
/// gives that dataset again.
pub proof fn lemma_recovery_idempotent<K, V>(m: Map<K, V>, rs: Seq<LogRecord<K, V>>)
    ensures
        replay(replay(m, rs), rs) == replay(m, rs),
{
    let c = committed_from(Seq::empty(), rs);
    lemma_replay_is_committed(m, Seq::empty(), rs);
    lemma_replay_is_committed(replay(m, rs), Seq::empty(), rs);
    lemma_apply_records_idempotent(m, c);
}

/// The boundary that ends a transaction: `Commit` if it committed.
pub open spec fn end_record<K, V>(committed: bool) -> LogRecord<K, V> {
    if committed {
        LogRecord::Commit
    } else {
        LogRecord::Abort
    }
}

/// The log written by a run of transactions, each given by the mutations it
/// logged and whether it committed.
pub open spec fn transactions_log<K, V>(txs: Seq<(Seq<LogRecord<K, V>>, bool)>) -> Seq<
    LogRecord<K, V>,
>
    decreases txs.len(),
{
    if txs.len() == 0 {
        Seq::empty()
    } else {
        txs[0].0 + seq![end_record(txs[0].1)] + transactions_log(txs.drop_first())
    }
}

/// The dataset after the committed transactions of `txs`, in order.
pub open spec fn apply_committed<K, V>(m: Map<K, V>, txs: Seq<(Seq<LogRecord<K, V>>, bool)>) -> Map<
    K,
    V,
>
    decreases txs.len(),
{
    if txs.len() == 0 {
        m
    } else {
        let next = if txs[0].1 {
            apply_records(m, txs[0].0)
        } else {
            m
        };
        apply_committed(next, txs.drop_first())
    }
}

proof fn lemma_stage_all<K, V>(
    m: Map<K, V>,
    q: Seq<LogRecord<K, V>>,
    ops: Seq<LogRecord<K, V>>,
    rest: Seq<LogRecord<K, V>>,
)
    requires
        no_boundary(ops),
    ensures
        replay_from(m, q, ops + rest) == replay_from(m, q + ops, rest),
    decreases ops.len(),
{
    if ops.len() == 0 {
        assert(ops + rest =~= rest);
        assert(q + ops =~= q);
    } else {
        let o2 = ops.drop_first();
        assert(!ops[0].is_boundary());
        assert((ops + rest)[0] == ops[0]);
        assert((ops + rest).drop_first() =~= o2 + rest);
        assert(no_boundary(o2)) by {
            assert forall|i: int| 0 <= i < o2.len() implies !(#[trigger] o2[i]).is_boundary() by {
                assert(o2[i] == ops[i + 1]);
            }
        }
        lemma_stage_all(m, q.push(ops[0]), o2, rest);
        assert(q.push(ops[0]) + o2 =~= q + ops);
    }
}

/// For any run of transactions, each ended by a commit or an abort, the
/// dataset recovered from their log is the one reached by applying, in
/// order, the mutations of the committed transactions only.
pub proof fn lemma_committed_transactions<K, V>(
    m: Map<K, V>,
    txs: Seq<(Seq<LogRecord<K, V>>, bool)>,
)
    requires
        forall|i: int| 0 <= i < txs.len() ==> no_boundary(#[trigger] txs[i].0),
    ensures
        replay(m, transactions_log(txs)) == apply_committed(m, txs),
    decreases txs.len(),
{
    if txs.len() == 0 {
        assert(replay(m, Seq::<LogRecord<K, V>>::empty()) == m);
    } else {
        let ops = txs[0].0;
        let end = end_record::<K, V>(txs[0].1);
        let tail = transactions_log(txs.drop_first());
        let e = Seq::<LogRecord<K, V>>::empty();
        assert(no_boundary(ops));
        assert(ops + seq![end] + tail =~= ops + (seq![end] + tail));
        lemma_stage_all(m, e, ops, seq![end] + tail);
        assert(e + ops =~= ops);
        assert((seq![end] + tail)[0] == end);
        assert((seq![end] + tail).drop_first() =~= tail);
        let next = if txs[0].1 {
            apply_records(m, ops)
        } else {
            m
        };
        assert forall|i: int| 0 <= i < txs.drop_first().len() implies no_boundary(
            #[trigger] txs.drop_first()[i].0,
        ) by {
            assert(txs.drop_first()[i] == txs[i + 1]);
        }
        lemma_committed_transactions(next, txs.drop_first());
    }
}

proof fn lemma_frames_split_last(bodies: Seq<Seq<u8>>)
    requires
        bodies.len() > 0,
    ensures
        frames_of(bodies) == frames_of(bodies.drop_last()) + frame_of(bodies.last()),
    decreases bodies.len(),
{
    if bodies.len() == 1 {
        assert(bodies.drop_last() =~= Seq::<Seq<u8>>::empty());
        assert(frames_of(bodies.drop_first()) == Seq::<u8>::empty());
        assert(frames_of(bodies) =~= frames_of(bodies.drop_last()) + frame_of(bodies.last()));
    } else {
        let t = bodies.drop_first();
        lemma_frames_split_last(t);
        assert(t.drop_last() =~= bodies.drop_last().drop_first());
        assert(bodies.drop_last()[0] == bodies[0]);
        assert(t.last() == bodies.last());
        assert(frames_of(bodies) =~= frames_of(bodies.drop_last()) + frame_of(bodies.last()));
    }
}

/// A torn tail does not change what is recovered: where the log holds the
/// frames of `bodies`, whose records are `records`, and the last record is
/// not a `Commit`, cutting between 1 and 39 bytes off the end of the log
/// leaves every frame but the last readable, and replaying the records read
/// gives the same dataset as replaying them all.
pub proof fn lemma_torn_tail_recovery<K, V>(
    m: Map<K, V>,
    bodies: Seq<Seq<u8>>,
    records: Seq<LogRecord<K, V>>,
    cut: nat,
)
    requires
        framable(bodies),
        bodies.len() > 0,
        records.len() == bodies.len(),
        !(records.last() is Commit),
        1 <= cut < 40,
    ensures
        ({
            let log = frames_of(bodies);
            let read = parse_frames(log.take(log.len() - cut));
            &&& read == bodies.drop_last()
            &&& replay(m, records.take(read.len() as int)) == replay(m, records)
        }),
{
    let log = frames_of(bodies);
    let last = bodies.last();
    let front = bodies.drop_last();
    lemma_frames_split_last(bodies);
    assert(framable(front)) by {
        assert forall|i: int| 0 <= i < front.len() implies crate::frame::framable_body(
            #[trigger] front[i],
        ) by {
            assert(front[i] == bodies[i]);
        }
    }
    assert(crate::frame::framable_body(bodies[bodies.len() - 1]));
    let keep = (frame_of(last).len() - cut) as nat;
    assert(log.take(log.len() - cut) =~= frames_of(front) + frame_of(last).take(keep as int));
    lemma_torn_tail(front, last, keep);
    assert(records.take(front.len() as int) =~= records.drop_last());
    lemma_drop_last_record(m, records);
}

proof fn lemma_replay_split<K, V>(
    m: Map<K, V>,
    q: Seq<LogRecord<K, V>>,
    a: Seq<LogRecord<K, V>>,
    b: Seq<LogRecord<K, V>>,
)
    requires
        a.len() > 0,
        a.last().is_boundary(),
    ensures
        replay_from(m, q, a + b) == replay_from(replay_from(m, q, a), Seq::empty(), b),
    decreases a.len(),
{
    let a2 = a.drop_first();
    assert((a + b)[0] == a[0]);
    assert((a + b).drop_first() =~= a2 + b);
    let m2 = match a[0] {
        LogRecord::Commit => apply_records(m, q),
        _ => m,
    };
    if a2.len() == 0 {
        assert(a[0] == a.last());
        assert(a2 + b =~= b);
        assert(replay_from(m2, Seq::empty(), a2) == m2);
    } else {
        assert(a2.last() == a.last());
        match a[0] {
            LogRecord::Commit => lemma_replay_split(m2, Seq::empty(), a2, b),
            LogRecord::Abort => lemma_replay_split(m, Seq::empty(), a2, b),
            _ => lemma_replay_split(m, q.push(a[0]), a2, b),
        }
    }
}

/// Appending to a log that ends at a boundary the records of one more
/// transaction and its boundary: a `Commit` applies the records to the
/// recovered dataset, an `Abort` leaves it as it was.
pub proof fn lemma_replay_group<K, V>(
    m: Map<K, V>,
    log: Seq<LogRecord<K, V>>,
    ops: Seq<LogRecord<K, V>>,
    committed: bool,
)
    requires
        log.len() > 0 ==> log.last().is_boundary(),
        no_boundary(ops),
    ensures
        replay(m, log + ops + seq![end_record(committed)]) == if committed {
            apply_records(replay(m, log), ops)
        } else {
            replay(m, log)
        },
{
    let e = Seq::<LogRecord<K, V>>::empty();
    let end = seq![end_record::<K, V>(committed)];
    let r = replay(m, log);
    assert(log + ops + end =~= log + (ops + end));
    if log.len() > 0 {
        lemma_replay_split(m, e, log, ops + end);
    } else {
        assert(log + (ops + end) =~= ops + end);
    }
    lemma_stage_all(r, e, ops, end);
    assert(e + ops =~= ops);
    assert(end.drop_first() =~= e);
    assert(replay_from(apply_records(r, ops), e, e) == apply_records(r, ops));
    assert(replay_from(r, e, e) == r);
}

} // verus!
