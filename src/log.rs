//! Records of the write-ahead log.
use vstd::prelude::*;

verus! {

/// One entry of the write-ahead log.
///
/// `Create`, `Update` and `Delete` are mutations staged by a transaction;
/// `Read` is kept for auditing and carries no meaning for recovery; `Commit`
/// makes durable everything staged since the previous boundary (or the start
/// of the log), and `Abort` discards it.
#[derive(Debug, PartialEq)]
pub enum LogRecord<K, V> {
    Create { key: K, value: V },
    Read { key: K },
    Update { key: K, value: V },
    Delete { key: K },
    Commit,
    Abort,
}

impl<K, V> LogRecord<K, V> {
    /// A `Commit` or an `Abort`.
    pub open spec fn is_boundary(self) -> bool {
        self is Commit || self is Abort
    }

    /// Whether this record is a `Commit` or an `Abort`.
    pub fn boundary(&self) -> (r: bool)
        ensures
            r == self.is_boundary(),
    {
        match self {
            LogRecord::Commit => true,
            LogRecord::Abort => true,
            _ => false,
        }
    }
}

/// No record of `rs` is a `Commit` or an `Abort`.
pub open spec fn no_boundary<K, V>(rs: Seq<LogRecord<K, V>>) -> bool {
    forall|i: int| 0 <= i < rs.len() ==> !(#[trigger] rs[i]).is_boundary()
}

/// No record of `rs` is a `Commit`.
pub open spec fn no_commit<K, V>(rs: Seq<LogRecord<K, V>>) -> bool {
    forall|i: int| 0 <= i < rs.len() ==> !((#[trigger] rs[i]) is Commit)
}

/// `r` is the run of decoded records at the front of `decoded`, up to the
/// first body that did not decode.
pub open spec fn is_decoded_prefix<K, V>(
    decoded: Seq<Option<LogRecord<K, V>>>,
    r: Seq<LogRecord<K, V>>,
) -> bool {
    &&& r.len() <= decoded.len()
    &&& forall|j: int| 0 <= j < r.len() ==> #[trigger] decoded[j] == Some(r[j])
    &&& r.len() < decoded.len() ==> decoded[r.len() as int] is None
}

/// The records of the log up to the first body that could not be decoded:
/// a body that does not decode ends the valid prefix, as a torn frame does.
pub fn decoded_prefix<K, V>(decoded: Vec<Option<LogRecord<K, V>>>) -> (r: Vec<LogRecord<K, V>>)
    ensures
        is_decoded_prefix(decoded@, r@),
{
    let ghost all = decoded@;
    let mut decoded = decoded;
    let mut n: usize = 0;
    while n < decoded.len() && decoded[n].is_some()
        invariant
            decoded@ == all,
            n <= all.len(),
            forall|j: int| 0 <= j < n ==> (#[trigger] all[j]) is Some,
        decreases all.len() - n,
    {
        n = n + 1;
    }
    decoded.truncate(n);
    let mut out: Vec<LogRecord<K, V>> = Vec::new();
    while decoded.len() > 0
        invariant
            n <= all.len(),
            decoded@.len() + out@.len() == n,
            forall|j: int| 0 <= j < n ==> (#[trigger] all[j]) is Some,
            forall|j: int| 0 <= j < decoded@.len() ==> #[trigger] decoded@[j] == all[j],
            forall|j: int| 0 <= j < out@.len() ==> all[decoded@.len() + j] == Some(#[trigger] out@[j]),
        decreases decoded@.len(),
    {
        let ghost before = out@;
        let ghost at = decoded@.len() - 1;
        let x = decoded.pop().unwrap();
        assert(x == all[at]);
        match x {
            Some(rec) => {
                out.insert(0, rec);
                assert forall|j: int| 0 <= j < out@.len() implies all[decoded@.len() + j] == Some(
                    #[trigger] out@[j],
                ) by {
                    if j > 0 {
                        assert(out@[j] == before[j - 1]);
                    }
                }
            },
            None => {},
        }
    }
    out
}

} // verus!
