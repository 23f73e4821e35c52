//! Framing of log records on disk: `SHA-256(body) || u64_le(len) || body`.
use sha2::Digest;
use vstd::prelude::*;

verus! {

/// Size of the digest that opens each frame.
pub const HASH_LEN: usize = 32;

/// Size of the digest and the length field together.
pub const HEADER_LEN: usize = 40;

/// The SHA-256 digest of a byte string.
pub uninterp spec fn sha256_of(data: Seq<u8>) -> Seq<u8>;

/// Relies on sha2::Sha256::digest: the 32-byte SHA-256 digest of the input,
/// a function of the input alone.
#[verifier::external_body]
fn sha256(data: &[u8]) -> (r: Vec<u8>)
    ensures
        r@ == sha256_of(data@),
        r@.len() == HASH_LEN,
{
    sha2::Sha256::digest(data).to_vec()
}

/// The eight little-endian bytes of `n`.
pub open spec fn le_bytes(n: u64) -> Seq<u8> {
    seq![
        (n & 0xff) as u8,
        ((n >> 8u64) & 0xff) as u8,
        ((n >> 16u64) & 0xff) as u8,
        ((n >> 24u64) & 0xff) as u8,
        ((n >> 32u64) & 0xff) as u8,
        ((n >> 40u64) & 0xff) as u8,
        ((n >> 48u64) & 0xff) as u8,
        ((n >> 56u64) & 0xff) as u8,
    ]
}

/// The number whose little-endian bytes are the first eight of `s`.
pub open spec fn le_value(s: Seq<u8>) -> u64
    recommends
        s.len() >= 8,
{
    (s[0] as u64) | ((s[1] as u64) << 8u64) | ((s[2] as u64) << 16u64) | ((s[3] as u64) << 24u64)
        | ((s[4] as u64) << 32u64) | ((s[5] as u64) << 40u64) | ((s[6] as u64) << 48u64) | ((
    s[7] as u64) << 56u64)
}

/// Reading back the little-endian bytes of a number gives the number.
pub proof fn lemma_le_round_trip(n: u64)
    ensures
        le_value(le_bytes(n)) == n,
{
    let b0 = n & 0xff;
    let b1 = (n >> 8u64) & 0xff;
    let b2 = (n >> 16u64) & 0xff;
    let b3 = (n >> 24u64) & 0xff;
    let b4 = (n >> 32u64) & 0xff;
    let b5 = (n >> 40u64) & 0xff;
    let b6 = (n >> 48u64) & 0xff;
    let b7 = (n >> 56u64) & 0xff;
    assert(b0 <= 0xff && b1 <= 0xff && b2 <= 0xff && b3 <= 0xff) by (bit_vector)
        requires
            b0 == n & 0xff,
            b1 == (n >> 8u64) & 0xff,
            b2 == (n >> 16u64) & 0xff,
            b3 == (n >> 24u64) & 0xff,
    ;
    assert(b4 <= 0xff && b5 <= 0xff && b6 <= 0xff && b7 <= 0xff) by (bit_vector)
        requires
            b4 == (n >> 32u64) & 0xff,
            b5 == (n >> 40u64) & 0xff,
            b6 == (n >> 48u64) & 0xff,
            b7 == (n >> 56u64) & 0xff,
    ;
    assert(b0 | (b1 << 8u64) | (b2 << 16u64) | (b3 << 24u64) | (b4 << 32u64) | (b5 << 40u64) | (b6
        << 48u64) | (b7 << 56u64) == n) by (bit_vector)
        requires
            b0 == n & 0xff,
            b1 == (n >> 8u64) & 0xff,
            b2 == (n >> 16u64) & 0xff,
            b3 == (n >> 24u64) & 0xff,
            b4 == (n >> 32u64) & 0xff,
            b5 == (n >> 40u64) & 0xff,
            b6 == (n >> 48u64) & 0xff,
            b7 == (n >> 56u64) & 0xff,
    ;
}

fn write_u64_le(out: &mut Vec<u8>, n: u64)
    ensures
        final(out)@ == old(out)@ + le_bytes(n),
{
    out.push((n & 0xff) as u8);
    out.push(((n >> 8u64) & 0xff) as u8);
    out.push(((n >> 16u64) & 0xff) as u8);
    out.push(((n >> 24u64) & 0xff) as u8);
    out.push(((n >> 32u64) & 0xff) as u8);
    out.push(((n >> 40u64) & 0xff) as u8);
    out.push(((n >> 48u64) & 0xff) as u8);
    out.push(((n >> 56u64) & 0xff) as u8);
    assert(final(out)@ =~= old(out)@ + le_bytes(n));
}

fn read_u64_le(s: &[u8], at: usize) -> (r: u64)
    requires
        at + 8 <= s@.len(),
    ensures
        r == le_value(s@.subrange(at as int, at + 8)),
{
    let ghost w = s@.subrange(at as int, at + 8);
    assert(w[0] == s@[at as int] && w[7] == s@[at + 7]);
    (s[at] as u64) | ((s[at + 1] as u64) << 8u64) | ((s[at + 2] as u64) << 16u64) | ((s[at
        + 3] as u64) << 24u64) | ((s[at + 4] as u64) << 32u64) | ((s[at + 5] as u64) << 40u64)
        | ((s[at + 6] as u64) << 48u64) | ((s[at + 7] as u64) << 56u64)
}

/// The frame that holds `body`.
pub open spec fn frame_of(body: Seq<u8>) -> Seq<u8> {
    sha256_of(body) + le_bytes(body.len() as u64) + body
}

/// The frames of `bodies`, one after another.
pub open spec fn frames_of(bodies: Seq<Seq<u8>>) -> Seq<u8>
    decreases bodies.len(),
{
    if bodies.len() == 0 {
        Seq::empty()
    } else {
        frame_of(bodies[0]) + frames_of(bodies.drop_first())
    }
}

/// The bodies of the longest prefix of `bytes` that is made of whole frames
/// whose digest matches their body. Reading stops at the first frame that is
/// cut short or whose digest does not match.
pub open spec fn parse_frames(bytes: Seq<u8>) -> Seq<Seq<u8>>
    decreases bytes.len(),
{
    if bytes.len() < HEADER_LEN {
        Seq::empty()
    } else {
        let len = le_value(bytes.subrange(HASH_LEN as int, HEADER_LEN as int)) as int;
        if bytes.len() - HEADER_LEN < len {
            Seq::empty()
        } else {
            let body = bytes.subrange(HEADER_LEN as int, HEADER_LEN + len);
            if sha256_of(body) != bytes.subrange(0, HASH_LEN as int) {
                Seq::empty()
            } else {
                seq![body] + parse_frames(bytes.subrange(HEADER_LEN + len, bytes.len() as int))
            }
        }
    }
}

/// Appends the frame of `body` to `out`.
pub fn append_frame(out: &mut Vec<u8>, body: &[u8])
    ensures
        final(out)@ == old(out)@ + frame_of(body@),
{
    let hash = sha256(body);
    let mut i: usize = 0;
    while i < hash.len()
        invariant
            0 <= i <= hash@.len(),
            out@ == old(out)@ + hash@.subrange(0, i as int),
        decreases hash@.len() - i,
    {
        out.push(hash[i]);
        i = i + 1;
        assert(out@ =~= old(out)@ + hash@.subrange(0, i as int));
    }
    assert(hash@.subrange(0, hash@.len() as int) =~= hash@);
    write_u64_le(out, body.len() as u64);
    let ghost mid = out@;
    let mut j: usize = 0;
    while j < body.len()
        invariant
            0 <= j <= body@.len(),
            out@ == mid + body@.subrange(0, j as int),
        decreases body@.len() - j,
    {
        out.push(body[j]);
        j = j + 1;
        assert(out@ =~= mid + body@.subrange(0, j as int));
    }
    assert(body@.subrange(0, body@.len() as int) =~= body@);
    assert(out@ =~= old(out)@ + frame_of(body@));
}

/// The frame of `body`: its SHA-256 digest, its length as eight
/// little-endian bytes, and the body itself.
pub fn encode_frame(body: &[u8]) -> (r: Vec<u8>)
    ensures
        r@ == frame_of(body@),
{
    let mut out: Vec<u8> = Vec::new();
    append_frame(&mut out, body);
    assert(out@ =~= frame_of(body@));
    out
}

fn copy_range(s: &[u8], from: usize, to: usize) -> (r: Vec<u8>)
    requires
        from <= to <= s@.len(),
    ensures
        r@ == s@.subrange(from as int, to as int),
{
    let mut out: Vec<u8> = Vec::new();
    let mut i: usize = from;
    while i < to
        invariant
            from <= i <= to <= s@.len(),
            out@ == s@.subrange(from as int, i as int),
        decreases to - i,
    {
        out.push(s[i]);
        i = i + 1;
        assert(out@ =~= s@.subrange(from as int, i as int));
    }
    out
}

fn range_equals(s: &[u8], from: usize, t: &Vec<u8>) -> (r: bool)
    requires
        from + t@.len() <= s@.len(),
    ensures
        r == (s@.subrange(from as int, from + t@.len()) == t@),
{
    let sl = s.len();
    let mut i: usize = 0;
    while i < t.len()
        invariant
            sl == s@.len(),
            from + t@.len() <= s@.len(),
            0 <= i <= t@.len(),
            forall|k: int| 0 <= k < i ==> s@[from + k] == t@[k],
        decreases t@.len() - i,
    {
        assert(from + i < s@.len());
        if s[from + i] != t[i] {
            assert(s@.subrange(from as int, from + t@.len())[i as int] != t@[i as int]);
            return false;
        }
        i = i + 1;
    }
    assert(s@.subrange(from as int, from + t@.len()) =~= t@);
    true
}

/// The views of a list of byte vectors.
pub open spec fn views_of(v: Seq<Vec<u8>>) -> Seq<Seq<u8>> {
    v.map_values(|b: Vec<u8>| b@)
}

/// Splits a log image into the bodies of its valid frames, from the start,
/// stopping at the first torn or corrupt frame.
pub fn decode_frames(bytes: &[u8]) -> (r: Vec<Vec<u8>>)
    ensures
        views_of(r@) == parse_frames(bytes@),
{
    let mut out: Vec<Vec<u8>> = Vec::new();
    let mut pos: usize = 0;
    let n = bytes.len();
    assert(bytes@.subrange(0, n as int) =~= bytes@);
    assert(views_of(out@) =~= Seq::<Seq<u8>>::empty());
    assert(views_of(out@) + parse_frames(bytes@) =~= parse_frames(bytes@));
    loop
        invariant
            n == bytes@.len(),
            pos <= n,
            views_of(out@) + parse_frames(bytes@.subrange(pos as int, n as int)) == parse_frames(
                bytes@,
            ),
        decreases n - pos,
    {
        let ghost rest = bytes@.subrange(pos as int, n as int);
        if n - pos < HEADER_LEN {
            assert(parse_frames(rest) == Seq::<Seq<u8>>::empty());
            assert(views_of(out@) + parse_frames(rest) =~= views_of(out@));
            return out;
        }
        let len64 = read_u64_le(bytes, pos + HASH_LEN);
        assert(rest.subrange(HASH_LEN as int, HEADER_LEN as int) =~= bytes@.subrange(
            pos + HASH_LEN,
            pos + HEADER_LEN,
        ));
        if len64 > (n - pos - HEADER_LEN) as u64 {
            assert(parse_frames(rest) == Seq::<Seq<u8>>::empty());
            assert(views_of(out@) + parse_frames(rest) =~= views_of(out@));
            return out;
        }
        let len = len64 as usize;
        let start = pos + HEADER_LEN;
        let body = copy_range(bytes, start, start + len);
        assert(body@ =~= rest.subrange(HEADER_LEN as int, HEADER_LEN + len));
        let hash = sha256(body.as_slice());
        let ok = range_equals(bytes, pos, &hash);
        assert(rest.subrange(0, HASH_LEN as int) =~= bytes@.subrange(pos as int, pos + HASH_LEN));
        if !ok {
            assert(parse_frames(rest) == Seq::<Seq<u8>>::empty());
            assert(views_of(out@) + parse_frames(rest) =~= views_of(out@));
            return out;
        }
        let ghost before = out@;
        out.push(body);
        let next = start + len;
        assert(rest.subrange(HEADER_LEN + len, rest.len() as int) =~= bytes@.subrange(
            next as int,
            n as int,
        ));
        assert(views_of(out@) =~= views_of(before) + seq![body@]);
        assert(parse_frames(rest) == seq![body@] + parse_frames(
            bytes@.subrange(next as int, n as int),
        ));
        assert(views_of(out@) + parse_frames(bytes@.subrange(next as int, n as int)) =~= views_of(
            before,
        ) + parse_frames(rest));
        pos = next;
    }
}

/// A body that a frame can hold: its length fits the length field, and its
/// digest has the width of the digest field (as every SHA-256 digest has).
pub open spec fn framable_body(body: Seq<u8>) -> bool {
    &&& body.len() <= u64::MAX
    &&& sha256_of(body).len() == HASH_LEN
}

/// Every body of the list can be framed.
pub open spec fn framable(bodies: Seq<Seq<u8>>) -> bool {
    forall|i: int| 0 <= i < bodies.len() ==> framable_body(#[trigger] bodies[i])
}

proof fn lemma_framable_tail(bodies: Seq<Seq<u8>>)
    requires
        framable(bodies),
        bodies.len() > 0,
    ensures
        framable_body(bodies[0]),
        framable(bodies.drop_first()),
{
    let tail = bodies.drop_first();
    assert forall|i: int| 0 <= i < tail.len() implies framable_body(#[trigger] tail[i]) by {
        assert(tail[i] == bodies[i + 1]);
    }
}

/// A whole frame in front of any bytes is read back as its body, and reading
/// then goes on with the bytes behind it.
pub proof fn lemma_parse_frame_then(body: Seq<u8>, rest: Seq<u8>)
    requires
        framable_body(body),
    ensures
        parse_frames(frame_of(body) + rest) == seq![body] + parse_frames(rest),
{
    let bytes = frame_of(body) + rest;
    let n = body.len() as u64;
    lemma_le_round_trip(n);
    assert(bytes.subrange(HASH_LEN as int, HEADER_LEN as int) =~= le_bytes(n));
    assert(bytes.subrange(HEADER_LEN as int, HEADER_LEN + body.len()) =~= body);
    assert(bytes.subrange(0, HASH_LEN as int) =~= sha256_of(body));
    assert(bytes.subrange(HEADER_LEN + body.len(), bytes.len() as int) =~= rest);
}

/// Reading back the frames of a list of bodies gives the list.
pub proof fn lemma_frames_round_trip(bodies: Seq<Seq<u8>>)
    requires
        framable(bodies),
    ensures
        parse_frames(frames_of(bodies)) == bodies,
    decreases bodies.len(),
{
    if bodies.len() == 0 {
        assert(parse_frames(Seq::empty()) == Seq::<Seq<u8>>::empty());
    } else {
        let tail = bodies.drop_first();
        lemma_framable_tail(bodies);
        lemma_frames_round_trip(tail);
        lemma_parse_frame_then(bodies[0], frames_of(tail));
        assert(bodies =~= seq![bodies[0]] + tail);
    }
}

/// A frame cut short anywhere, header or body, yields no body.
pub proof fn lemma_torn_frame(body: Seq<u8>, cut: nat)
    requires
        framable_body(body),
        cut < frame_of(body).len(),
    ensures
        parse_frames(frame_of(body).take(cut as int)) == Seq::<Seq<u8>>::empty(),
{
    let bytes = frame_of(body).take(cut as int);
    if bytes.len() >= HEADER_LEN {
        let n = body.len() as u64;
        lemma_le_round_trip(n);
        assert(bytes.subrange(HASH_LEN as int, HEADER_LEN as int) =~= le_bytes(n));
        assert(bytes.len() - HEADER_LEN < n);
    }
}

/// After whole frames, a frame cut short is dropped: reading gives the
/// bodies of the whole frames only.
pub proof fn lemma_torn_tail(bodies: Seq<Seq<u8>>, last: Seq<u8>, cut: nat)
    requires
        framable(bodies),
        framable_body(last),
        cut < frame_of(last).len(),
    ensures
        parse_frames(frames_of(bodies) + frame_of(last).take(cut as int)) == bodies,
    decreases bodies.len(),
{
    let torn = frame_of(last).take(cut as int);
    if bodies.len() == 0 {
        lemma_torn_frame(last, cut);
        assert(frames_of(bodies) + torn =~= torn);
    } else {
        let tail = bodies.drop_first();
        lemma_framable_tail(bodies);
        lemma_torn_tail(tail, last, cut);
        assert(frames_of(bodies) + torn =~= frame_of(bodies[0]) + (frames_of(tail) + torn));
        lemma_parse_frame_then(bodies[0], frames_of(tail) + torn);
        assert(bodies =~= seq![bodies[0]] + tail);
    }
}

} // verus!
