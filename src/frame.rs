//! Record framing inside a segment: a 4-byte little-endian length prefix
//! followed by the payload bytes, and the scanner that reads such records back.
use vstd::prelude::*;

verus! {

/// Width in bytes of the length prefix of every record.
pub const PREFIX_LEN: usize = 4;

/// The four little-endian bytes of `n`.
pub open spec fn le_bytes(n: u32) -> Seq<u8> {
    seq![
        (n & 0xff) as u8,
        ((n >> 8u32) & 0xff) as u8,
        ((n >> 16u32) & 0xff) as u8,
        ((n >> 24u32) & 0xff) as u8,
    ]
}

/// The number that four bytes spell in little-endian order.
pub open spec fn le_value(b0: u8, b1: u8, b2: u8, b3: u8) -> u32 {
    (b0 as u32) | ((b1 as u32) << 8u32) | ((b2 as u32) << 16u32) | ((b3 as u32) << 24u32)
}

/// The declared length at the start of `b` (which holds at least four bytes).
pub open spec fn prefix_value(b: Seq<u8>) -> u32 {
    le_value(b[0], b[1], b[2], b[3])
}

/// The framed form of one payload.
pub open spec fn frame(p: Seq<u8>) -> Seq<u8> {
    le_bytes(p.len() as u32) + p
}

/// Payloads that a single record can carry.
pub open spec fn frameable(p: Seq<u8>) -> bool {
    p.len() <= u32::MAX
}

pub open spec fn all_frameable(ps: Seq<Seq<u8>>) -> bool {
    forall|i: int| 0 <= i < ps.len() ==> frameable(#[trigger] ps[i])
}

/// The records of `ps`, one after another.
pub open spec fn frames(ps: Seq<Seq<u8>>) -> Seq<u8>
    decreases ps.len(),
{
    if ps.len() == 0 {
        Seq::empty()
    } else {
        frames(ps.drop_last()) + frame(ps.last())
    }
}

/// What a scan of `b` finds: the intact records from the start, and whether
/// the bytes end in a torn record (a prefix cut short, or a declared length
/// larger than what follows it).
pub open spec fn scan(b: Seq<u8>) -> (Seq<Seq<u8>>, bool)
    decreases b.len(),
{
    if b.len() == 0 {
        (Seq::empty(), false)
    } else if b.len() < 4 {
        (Seq::empty(), true)
    } else {
        let n = prefix_value(b) as int;
        if b.len() - 4 < n {
            (Seq::empty(), true)
        } else {
            let rest = scan(b.subrange(4 + n, b.len() as int));
            (seq![b.subrange(4, 4 + n)] + rest.0, rest.1)
        }
    }
}

/// The byte contents of a sequence of vectors.
pub open spec fn views(v: Seq<Vec<u8>>) -> Seq<Seq<u8>> {
    v.map_values(|x: Vec<u8>| x@)
}

pub proof fn lemma_le_round_trip(n: u32)
    ensures
        le_value(le_bytes(n)[0], le_bytes(n)[1], le_bytes(n)[2], le_bytes(n)[3]) == n,
{
    let b0 = (n & 0xff) as u8;
    let b1 = ((n >> 8u32) & 0xff) as u8;
    let b2 = ((n >> 16u32) & 0xff) as u8;
    let b3 = ((n >> 24u32) & 0xff) as u8;
    assert(((b0 as u32) | ((b1 as u32) << 8u32) | ((b2 as u32) << 16u32) | ((b3 as u32)
        << 24u32)) == n) by (bit_vector)
        requires
            b0 == (n & 0xff) as u8,
            b1 == ((n >> 8u32) & 0xff) as u8,
            b2 == ((n >> 16u32) & 0xff) as u8,
            b3 == ((n >> 24u32) & 0xff) as u8,
    ;
}

pub proof fn lemma_bytes_round_trip(b: Seq<u8>)
    requires
        b.len() == 4,
    ensures
        le_bytes(prefix_value(b)) == b,
{
    let (b0, b1, b2, b3) = (b[0], b[1], b[2], b[3]);
    let n = le_value(b0, b1, b2, b3);
    assert((n & 0xff) as u8 == b0 && ((n >> 8u32) & 0xff) as u8 == b1 && ((n >> 16u32) & 0xff) as u8
        == b2 && ((n >> 24u32) & 0xff) as u8 == b3) by (bit_vector)
        requires
            n == (b0 as u32) | ((b1 as u32) << 8u32) | ((b2 as u32) << 16u32) | ((b3 as u32)
                << 24u32),
    ;
    assert(le_bytes(n) =~= b);
}

/// A framed record starts with its payload's length.
pub proof fn lemma_frame_prefix(p: Seq<u8>)
    requires
        frameable(p),
    ensures
        frame(p).len() == p.len() + 4,
        prefix_value(frame(p)) == p.len(),
        frame(p).subrange(4, frame(p).len() as int) == p,
{
    lemma_le_round_trip(p.len() as u32);
    assert(frame(p).subrange(4, frame(p).len() as int) =~= p);
}

pub proof fn lemma_frames_push(ps: Seq<Seq<u8>>, p: Seq<u8>)
    ensures
        frames(ps.push(p)) == frames(ps) + frame(p),
{
    assert(ps.push(p).drop_last() =~= ps);
}

pub proof fn lemma_frames_append(ps: Seq<Seq<u8>>, qs: Seq<Seq<u8>>)
    ensures
        frames(ps + qs) == frames(ps) + frames(qs),
    decreases qs.len(),
{
    if qs.len() == 0 {
        assert(ps + qs =~= ps);
        assert(frames(ps) + frames(qs) =~= frames(ps));
    } else {
        let q = qs.last();
        let init = qs.drop_last();
        assert(ps + qs =~= (ps + init).push(q));
        lemma_frames_push(ps + init, q);
        lemma_frames_append(ps, init);
        lemma_frames_push(init, q);
        assert(qs =~= init.push(q));
        assert(frames(ps) + frames(init) + frame(q) =~= frames(ps) + (frames(init) + frame(q)));
    }
}

/// Scanning a record followed by more bytes reads that record, then the rest.
pub proof fn lemma_scan_frame_then(p: Seq<u8>, rest: Seq<u8>)
    requires
        frameable(p),
    ensures
        scan(frame(p) + rest) == (seq![p] + scan(rest).0, scan(rest).1),
{
    let b = frame(p) + rest;
    lemma_frame_prefix(p);
    assert(b.subrange(0, 4) =~= frame(p).subrange(0, 4));
    assert(b.subrange(4, 4 + p.len() as int) =~= p);
    assert(b.subrange(4 + p.len() as int, b.len() as int) =~= rest);
}

/// Scanning the records of `ps` followed by `tail` reads back `ps`, then
/// whatever `tail` holds.
pub proof fn lemma_scan_frames_then(ps: Seq<Seq<u8>>, tail: Seq<u8>)
    requires
        all_frameable(ps),
    ensures
        scan(frames(ps) + tail) == (ps + scan(tail).0, scan(tail).1),
    decreases ps.len(),
{
    if ps.len() == 0 {
        assert(frames(ps) + tail =~= tail);
        assert(ps + scan(tail).0 =~= scan(tail).0);
    } else {
        let first = ps[0];
        let others = ps.drop_first();
        assert(ps =~= seq![first] + others);
        lemma_frames_append(seq![first], others);
        assert(seq![first].drop_last() =~= Seq::<Seq<u8>>::empty());
        assert(frames(Seq::<Seq<u8>>::empty()) == Seq::<u8>::empty());
        assert(seq![first].last() == first);
        assert(frames(seq![first]) =~= frame(first));
        assert(frames(ps) + tail =~= frame(first) + (frames(others) + tail));
        assert(frameable(ps[0]));
        lemma_scan_frame_then(first, frames(others) + tail);
        lemma_scan_frames_then(others, tail);
        assert(seq![first] + (others + scan(tail).0) =~= ps + scan(tail).0);
    }
}

/// Records written one after another are read back exactly, with no torn tail.
pub proof fn lemma_scan_frames(ps: Seq<Seq<u8>>)
    requires
        all_frameable(ps),
    ensures
        scan(frames(ps)) == (ps, false),
{
    lemma_scan_frames_then(ps, Seq::empty());
    assert(frames(ps) + Seq::<u8>::empty() =~= frames(ps));
    assert(ps + Seq::<Seq<u8>>::empty() =~= ps);
}

/// A record whose declared length runs past the end of the bytes is torn:
/// the scan keeps every record before it and reports the tear.
pub proof fn lemma_scan_torn_tail(ps: Seq<Seq<u8>>, declared: u32, partial: Seq<u8>)
    requires
        all_frameable(ps),
        partial.len() < declared,
    ensures
        scan(frames(ps) + (le_bytes(declared) + partial)) == (ps, true),
{
    let t = le_bytes(declared) + partial;
    lemma_scan_frames_then(ps, t);
    lemma_le_round_trip(declared);
    assert(t.subrange(0, 4) =~= le_bytes(declared));
    assert(ps + Seq::<Seq<u8>>::empty() =~= ps);
}

/// The framed record of `payload`.
pub fn encode_record(payload: &[u8]) -> (r: Vec<u8>)
    requires
        frameable(payload@),
    ensures
        r@ == frame(payload@),
{
    let n = payload.len() as u32;
    let mut out: Vec<u8> = Vec::new();
    out.push((n & 0xff) as u8);
    out.push(((n >> 8u32) & 0xff) as u8);
    out.push(((n >> 16u32) & 0xff) as u8);
    out.push(((n >> 24u32) & 0xff) as u8);
    let mut i: usize = 0;
    while i < payload.len()
        invariant
            i <= payload.len(),
            n == payload@.len(),
            out@ == le_bytes(n) + payload@.subrange(0, i as int),
        decreases payload.len() - i,
    {
        out.push(payload[i]);
        i = i + 1;
        assert(out@ =~= le_bytes(n) + payload@.subrange(0, i as int));
    }
    assert(payload@.subrange(0, i as int) =~= payload@);
    out
}

/// A copy of `bytes[start..end]`.
pub fn copy_range(bytes: &[u8], start: usize, end: usize) -> (r: Vec<u8>)
    requires
        start <= end <= bytes.len(),
    ensures
        r@ == bytes@.subrange(start as int, end as int),
{
    let mut out: Vec<u8> = Vec::new();
    let mut i: usize = start;
    while i < end
        invariant
            start <= i <= end <= bytes.len(),
            out@ == bytes@.subrange(start as int, i as int),
        decreases end - i,
    {
        out.push(bytes[i]);
        i = i + 1;
        assert(out@ =~= bytes@.subrange(start as int, i as int));
    }
    out
}

/// What a scan of one segment's bytes found.
pub struct SegmentScan {
    /// The payloads of the intact records, in file order.
    pub payloads: Vec<Vec<u8>>,
    /// How many bytes from the start the intact records fill: the offset at
    /// which a torn tail, if any, begins.
    pub intact_len: usize,
    /// Whether the bytes end in a torn record.
    pub torn: bool,
}

/// Reads the records of one segment from offset 0, stopping at the first
/// torn record.
pub fn scan_segment(bytes: &[u8]) -> (r: SegmentScan)
    ensures
        views(r.payloads@) == scan(bytes@).0,
        r.torn == scan(bytes@).1,
        r.intact_len <= bytes.len(),
        bytes@.subrange(0, r.intact_len as int) == frames(scan(bytes@).0),
{
    let len = bytes.len();
    let mut payloads: Vec<Vec<u8>> = Vec::new();
    let mut off: usize = 0;
    let mut torn = false;
    assert(bytes@.subrange(0, 0) =~= frames(views(payloads@)));
    assert(bytes@.subrange(0, len as int) =~= bytes@);
    assert(views(payloads@) + scan(bytes@).0 =~= scan(bytes@).0);
    loop
        invariant_except_break
            !torn,
            scan(bytes@) == (
                views(payloads@) + scan(bytes@.subrange(off as int, len as int)).0,
                scan(bytes@.subrange(off as int, len as int)).1,
            ),
        invariant
            len == bytes.len(),
            off <= len,
            bytes@.subrange(0, off as int) == frames(views(payloads@)),
            all_frameable(views(payloads@)),
        ensures
            off <= len,
            bytes@.subrange(0, off as int) == frames(views(payloads@)),
            scan(bytes@) == (views(payloads@), torn),
        decreases len - off,
    {
        let ghost rest = bytes@.subrange(off as int, len as int);
        let remaining = len - off;
        if remaining == 0 {
            assert(views(payloads@) + Seq::<Seq<u8>>::empty() =~= views(payloads@));
            break;
        } else if remaining < PREFIX_LEN {
            assert(views(payloads@) + Seq::<Seq<u8>>::empty() =~= views(payloads@));
            torn = true;
            break;
        } else {
            let declared = (bytes[off] as u32) | ((bytes[off + 1] as u32) << 8u32) | ((
            bytes[off + 2] as u32) << 16u32) | ((bytes[off + 3] as u32) << 24u32);
            assert(declared == prefix_value(rest));
            if remaining - PREFIX_LEN < declared as usize {
                assert(views(payloads@) + Seq::<Seq<u8>>::empty() =~= views(payloads@));
                torn = true;
                break;
            } else {
                let end = off + PREFIX_LEN + declared as usize;
                let payload = copy_range(bytes, off + PREFIX_LEN, end);
                let ghost before = views(payloads@);
                proof {
                    assert(payload@ =~= rest.subrange(4, 4 + declared as int));
                    assert(rest.subrange(4 + declared as int, rest.len() as int) =~= bytes@.subrange(
                        end as int,
                        len as int,
                    ));
                    lemma_bytes_round_trip(rest.subrange(0, 4));
                    assert(rest.subrange(0, 4) =~= bytes@.subrange(off as int, off + 4));
                    assert(prefix_value(rest.subrange(0, 4)) == declared);
                    assert(frame(payload@) =~= bytes@.subrange(off as int, end as int));
                    lemma_frames_push(before, payload@);
                }
                payloads.push(payload);
                proof {
                    assert(views(payloads@) =~= before.push(payload@));
                    assert(bytes@.subrange(0, end as int) =~= bytes@.subrange(0, off as int)
                        + bytes@.subrange(off as int, end as int));
                    assert(before + (seq![payload@] + scan(bytes@.subrange(end as int, len as int)).0)
                        =~= before.push(payload@) + scan(bytes@.subrange(end as int, len as int)).0);
                    assert forall|i: int| 0 <= i < views(payloads@).len() implies frameable(
                        #[trigger] views(payloads@)[i],
                    ) by {
                        if i < before.len() {
                            assert(views(payloads@)[i] == before[i]);
                        }
                    }
                }
                off = end;
            }
        }
    }
    SegmentScan { payloads, intact_len: off, torn }
}

} // verus!
