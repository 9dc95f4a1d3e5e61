//! The published checkpoint file: the 32-byte Merkle root, then the index of
//! the window's first entry and the number of entries covered, each as eight
//! little-endian bytes. Also the lowercase hex form of a root, as sent to
//! the notary.
use vstd::prelude::*;
use crate::digest::DIGEST_LEN;
use crate::frame::copy_range;
use crate::store::Checkpoint;

verus! {

/// Length in bytes of a checkpoint file.
pub const CHECKPOINT_FILE_LEN: usize = 48;

/// The eight little-endian bytes of `x`.
pub open spec fn le8(x: u64) -> Seq<u8> {
    Seq::new(8, |i: int| ((x >> (8 * i) as u64) & 0xff) as u8)
}

/// The number that eight little-endian bytes spell.
pub open spec fn le8_value(b: Seq<u8>) -> u64 {
    (b[0] as u64) | ((b[1] as u64) << 8u64) | ((b[2] as u64) << 16u64) | ((b[3] as u64) << 24u64)
        | ((b[4] as u64) << 32u64) | ((b[5] as u64) << 40u64) | ((b[6] as u64) << 48u64) | ((
    b[7] as u64) << 56u64)
}

/// The bytes of a checkpoint file.
pub open spec fn checkpoint_bytes(root: Seq<u8>, start: u64, covered: u64) -> Seq<u8> {
    root + le8(start) + le8(covered)
}

pub proof fn lemma_le8_round_trip(x: u64)
    ensures
        le8_value(le8(x)) == x,
{
    let b = le8(x);
    let (b0, b1, b2, b3, b4, b5, b6, b7) = (b[0], b[1], b[2], b[3], b[4], b[5], b[6], b[7]);
    assert(b0 == ((x >> 0u64) & 0xff) as u8);
    assert(b7 == ((x >> 56u64) & 0xff) as u8);
    assert(((b0 as u64) | ((b1 as u64) << 8u64) | ((b2 as u64) << 16u64) | ((b3 as u64) << 24u64)
        | ((b4 as u64) << 32u64) | ((b5 as u64) << 40u64) | ((b6 as u64) << 48u64) | ((b7 as u64)
        << 56u64)) == x) by (bit_vector)
        requires
            b0 == ((x >> 0u64) & 0xff) as u8,
            b1 == ((x >> 8u64) & 0xff) as u8,
            b2 == ((x >> 16u64) & 0xff) as u8,
            b3 == ((x >> 24u64) & 0xff) as u8,
            b4 == ((x >> 32u64) & 0xff) as u8,
            b5 == ((x >> 40u64) & 0xff) as u8,
            b6 == ((x >> 48u64) & 0xff) as u8,
            b7 == ((x >> 56u64) & 0xff) as u8,
    ;
}

/// A checkpoint file names its checkpoint uniquely: equal files come from
/// equal roots, starts and counts.
pub proof fn lemma_checkpoint_bytes_injective(
    r1: Seq<u8>,
    s1: u64,
    c1: u64,
    r2: Seq<u8>,
    s2: u64,
    c2: u64,
)
    requires
        r1.len() == 32,
        r2.len() == 32,
        checkpoint_bytes(r1, s1, c1) == checkpoint_bytes(r2, s2, c2),
    ensures
        r1 == r2,
        s1 == s2,
        c1 == c2,
{
    let b = checkpoint_bytes(r1, s1, c1);
    assert(r1 =~= b.subrange(0, 32));
    assert(r2 =~= b.subrange(0, 32));
    assert(le8(s1) =~= b.subrange(32, 40));
    assert(le8(s2) =~= b.subrange(32, 40));
    assert(le8(c1) =~= b.subrange(40, 48));
    assert(le8(c2) =~= b.subrange(40, 48));
    lemma_le8_round_trip(s1);
    lemma_le8_round_trip(s2);
    lemma_le8_round_trip(c1);
    lemma_le8_round_trip(c2);
}

fn push_le8(out: &mut Vec<u8>, x: u64)
    ensures
        final(out)@ == old(out)@ + le8(x),
{
    let mut i: u64 = 0;
    let ghost start = out@;
    while i < 8
        invariant
            i <= 8,
            out@ == start + le8(x).subrange(0, i as int),
        decreases 8 - i,
    {
        out.push(((x >> (8 * i)) & 0xff) as u8);
        i = i + 1;
        assert(out@ =~= start + le8(x).subrange(0, i as int));
    }
    assert(le8(x).subrange(0, 8) =~= le8(x));
}

fn read_le8(b: &[u8], at: usize) -> (r: u64)
    requires
        at + 8 <= b.len(),
    ensures
        r == le8_value(b@.subrange(at as int, at + 8)),
{
    (b[at] as u64) | ((b[at + 1] as u64) << 8u64) | ((b[at + 2] as u64) << 16u64) | ((b[at
        + 3] as u64) << 24u64) | ((b[at + 4] as u64) << 32u64) | ((b[at + 5] as u64) << 40u64)
        | ((b[at + 6] as u64) << 48u64) | ((b[at + 7] as u64) << 56u64)
}

/// The bytes to publish as the checkpoint file.
pub fn encode_checkpoint(c: &Checkpoint) -> (r: Vec<u8>)
    ensures
        r@ == checkpoint_bytes(c.merkle_root@, c.window_start_index, c.entries_covered),
{
    let mut out = copy_range(c.merkle_root.as_slice(), 0, c.merkle_root.len());
    assert(out@ =~= c.merkle_root@);
    push_le8(&mut out, c.window_start_index);
    push_le8(&mut out, c.entries_covered);
    out
}

/// Reads a checkpoint file back. Any 48 bytes are a checkpoint file; other
/// lengths are not.
pub fn decode_checkpoint(b: &[u8]) -> (r: Option<Checkpoint>)
    ensures
        r is Some <==> b.len() == CHECKPOINT_FILE_LEN,
        r matches Some(c) ==> c.merkle_root@.len() == DIGEST_LEN && b@ == checkpoint_bytes(
            c.merkle_root@,
            c.window_start_index,
            c.entries_covered,
        ),
{
    if b.len() != CHECKPOINT_FILE_LEN {
        return None;
    }
    let root = copy_range(b, 0, DIGEST_LEN);
    let start = read_le8(b, 32);
    let covered = read_le8(b, 40);
    proof {
        let s = b@.subrange(32, 40);
        let t = b@.subrange(40, 48);
        lemma_le8_bytes_round_trip(s);
        lemma_le8_bytes_round_trip(t);
        assert(b@ =~= checkpoint_bytes(root@, start, covered));
    }
    Some(Checkpoint { merkle_root: root, entries_covered: covered, window_start_index: start })
}

pub proof fn lemma_le8_bytes_round_trip(b: Seq<u8>)
    requires
        b.len() == 8,
    ensures
        le8(le8_value(b)) == b,
{
    let (b0, b1, b2, b3, b4, b5, b6, b7) = (b[0], b[1], b[2], b[3], b[4], b[5], b[6], b[7]);
    let x = le8_value(b);
    assert(((x >> 0u64) & 0xff) as u8 == b0 && ((x >> 8u64) & 0xff) as u8 == b1 && ((x >> 16u64)
        & 0xff) as u8 == b2 && ((x >> 24u64) & 0xff) as u8 == b3 && ((x >> 32u64) & 0xff) as u8
        == b4 && ((x >> 40u64) & 0xff) as u8 == b5 && ((x >> 48u64) & 0xff) as u8 == b6 && ((x
        >> 56u64) & 0xff) as u8 == b7) by (bit_vector)
        requires
            x == (b0 as u64) | ((b1 as u64) << 8u64) | ((b2 as u64) << 16u64) | ((b3 as u64)
                << 24u64) | ((b4 as u64) << 32u64) | ((b5 as u64) << 40u64) | ((b6 as u64)
                << 48u64) | ((b7 as u64) << 56u64),
    ;
    assert(le8(x) =~= b);
}

/// The lowercase hex digit of `n` (below 16).
pub open spec fn hex_digit(n: u8) -> u8 {
    if n < 10 {
        (48 + n) as u8
    } else {
        (87 + n) as u8
    }
}

/// Two lowercase hex digits per byte, high digit first.
pub open spec fn hex_of(b: Seq<u8>) -> Seq<u8>
    decreases b.len(),
{
    if b.len() == 0 {
        Seq::empty()
    } else {
        hex_of(b.drop_last()) + seq![hex_digit(b.last() / 16), hex_digit(b.last() % 16)]
    }
}

/// The lowercase hex text of `b`, as ASCII bytes.
pub fn to_hex(b: &[u8]) -> (r: Vec<u8>)
    ensures
        r@ == hex_of(b@),
{
    let mut out: Vec<u8> = Vec::new();
    let mut i: usize = 0;
    while i < b.len()
        invariant
            i <= b.len(),
            out@ == hex_of(b@.subrange(0, i as int)),
        decreases b.len() - i,
    {
        let hi = b[i] / 16;
        let lo = b[i] % 16;
        out.push(if hi < 10 { 48 + hi } else { 87 + hi });
        out.push(if lo < 10 { 48 + lo } else { 87 + lo });
        proof {
            let s = b@.subrange(0, i + 1);
            assert(s.drop_last() =~= b@.subrange(0, i as int));
            assert(s.last() == b[i as int]);
        }
        i = i + 1;
        assert(out@ =~= hex_of(b@.subrange(0, i as int)));
    }
    assert(b@.subrange(0, i as int) =~= b@);
    out
}

} // verus!
