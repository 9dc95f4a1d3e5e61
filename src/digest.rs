//! Content hashing: the hash chain that links every entry to the one before
//! it, and the Merkle root over a window of entries.
//!
//! Rules, fixed once for producer and verifier alike:
//! - chain: `head(0) = 32 zero bytes`, `head(i + 1) = BLAKE3(head(i) || payload(i))`;
//! - leaf: `BLAKE3(0x00 || payload)`;
//! - inner node: `BLAKE3(0x01 || left || right)`, where a level of odd length
//!   pairs its last node with itself;
//! - the root of an empty window is `BLAKE3("")`.
use vstd::prelude::*;
use crate::frame::{copy_range, views};

verus! {

/// Length in bytes of every digest.
pub const DIGEST_LEN: usize = 32;

/// The BLAKE3 digest of `input`.
pub uninterp spec fn blake3_of(input: Seq<u8>) -> Seq<u8>;

/// Relies on blake3::hash: the 32-byte BLAKE3 digest, which depends on the
/// input bytes alone.
#[verifier::external_body]
fn blake3_digest(input: &[u8]) -> (r: Vec<u8>)
    ensures
        r@ == blake3_of(input@),
        r@.len() == 32,
{
    blake3::hash(input).as_bytes().to_vec()
}

/// The head of an empty ledger.
pub open spec fn genesis() -> Seq<u8> {
    Seq::new(32, |i: int| 0u8)
}

/// The head of the hash chain after the entries `ps`.
pub open spec fn chain_head(ps: Seq<Seq<u8>>) -> Seq<u8>
    decreases ps.len(),
{
    if ps.len() == 0 {
        genesis()
    } else {
        blake3_of(chain_head(ps.drop_last()) + ps.last())
    }
}

pub open spec fn leaf_of(p: Seq<u8>) -> Seq<u8> {
    blake3_of(seq![0u8] + p)
}

pub open spec fn node_of(l: Seq<u8>, r: Seq<u8>) -> Seq<u8> {
    blake3_of(seq![1u8] + l + r)
}

pub open spec fn leaves_of(ps: Seq<Seq<u8>>) -> Seq<Seq<u8>> {
    ps.map_values(|p: Seq<u8>| leaf_of(p))
}

/// The level above `hs`: pairs combined in order, an odd last node with itself.
pub open spec fn next_level(hs: Seq<Seq<u8>>) -> Seq<Seq<u8>> {
    Seq::new(
        ((hs.len() + 1) / 2) as nat,
        |i: int| node_of(hs[2 * i], if 2 * i + 1 < hs.len() { hs[2 * i + 1] } else { hs[2 * i] }),
    )
}

/// The root of the tree whose bottom level is `hs`.
pub open spec fn root_of_level(hs: Seq<Seq<u8>>) -> Seq<u8>
    decreases hs.len(),
{
    if hs.len() == 0 {
        blake3_of(Seq::empty())
    } else if hs.len() == 1 {
        hs[0]
    } else {
        root_of_level(next_level(hs))
    }
}

/// The Merkle root of a window of payloads.
pub open spec fn merkle_root_of(ps: Seq<Seq<u8>>) -> Seq<u8> {
    root_of_level(leaves_of(ps))
}

/// The bytes of `a` followed by those of `b`.
fn concat(a: &[u8], b: &[u8]) -> (r: Vec<u8>)
    ensures
        r@ == a@ + b@,
{
    let mut out = copy_range(a, 0, a.len());
    let mut i: usize = 0;
    while i < b.len()
        invariant
            i <= b.len(),
            out@ == a@.subrange(0, a@.len() as int) + b@.subrange(0, i as int),
        decreases b.len() - i,
    {
        out.push(b[i]);
        i = i + 1;
        assert(out@ =~= a@.subrange(0, a@.len() as int) + b@.subrange(0, i as int));
    }
    assert(a@.subrange(0, a@.len() as int) =~= a@);
    assert(b@.subrange(0, i as int) =~= b@);
    out
}

/// The chain head that follows `prev` once `payload` is appended.
pub fn chain_next(prev: &[u8], payload: &[u8]) -> (r: Vec<u8>)
    ensures
        r@ == blake3_of(prev@ + payload@),
        r@.len() == DIGEST_LEN,
{
    let joined = concat(prev, payload);
    blake3_digest(joined.as_slice())
}

/// The head of an empty ledger: 32 zero bytes.
pub fn genesis_head() -> (r: Vec<u8>)
    ensures
        r@ == genesis(),
{
    let mut out: Vec<u8> = Vec::new();
    while out.len() < DIGEST_LEN
        invariant
            out.len() <= DIGEST_LEN,
            forall|i: int| 0 <= i < out@.len() ==> out@[i] == 0u8,
        decreases DIGEST_LEN - out.len(),
    {
        out.push(0u8);
    }
    assert(out@ =~= genesis());
    out
}

/// The leaf hash of one payload.
pub fn leaf_hash(payload: &[u8]) -> (r: Vec<u8>)
    ensures
        r@ == leaf_of(payload@),
{
    let tag: [u8; 1] = [0u8];
    let joined = concat(tag.as_slice(), payload);
    assert(tag@ =~= seq![0u8]);
    blake3_digest(joined.as_slice())
}

/// The hash of an inner node over two children.
pub fn node_hash(l: &[u8], r: &[u8]) -> (h: Vec<u8>)
    ensures
        h@ == node_of(l@, r@),
{
    let tag: [u8; 1] = [1u8];
    let left = concat(tag.as_slice(), l);
    assert(tag@ =~= seq![1u8]);
    let joined = concat(left.as_slice(), r);
    blake3_digest(joined.as_slice())
}

/// The level above `hs`.
pub fn merkle_level(hs: &Vec<Vec<u8>>) -> (r: Vec<Vec<u8>>)
    ensures
        views(r@) == next_level(views(hs@)),
{
    let n = hs.len();
    let half = n / 2 + n % 2;
    let mut out: Vec<Vec<u8>> = Vec::new();
    let mut j: usize = 0;
    while j < half
        invariant
            n == hs.len(),
            half == (n + 1) / 2,
            j <= half,
            out.len() == j,
            forall|k: int| 0 <= k < out.len() ==> #[trigger] views(out@)[k] == next_level(views(hs@))[k],
        decreases half - j,
    {
        let i = 2 * j;
        let right_index = if i + 1 < n { i + 1 } else { i };
        let h = node_hash(hs[i].as_slice(), hs[right_index].as_slice());
        let ghost before = out@;
        out.push(h);
        proof {
            assert forall|k: int| 0 <= k < out.len() implies #[trigger] views(out@)[k] == next_level(
                views(hs@),
            )[k] by {
                if k < before.len() {
                    assert(out@[k] == before[k]);
                    assert(views(before)[k] == views(out@)[k]);
                }
            }
        }
        j = j + 1;
    }
    assert(views(out@) =~= next_level(views(hs@)));
    out
}

/// The root of the tree whose bottom level is `leaves`.
pub fn root_from_leaves(leaves: Vec<Vec<u8>>) -> (r: Vec<u8>)
    ensures
        r@ == root_of_level(views(leaves@)),
{
    let mut level = leaves;
    if level.len() == 0 {
        let empty: [u8; 0] = [];
        assert(empty@ =~= Seq::<u8>::empty());
        return blake3_digest(empty.as_slice());
    }
    while level.len() > 1
        invariant
            level.len() >= 1,
            root_of_level(views(level@)) == root_of_level(views(leaves@)),
        decreases level.len(),
    {
        level = merkle_level(&level);
        assert(views(level@).len() == level@.len());
    }
    let top = copy_range(level[0].as_slice(), 0, level[0].len());
    assert(top@ =~= views(level@)[0]);
    top
}

/// The Merkle root of a window of payloads.
pub fn merkle_root(payloads: &Vec<Vec<u8>>) -> (r: Vec<u8>)
    ensures
        r@ == merkle_root_of(views(payloads@)),
{
    let mut leaves: Vec<Vec<u8>> = Vec::new();
    let mut i: usize = 0;
    while i < payloads.len()
        invariant
            i <= payloads.len(),
            leaves.len() == i,
            views(leaves@) == leaves_of(views(payloads@)).subrange(0, i as int),
        decreases payloads.len() - i,
    {
        let h = leaf_hash(payloads[i].as_slice());
        let ghost before = leaves@;
        leaves.push(h);
        proof {
            assert(leaves@ == before.push(h));
            assert(views(payloads@)[i as int] == payloads@[i as int]@);
            assert(leaves_of(views(payloads@))[i as int] == leaf_of(payloads@[i as int]@));
            assert forall|k: int| 0 <= k < i implies #[trigger] views(leaves@)[k] == views(before)[k] by {
                assert(leaves@[k] == before[k]);
            }
            assert(views(leaves@) =~= leaves_of(views(payloads@)).subrange(0, i + 1)) by {
                assert forall|k: int| 0 <= k <= i implies #[trigger] views(leaves@)[k]
                    == leaves_of(views(payloads@)).subrange(0, i + 1)[k] by {
                    if k < i {
                        assert(views(before)[k] == leaves_of(views(payloads@)).subrange(0, i as int)[k]);
                    }
                }
            }
        }
        i = i + 1;
    }
    assert(leaves_of(views(payloads@)).subrange(0, i as int) =~= leaves_of(views(payloads@)));
    root_from_leaves(leaves)
}

/// The root is a function of the ordered payloads alone: equal windows give
/// equal roots.
pub proof fn lemma_root_deterministic(a: Seq<Seq<u8>>, b: Seq<Seq<u8>>)
    requires
        a == b,
    ensures
        merkle_root_of(a) == merkle_root_of(b),
{
}

} // verus!
