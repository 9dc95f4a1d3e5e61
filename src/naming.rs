//! Segment file names: `log_` followed by the segment id in lowercase hex,
//! at least eight digits wide, then `.dat`; a directory listing sorted by
//! name is then sorted by id for the first 2^32 segments.
use vstd::prelude::*;
use crate::checkpoint_file::hex_digit;

verus! {

/// The hex digits of `n`, most significant first, without leading zeros.
pub open spec fn hex_digits(n: nat) -> Seq<u8>
    decreases n,
{
    if n < 16 {
        seq![hex_digit(n as u8)]
    } else {
        hex_digits(n / 16) + seq![hex_digit((n % 16) as u8)]
    }
}

pub open spec fn zeros(k: nat) -> Seq<u8> {
    Seq::new(k, |i: int| 48u8)
}

/// `d` left-padded with `0` to eight characters.
pub open spec fn pad8(d: Seq<u8>) -> Seq<u8> {
    if d.len() < 8 {
        zeros((8 - d.len()) as nat) + d
    } else {
        d
    }
}

/// The file name of segment `id`.
pub open spec fn segment_name(id: u64) -> Seq<u8> {
    seq![108u8, 111u8, 103u8, 95u8] + pad8(hex_digits(id as nat)) + seq![46u8, 100u8, 97u8, 116u8]
}

pub open spec fn is_hex_char(c: u8) -> bool {
    (48 <= c <= 57) || (97 <= c <= 102)
}

pub open spec fn hex_char_value(c: u8) -> nat {
    if 48 <= c <= 57 {
        (c - 48) as nat
    } else {
        (c - 87) as nat
    }
}

/// The number that a string of hex digits spells.
pub open spec fn hex_value(s: Seq<u8>) -> nat
    decreases s.len(),
{
    if s.len() == 0 {
        0
    } else {
        hex_value(s.drop_last()) * 16 + hex_char_value(s.last())
    }
}

proof fn lemma_hex_char(k: u8)
    requires
        k < 16,
    ensures
        is_hex_char(hex_digit(k)),
        hex_char_value(hex_digit(k)) == k,
{
}

proof fn lemma_hex_digits(n: nat)
    ensures
        hex_value(hex_digits(n)) == n,
        forall|i: int| 0 <= i < hex_digits(n).len() ==> is_hex_char(#[trigger] hex_digits(n)[i]),
    decreases n,
{
    if n < 16 {
        assert(hex_digits(n) =~= seq![hex_digit(n as u8)]);
        lemma_hex_char(n as u8);
        assert(seq![hex_digit(n as u8)].drop_last() =~= Seq::<u8>::empty());
        assert(hex_value(Seq::<u8>::empty()) == 0);
        assert(hex_value(hex_digits(n)) == hex_char_value(hex_digit(n as u8)));
    } else {
        lemma_hex_digits(n / 16);
        assert(n == (n / 16) * 16 + n % 16);
        lemma_hex_char((n % 16) as u8);
        let d = hex_digits(n);
        assert(d.drop_last() =~= hex_digits(n / 16));
        assert(d.last() == hex_digit((n % 16) as u8));
        assert(hex_value(d) == hex_value(hex_digits(n / 16)) * 16 + (n % 16));
        assert forall|i: int| 0 <= i < d.len() implies is_hex_char(#[trigger] d[i]) by {
            if i < d.len() - 1 {
                assert(d[i] == hex_digits(n / 16)[i]);
            }
        }
    }
}

proof fn lemma_zeros_value(k: nat, s: Seq<u8>)
    ensures
        hex_value(zeros(k) + s) == hex_value(s),
    decreases s.len() + k,
{
    if s.len() == 0 {
        assert(zeros(k) + s =~= zeros(k));
        if k > 0 {
            assert(zeros(k).drop_last() =~= zeros((k - 1) as nat));
            lemma_zeros_value((k - 1) as nat, s);
            assert(zeros((k - 1) as nat) + s =~= zeros((k - 1) as nat));
        }
    } else {
        assert((zeros(k) + s).drop_last() =~= zeros(k) + s.drop_last());
        lemma_zeros_value(k, s.drop_last());
    }
}

proof fn lemma_prefix_value(s: Seq<u8>, k: int)
    requires
        0 <= k <= s.len(),
    ensures
        hex_value(s.subrange(0, k)) <= hex_value(s),
    decreases s.len() - k,
{
    if k < s.len() {
        lemma_prefix_value(s, k + 1);
        assert(s.subrange(0, k + 1).drop_last() =~= s.subrange(0, k));
    } else {
        assert(s.subrange(0, k) =~= s);
    }
}

/// The digits between `log_` and `.dat` are all hex and spell the id.
proof fn lemma_name_digits(id: u64)
    ensures
        segment_name(id).len() >= 16,
        hex_value(segment_name(id).subrange(4, segment_name(id).len() - 4)) == id,
        forall|k: int|
            0 <= k < segment_name(id).len() - 8 ==> is_hex_char(
                #[trigger] segment_name(id).subrange(4, segment_name(id).len() - 4)[k],
            ),
{
    let d = hex_digits(id as nat);
    lemma_hex_digits(id as nat);
    let p = pad8(d);
    let name = segment_name(id);
    assert(name.len() == 8 + p.len());
    assert(name.subrange(4, name.len() - 4) =~= p);
    if d.len() < 8 {
        lemma_zeros_value((8 - d.len()) as nat, d);
        assert forall|k: int| 0 <= k < p.len() implies is_hex_char(#[trigger] p[k]) by {
            if k >= 8 - d.len() {
                assert(p[k] == d[k - (8 - d.len())]);
            }
        }
    }
}

/// Distinct segments have distinct file names.
pub proof fn lemma_segment_name_injective(a: u64, b: u64)
    requires
        segment_name(a) == segment_name(b),
    ensures
        a == b,
{
    lemma_name_digits(a);
    lemma_name_digits(b);
}

fn hex_char(n: u8) -> (c: u8)
    requires
        n < 16,
    ensures
        c == hex_digit(n),
{
    if n < 10 {
        48 + n
    } else {
        87 + n
    }
}

fn push_hex_digits(out: &mut Vec<u8>, n: u64)
    ensures
        final(out)@ == old(out)@ + hex_digits(n as nat),
    decreases n,
{
    if n >= 16 {
        push_hex_digits(out, n / 16);
    }
    out.push(hex_char((n % 16) as u8));
    assert(out@ =~= old(out)@ + hex_digits(n as nat));
}

/// The file name of segment `id`, as ASCII bytes.
pub fn segment_file_name(id: u64) -> (r: Vec<u8>)
    ensures
        r@ == segment_name(id),
{
    let mut digits: Vec<u8> = Vec::new();
    push_hex_digits(&mut digits, id);
    assert(digits@ =~= hex_digits(id as nat));
    let mut out: Vec<u8> = Vec::new();
    out.push(108u8);
    out.push(111u8);
    out.push(103u8);
    out.push(95u8);
    let ghost head = out@;
    let mut pad: usize = digits.len();
    while pad < 8
        invariant
            digits.len() <= pad <= 8 || (pad == digits.len() && pad >= 8),
            out@ == head + zeros((pad - digits.len()) as nat),
        decreases 8 - pad,
    {
        out.push(48u8);
        pad = pad + 1;
        assert(out@ =~= head + zeros((pad - digits.len()) as nat));
    }
    let mut i: usize = 0;
    let ghost padded = out@;
    while i < digits.len()
        invariant
            i <= digits.len(),
            out@ == padded + digits@.subrange(0, i as int),
        decreases digits.len() - i,
    {
        out.push(digits[i]);
        i = i + 1;
        assert(out@ =~= padded + digits@.subrange(0, i as int));
    }
    out.push(46u8);
    out.push(100u8);
    out.push(97u8);
    out.push(116u8);
    proof {
        assert(digits@.subrange(0, i as int) =~= digits@);
        if digits@.len() >= 8 {
            assert(zeros(0) + digits@ =~= digits@);
        }
        assert(out@ =~= segment_name(id));
    }
    out
}

/// The segment id that a file name gives, when it is a segment file name.
pub fn parse_segment_file_name(name: &[u8]) -> (r: Option<u64>)
    ensures
        r matches Some(id) ==> name@ == segment_name(id),
        forall|id: u64| name@ == segment_name(id) ==> r == Some(id),
{
    let ghost has = exists|id: u64| name@ == segment_name(id);
    let ghost gid: u64 = if has {
        choose|id: u64| name@ == segment_name(id)
    } else {
        0
    };
    proof {
        if has {
            lemma_name_digits(gid);
        }
    }
    if name.len() < 8 {
        return None;
    }
    let end = name.len() - 4;
    let ghost mid = name@.subrange(4, end as int);
    let mut v: u64 = 0;
    let mut i: usize = 4;
    while i < end
        invariant
            4 <= i <= end,
            end == name.len() - 4,
            mid == name@.subrange(4, end as int),
            v == hex_value(mid.subrange(0, i - 4)),
            forall|k: int| 0 <= k < i - 4 ==> is_hex_char(#[trigger] mid[k]),
            has == (exists|id: u64| name@ == segment_name(id)),
            has ==> name@ == segment_name(gid),
            has ==> hex_value(mid) == gid,
            has ==> forall|k: int| 0 <= k < mid.len() ==> is_hex_char(#[trigger] mid[k]),
        decreases end - i,
    {
        let c = name[i];
        assert(mid[i - 4] == c);
        if !((48 <= c && c <= 57) || (97 <= c && c <= 102)) {
            return None;
        }
        let d: u64 = if c <= 57 { (c - 48) as u64 } else { (c - 87) as u64 };
        proof {
            assert(mid.subrange(0, i - 3).drop_last() =~= mid.subrange(0, i - 4));
            assert(mid.subrange(0, i - 3).last() == c);
            assert(hex_value(mid.subrange(0, i - 3)) == v * 16 + d);
            if has {
                lemma_prefix_value(mid, i - 3);
            }
        }
        if v > (u64::MAX - d) / 16 {
            proof {
                if has {
                    assert(v * 16 + d > u64::MAX) by (nonlinear_arith)
                        requires
                            v > (u64::MAX - d) / 16,
                            d <= 15,
                    ;
                }
            }
            return None;
        }
        proof {
            assert(mid.subrange(0, i - 3).drop_last() =~= mid.subrange(0, i - 4));
            assert(mid.subrange(0, i - 3).last() == c);
            assert(v * 16 + d <= u64::MAX) by (nonlinear_arith)
                requires
                    v <= (u64::MAX - d) / 16,
                    d <= 15,
            ;
        }
        v = v * 16 + d;
        i = i + 1;
    }
    assert(mid.subrange(0, i - 4) =~= mid);
    let rendered = segment_file_name(v);
    assert(has ==> v == gid);
    if rendered.len() != name.len() {
        return None;
    }
    let mut j: usize = 0;
    while j < name.len()
        invariant
            rendered.len() == name.len(),
            j <= name.len(),
            has == (exists|id: u64| name@ == segment_name(id)),
            has ==> rendered@ == name@,
            forall|k: int| 0 <= k < j ==> rendered@[k] == name@[k],
        decreases name.len() - j,
    {
        if rendered[j] != name[j] {
            return None;
        }
        j = j + 1;
    }
    assert(rendered@ =~= name@);
    proof {
        assert forall|id: u64| name@ == segment_name(id) implies Some(v) == Some(id) by {
            lemma_segment_name_injective(v, id);
        }
    }
    Some(v)
}

} // verus!
