use vstd::arithmetic::mul::lemma_mul_inequality;
use vstd::arithmetic::power2::{lemma_pow2_adds, pow2};
use vstd::prelude::*;

verus! {

/// A byte of a varint is a continuation byte exactly when its high bit is set.
pub open spec fn high_bit(b: u8) -> bool {
    b >= 0x80
}

/// The low seven bits of a byte: its contribution to the decoded value.
pub open spec fn low_bits(b: u8) -> u64 {
    (b % 0x80) as u64
}

/// Position just past a varint's terminating byte when one lies within
/// `budget + 1` bytes of `p`: the terminator is the first byte whose high bit
/// is clear.
pub open spec fn varint_end_from(s: Seq<u8>, p: int, budget: nat) -> Option<int>
    decreases budget,
{
    if p < 0 || p >= s.len() {
        None
    } else if !high_bit(s[p]) {
        Some(p + 1)
    } else if budget == 0 {
        None
    } else {
        varint_end_from(s, p + 1, (budget - 1) as nat)
    }
}

/// Position just past the varint read at `p`: a varint spans one to nine
/// bytes, so at most eight continuation bytes precede the terminator.
pub open spec fn varint_end(s: Seq<u8>, p: int) -> Option<int> {
    varint_end_from(s, p, 8)
}

/// The bytes `p..end` folded seven bits at a time, big-endian first.
pub open spec fn varint_fold(s: Seq<u8>, p: int, end: int) -> nat
    decreases end - p,
{
    if end <= p {
        0
    } else {
        varint_fold(s, p, end - 1) * 0x80 + (low_bits(s[end - 1]) as nat)
    }
}

/// The value of the varint read at `p`, meaningful when `varint_end` finds a
/// terminator.
pub open spec fn varint_value(s: Seq<u8>, p: int) -> nat {
    match varint_end(s, p) {
        Some(end) => varint_fold(s, p, end),
        None => 0,
    }
}

/// The fold of `n` bytes stays under `2^(7n)`.
pub proof fn lemma_varint_fold_bound(s: Seq<u8>, p: int, end: int)
    requires
        p <= end,
    ensures
        varint_fold(s, p, end) < pow2((7 * (end - p)) as nat),
    decreases end - p,
{
    if end <= p {
        vstd::arithmetic::power2::lemma2_to64();
    } else {
        lemma_varint_fold_bound(s, p, end - 1);
        let prev = varint_fold(s, p, end - 1);
        let cap = pow2((7 * (end - 1 - p)) as nat);
        lemma_pow2_adds((7 * (end - 1 - p)) as nat, 7);
        vstd::arithmetic::power2::lemma2_to64();
        lemma_mul_inequality(prev as int + 1, cap as int, 0x80);
    }
}

proof fn lemma_pow2_increase(a: nat, b: nat)
    requires
        a <= b,
    ensures
        pow2(a) <= pow2(b),
{
    lemma_pow2_adds(a, (b - a) as nat);
    vstd::arithmetic::power2::lemma_pow2_pos((b - a) as nat);
    lemma_mul_inequality(1, pow2((b - a) as nat) as int, pow2(a) as int);
}

proof fn lemma_varint_end_from_shape(s: Seq<u8>, p: int, budget: nat, end: int)
    requires
        varint_end_from(s, p, budget) == Some(end),
    ensures
        p < end <= s.len(),
        end - p <= budget + 1,
        !high_bit(s[end - 1]),
        forall|k: int| p <= k < end - 1 ==> high_bit(s[k]),
    decreases budget,
{
    if !(p < 0 || p >= s.len()) && high_bit(s[p]) && budget > 0 {
        lemma_varint_end_from_shape(s, p + 1, (budget - 1) as nat, end);
    }
}

/// Decoding stops at the first byte whose high bit is clear and nowhere
/// else: every byte before the terminator is a continuation byte, and the
/// position after the read lies just past the terminator.
pub proof fn lemma_varint_end_shape(s: Seq<u8>, p: int, end: int)
    requires
        varint_end(s, p) == Some(end),
    ensures
        p < end <= s.len(),
        end - p <= 9,
        !high_bit(s[end - 1]),
        forall|k: int| p <= k < end - 1 ==> high_bit(s[k]),
{
    lemma_varint_end_from_shape(s, p, 8, end);
}

/// The encoding of `n`: continuation bytes carrying the high groups of seven
/// bits, then one terminating byte with the lowest seven.
pub open spec fn spec_encode_varint(n: nat) -> Seq<u8> {
    spec_encode_prefix(n / 0x80) + seq![(n % 0x80) as u8]
}

/// The continuation bytes of an encoding: the base-128 digits of `m`, each
/// with its high bit set.
pub open spec fn spec_encode_prefix(m: nat) -> Seq<u8>
    decreases m,
{
    if m == 0 {
        Seq::empty()
    } else {
        spec_encode_prefix(m / 0x80) + seq![(m % 0x80 + 0x80) as u8]
    }
}

/// Encodes `n` as a varint.
pub fn encode_varint(n: u64) -> (r: Vec<u8>)
    ensures
        r@ == spec_encode_varint(n as nat),
{
    let mut v = encode_prefix(n / 0x80);
    v.push((n % 0x80) as u8);
    assert(v@ =~= spec_encode_varint(n as nat));
    v
}

fn encode_prefix(m: u64) -> (r: Vec<u8>)
    ensures
        r@ == spec_encode_prefix(m as nat),
    decreases m,
{
    if m == 0 {
        let v: Vec<u8> = Vec::new();
        assert(v@ =~= spec_encode_prefix(0));
        v
    } else {
        let mut v = encode_prefix(m / 0x80);
        v.push((m % 0x80 + 0x80) as u8);
        assert(v@ =~= spec_encode_prefix(m as nat));
        v
    }
}

/// A varint's value fits in 63 bits: at most nine bytes of seven bits each.
pub proof fn lemma_varint_value_fits(s: Seq<u8>, p: int)
    requires
        varint_end(s, p) is Some,
    ensures
        varint_value(s, p) < 0x8000000000000000,
{
    let end = varint_end(s, p)->Some_0;
    lemma_varint_end_shape(s, p, end);
    lemma_varint_fold_bound(s, p, end);
    lemma_pow2_increase((7 * (end - p)) as nat, 63);
    vstd::arithmetic::power2::lemma2_to64_rest();
}

/// A fold of at most eight bytes stays under `2^56`.
pub proof fn lemma_fold_fits_56(s: Seq<u8>, p: int, end: int)
    requires
        p <= end,
        end - p <= 8,
    ensures
        varint_fold(s, p, end) < 0x100000000000000,
{
    lemma_varint_fold_bound(s, p, end);
    lemma_pow2_increase((7 * (end - p)) as nat, 56);
    assert(pow2(56) == 0x100000000000000) by {
        vstd::arithmetic::power2::lemma2_to64_rest();
    }
}

/// The fold only reads the bytes it covers.
proof fn lemma_fold_slice(s1: Seq<u8>, p1: int, s2: Seq<u8>, p2: int, n: int)
    requires
        n >= 0,
        forall|i: int| 0 <= i < n ==> s1[p1 + i] == #[trigger] s2[p2 + i],
    ensures
        varint_fold(s1, p1, p1 + n) == varint_fold(s2, p2, p2 + n),
    decreases n,
{
    if n > 0 {
        lemma_fold_slice(s1, p1, s2, p2, n - 1);
        assert(s1[p1 + (n - 1)] == s2[p2 + (n - 1)]);
    }
}

/// The continuation bytes of `m` all have their high bit set and fold back
/// to `m`.
proof fn lemma_prefix_shape(m: nat)
    ensures
        forall|k: int|
            0 <= k < spec_encode_prefix(m).len() ==> high_bit(spec_encode_prefix(m)[k]),
        varint_fold(spec_encode_prefix(m), 0, spec_encode_prefix(m).len() as int) == m,
    decreases m,
{
    if m > 0 {
        vstd::arithmetic::div_mod::lemma_div_decreases(m as int, 0x80);
        lemma_prefix_shape(m / 0x80);
        let sub = spec_encode_prefix(m / 0x80);
        let pre = spec_encode_prefix(m);
        let l = sub.len() as int;
        assert(pre[l] == (m % 0x80 + 0x80) as u8);
        assert(forall|i: int| 0 <= i < l ==> pre[i] == sub[i]);
        lemma_fold_slice(pre, 0, sub, 0, l);
        vstd::arithmetic::div_mod::lemma_fundamental_div_mod(m as int, 0x80);
        assert(varint_fold(pre, 0, l + 1) == varint_fold(pre, 0, l) * 0x80 + (low_bits(pre[l])
            as nat));
    }
}

/// The whole encoding of `n`: continuation bytes, then one terminator, and
/// the fold gives `n` back.
proof fn lemma_encode_shape(n: nat)
    ensures
        spec_encode_varint(n).len() == spec_encode_prefix(n / 0x80).len() + 1,
        ({
            let e = spec_encode_varint(n);
            &&& !high_bit(e[e.len() - 1])
            &&& forall|k: int| 0 <= k < e.len() - 1 ==> high_bit(e[k])
            &&& varint_fold(e, 0, e.len() as int) == n
        }),
{
    let m = n / 0x80;
    lemma_prefix_shape(m);
    let sub = spec_encode_prefix(m);
    let e = spec_encode_varint(n);
    let l = sub.len() as int;
    assert(e[l] == (n % 0x80) as u8);
    vstd::arithmetic::div_mod::lemma_mod_division_less_than_divisor(n as int, 0x80);
    assert(forall|i: int| 0 <= i < l ==> e[i] == sub[i]);
    lemma_fold_slice(e, 0, sub, 0, l);
    vstd::arithmetic::div_mod::lemma_fundamental_div_mod(n as int, 0x80);
    assert(varint_fold(e, 0, l + 1) == varint_fold(e, 0, l) * 0x80 + (low_bits(e[l]) as nat));
}

/// An encoding of at most `k` continuation bytes covers every value under
/// `2^(7k)`.
proof fn lemma_prefix_len(m: nat, k: nat)
    requires
        m < pow2(7 * k),
    ensures
        spec_encode_prefix(m).len() <= k,
    decreases k,
{
    if m > 0 {
        if k == 0 {
            assert(pow2(0) == 1) by {
                vstd::arithmetic::power2::lemma2_to64();
            }
        } else {
            lemma_pow2_adds(7 * (k - 1) as nat, 7);
            assert(pow2(7) == 0x80) by {
                vstd::arithmetic::power2::lemma2_to64();
            }
            vstd::arithmetic::div_mod::lemma_multiply_divide_lt(
                m as int,
                0x80,
                pow2(7 * (k - 1) as nat) as int,
            );
            lemma_prefix_len(m / 0x80, (k - 1) as nat);
        }
    }
}

/// When the terminator stands where the shape says, the scan finds it.
proof fn lemma_varint_end_complete(s: Seq<u8>, p: int, budget: nat, end: int)
    requires
        0 <= p < end <= s.len(),
        end - p <= budget + 1,
        !high_bit(s[end - 1]),
        forall|k: int| p <= k < end - 1 ==> high_bit(#[trigger] s[k]),
    ensures
        varint_end_from(s, p, budget) == Some(end),
    decreases budget,
{
    if p < end - 1 {
        assert(high_bit(s[p]));
        lemma_varint_end_complete(s, p + 1, (budget - 1) as nat, end);
    }
}

/// Round trip: encoding any value under `2^56` and decoding it from the
/// start of the buffer consumes exactly the encoded bytes and yields the
/// value back.
pub proof fn lemma_varint_round_trip(n: u64)
    requires
        n < 0x100000000000000,
    ensures
        varint_end(spec_encode_varint(n as nat), 0) == Some(spec_encode_varint(n as nat).len() as int),
        varint_value(spec_encode_varint(n as nat), 0) == n as nat,
{
    let e = spec_encode_varint(n as nat);
    lemma_encode_shape(n as nat);
    assert(pow2(49) == 0x2000000000000) by {
        vstd::arithmetic::power2::lemma2_to64_rest();
    }
    vstd::arithmetic::div_mod::lemma_multiply_divide_lt(n as int, 0x80, 0x2000000000000);
    lemma_prefix_len((n as nat) / 0x80, 7);
    lemma_varint_end_complete(e, 0, 8, e.len() as int);
}

} // verus!
