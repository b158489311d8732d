use vstd::prelude::*;
use vstd::arithmetic::power2::{pow2, lemma_pow2_unfold, lemma_pow2_pos, lemma2_to64, lemma_pow2_strictly_increases};
use vstd::bits::lemma_u32_shl_is_mul;

verus! {

/// The number whose bit `k` is `b[k]`.
pub open spec fn bits_value(b: Seq<bool>) -> nat
    decreases b.len(),
{
    if b.len() == 0 {
        0
    } else {
        bits_value(b.drop_last()) + if b.last() { pow2((b.len() - 1) as nat) } else { 0 }
    }
}

/// The bits set in every position.
pub open spec fn all_bits(n: nat) -> Seq<bool> {
    Seq::new(n, |k: int| true)
}

/// Every bit flipped.
pub open spec fn complement(b: Seq<bool>) -> Seq<bool> {
    Seq::new(b.len(), |k: int| !b[k])
}

/// A value of `n` bits is below `2^n`.
pub proof fn lemma_bits_value_bound(b: Seq<bool>)
    ensures
        bits_value(b) < pow2(b.len()),
    decreases b.len(),
{
    if b.len() > 0 {
        lemma_bits_value_bound(b.drop_last());
        lemma_pow2_unfold(b.len());
    } else {
        lemma_pow2_pos(0);
    }
}

/// Sequences of the same length with the same value are equal.
pub proof fn lemma_bits_value_injective(a: Seq<bool>, b: Seq<bool>)
    requires
        a.len() == b.len(),
        bits_value(a) == bits_value(b),
    ensures
        a == b,
    decreases a.len(),
{
    if a.len() > 0 {
        let n = (a.len() - 1) as nat;
        lemma_bits_value_bound(a.drop_last());
        lemma_bits_value_bound(b.drop_last());
        lemma_bits_value_injective(a.drop_last(), b.drop_last());
        assert(a =~= a.drop_last().push(a.last()));
        assert(b =~= b.drop_last().push(b.last()));
    } else {
        assert(a =~= b);
    }
}

/// The value of `n` set bits is `2^n - 1`.
pub proof fn lemma_all_bits_value(n: nat)
    ensures
        bits_value(all_bits(n)) + 1 == pow2(n),
    decreases n,
{
    if n > 0 {
        assert(all_bits(n).drop_last() =~= all_bits((n - 1) as nat));
        lemma_all_bits_value((n - 1) as nat);
        lemma_pow2_unfold(n);
    } else {
        lemma_pow2_pos(0);
        lemma2_to64();
    }
}

/// Flipping every bit of a value of `n` bits gives `2^n - 1` minus it.
pub proof fn lemma_complement_value(b: Seq<bool>)
    ensures
        bits_value(b) + bits_value(complement(b)) + 1 == pow2(b.len()),
    decreases b.len(),
{
    if b.len() > 0 {
        assert(complement(b).drop_last() =~= complement(b.drop_last()));
        lemma_complement_value(b.drop_last());
        lemma_pow2_unfold(b.len());
    } else {
        lemma2_to64();
    }
}

/// The lowest bit decides the parity.
pub proof fn lemma_bits_value_parity(b: Seq<bool>)
    requires
        b.len() > 0,
    ensures
        (bits_value(b) % 2 == 1) == b[0],
    decreases b.len(),
{
    if b.len() == 1 {
        assert(b.drop_last() =~= Seq::<bool>::empty());
        assert(bits_value(b.drop_last()) == 0);
        lemma2_to64();
        assert(b.last() == b[0]);
    } else {
        lemma_bits_value_parity(b.drop_last());
        let n = (b.len() - 1) as nat;
        lemma_pow2_unfold(n);
        let p = pow2((n - 1) as nat);
        let v = bits_value(b.drop_last());
        assert(b.drop_last()[0] == b[0]);
        assert(pow2(n) == 2 * p);
        assert((v + 2 * p) % 2 == v % 2) by (nonlinear_arith);
        if b.last() {
            assert(bits_value(b) == v + 2 * p);
        } else {
            assert(bits_value(b) == v);
        }
    }
}

/// The value is zero exactly when no bit is set.
pub proof fn lemma_bits_value_zero(b: Seq<bool>)
    ensures
        (bits_value(b) == 0) == (forall|k: int| 0 <= k < b.len() ==> !#[trigger] b[k]),
    decreases b.len(),
{
    if b.len() > 0 {
        lemma_bits_value_zero(b.drop_last());
        lemma_pow2_pos((b.len() - 1) as nat);
        if bits_value(b) == 0 {
            assert forall|k: int| 0 <= k < b.len() implies !#[trigger] b[k] by {
                if k < b.len() - 1 {
                    assert(b[k] == b.drop_last()[k]);
                }
            }
        }
        if forall|k: int| 0 <= k < b.len() ==> !#[trigger] b[k] {
            assert forall|k: int| 0 <= k < b.drop_last().len() implies !#[trigger] b.drop_last()[k] by {
                assert(b[k] == b.drop_last()[k]);
            }
            assert(!b[b.len() - 1]);
        }
    }
}

/// Bit `k` of a word.
pub open spec fn bit32(m: u32, k: int) -> bool {
    (m >> (k as u32)) & 1u32 == 1u32
}

/// The lowest `n` bits of a word.
pub open spec fn to_bits(m: u32, n: nat) -> Seq<bool> {
    Seq::new(n, |k: int| bit32(m, k))
}

/// Words with the same 32 bits are equal.
pub proof fn lemma_u32_bits_eq(x: u32, y: u32)
    requires
        forall|k: int| 0 <= k < 32 ==> #[trigger] bit32(x, k) == bit32(y, k),
    ensures
        x == y,
{
    assert(bit32(x, 0) == bit32(y, 0));
    assert(bit32(x, 1) == bit32(y, 1));
    assert(bit32(x, 2) == bit32(y, 2));
    assert(bit32(x, 3) == bit32(y, 3));
    assert(bit32(x, 4) == bit32(y, 4));
    assert(bit32(x, 5) == bit32(y, 5));
    assert(bit32(x, 6) == bit32(y, 6));
    assert(bit32(x, 7) == bit32(y, 7));
    assert(bit32(x, 8) == bit32(y, 8));
    assert(bit32(x, 9) == bit32(y, 9));
    assert(bit32(x, 10) == bit32(y, 10));
    assert(bit32(x, 11) == bit32(y, 11));
    assert(bit32(x, 12) == bit32(y, 12));
    assert(bit32(x, 13) == bit32(y, 13));
    assert(bit32(x, 14) == bit32(y, 14));
    assert(bit32(x, 15) == bit32(y, 15));
    assert(bit32(x, 16) == bit32(y, 16));
    assert(bit32(x, 17) == bit32(y, 17));
    assert(bit32(x, 18) == bit32(y, 18));
    assert(bit32(x, 19) == bit32(y, 19));
    assert(bit32(x, 20) == bit32(y, 20));
    assert(bit32(x, 21) == bit32(y, 21));
    assert(bit32(x, 22) == bit32(y, 22));
    assert(bit32(x, 23) == bit32(y, 23));
    assert(bit32(x, 24) == bit32(y, 24));
    assert(bit32(x, 25) == bit32(y, 25));
    assert(bit32(x, 26) == bit32(y, 26));
    assert(bit32(x, 27) == bit32(y, 27));
    assert(bit32(x, 28) == bit32(y, 28));
    assert(bit32(x, 29) == bit32(y, 29));
    assert(bit32(x, 30) == bit32(y, 30));
    assert(bit32(x, 31) == bit32(y, 31));
    assert(x == y) by (bit_vector)
        requires
            ((x >> 0u32) & 1u32 == 1u32) == ((y >> 0u32) & 1u32 == 1u32),
            ((x >> 1u32) & 1u32 == 1u32) == ((y >> 1u32) & 1u32 == 1u32),
            ((x >> 2u32) & 1u32 == 1u32) == ((y >> 2u32) & 1u32 == 1u32),
            ((x >> 3u32) & 1u32 == 1u32) == ((y >> 3u32) & 1u32 == 1u32),
            ((x >> 4u32) & 1u32 == 1u32) == ((y >> 4u32) & 1u32 == 1u32),
            ((x >> 5u32) & 1u32 == 1u32) == ((y >> 5u32) & 1u32 == 1u32),
            ((x >> 6u32) & 1u32 == 1u32) == ((y >> 6u32) & 1u32 == 1u32),
            ((x >> 7u32) & 1u32 == 1u32) == ((y >> 7u32) & 1u32 == 1u32),
            ((x >> 8u32) & 1u32 == 1u32) == ((y >> 8u32) & 1u32 == 1u32),
            ((x >> 9u32) & 1u32 == 1u32) == ((y >> 9u32) & 1u32 == 1u32),
            ((x >> 10u32) & 1u32 == 1u32) == ((y >> 10u32) & 1u32 == 1u32),
            ((x >> 11u32) & 1u32 == 1u32) == ((y >> 11u32) & 1u32 == 1u32),
            ((x >> 12u32) & 1u32 == 1u32) == ((y >> 12u32) & 1u32 == 1u32),
            ((x >> 13u32) & 1u32 == 1u32) == ((y >> 13u32) & 1u32 == 1u32),
            ((x >> 14u32) & 1u32 == 1u32) == ((y >> 14u32) & 1u32 == 1u32),
            ((x >> 15u32) & 1u32 == 1u32) == ((y >> 15u32) & 1u32 == 1u32),
            ((x >> 16u32) & 1u32 == 1u32) == ((y >> 16u32) & 1u32 == 1u32),
            ((x >> 17u32) & 1u32 == 1u32) == ((y >> 17u32) & 1u32 == 1u32),
            ((x >> 18u32) & 1u32 == 1u32) == ((y >> 18u32) & 1u32 == 1u32),
            ((x >> 19u32) & 1u32 == 1u32) == ((y >> 19u32) & 1u32 == 1u32),
            ((x >> 20u32) & 1u32 == 1u32) == ((y >> 20u32) & 1u32 == 1u32),
            ((x >> 21u32) & 1u32 == 1u32) == ((y >> 21u32) & 1u32 == 1u32),
            ((x >> 22u32) & 1u32 == 1u32) == ((y >> 22u32) & 1u32 == 1u32),
            ((x >> 23u32) & 1u32 == 1u32) == ((y >> 23u32) & 1u32 == 1u32),
            ((x >> 24u32) & 1u32 == 1u32) == ((y >> 24u32) & 1u32 == 1u32),
            ((x >> 25u32) & 1u32 == 1u32) == ((y >> 25u32) & 1u32 == 1u32),
            ((x >> 26u32) & 1u32 == 1u32) == ((y >> 26u32) & 1u32 == 1u32),
            ((x >> 27u32) & 1u32 == 1u32) == ((y >> 27u32) & 1u32 == 1u32),
            ((x >> 28u32) & 1u32 == 1u32) == ((y >> 28u32) & 1u32 == 1u32),
            ((x >> 29u32) & 1u32 == 1u32) == ((y >> 29u32) & 1u32 == 1u32),
            ((x >> 30u32) & 1u32 == 1u32) == ((y >> 30u32) & 1u32 == 1u32),
            ((x >> 31u32) & 1u32 == 1u32) == ((y >> 31u32) & 1u32 == 1u32),
    ;
}

/// `1 << n` is `2^n`.
pub proof fn lemma_u32_shl_pow2(n: u32)
    requires
        n <= 31,
    ensures
        (1u32 << n) == pow2(n as nat),
        pow2(n as nat) <= 0x8000_0000,
{
    lemma2_to64();
    if n < 31 {
        lemma_pow2_strictly_increases(n as nat, 31);
    }
    lemma_u32_shl_is_mul(1, n);
}

/// The bits of a word below `2^n` give back its value.
pub proof fn lemma_to_bits_value(m: u32, n: nat)
    requires
        n <= 31,
        m < pow2(n),
    ensures
        bits_value(to_bits(m, n)) == m,
        forall|k: int| n <= k < 32 ==> !#[trigger] bit32(m, k),
    decreases n,
{
    if n == 0 {
        lemma2_to64();
        assert(m == 0);
        assert forall|k: int| 0 <= k < 32 implies !#[trigger] bit32(m, k) by {
            let ku = k as u32;
            assert((0u32 >> ku) & 1u32 == 0u32) by (bit_vector);
        }
    } else {
        let nn = (n - 1) as u32;
        lemma_u32_shl_pow2(nn);
        lemma_u32_shl_pow2(n as u32);
        lemma_pow2_unfold(n);
        let low: u32 = m & (((1u32 << nn) - 1u32) as u32);
        let top: bool = bit32(m, n - 1);
        assert(low < (1u32 << nn) && m == low + (if top { 1u32 << nn } else { 0u32 })) by (bit_vector)
            requires
                m < (1u32 << ((nn + 1u32) as u32)),
                nn <= 30,
                low == m & (((1u32 << nn) - 1u32) as u32),
                top == ((m >> nn) & 1u32 == 1u32),
        ;
        lemma_to_bits_value(low, (n - 1) as nat);
        assert forall|k: int| 0 <= k < n - 1 implies #[trigger] bit32(low, k) == bit32(m, k) by {
            let ku = k as u32;
            assert(((low >> ku) & 1u32 == 1u32) == ((m >> ku) & 1u32 == 1u32)) by (bit_vector)
                requires
                    ku < nn,
                    nn <= 30,
                    low == m & (((1u32 << nn) - 1u32) as u32),
            ;
        }
        assert(to_bits(m, n).drop_last() =~= to_bits(low, (n - 1) as nat));
        assert forall|k: int| n <= k < 32 implies !#[trigger] bit32(m, k) by {
            let ku = k as u32;
            assert((m >> ku) & 1u32 == 0u32) by (bit_vector)
                requires
                    m < (1u32 << ((nn + 1u32) as u32)),
                    nn <= 30,
                    nn < ku < 32,
            ;
        }
    }
}

/// Clearing the bits of a sub-word.
pub proof fn lemma_xor_bits(r: u32, m: u32, k: int)
    requires
        m & r == m,
        0 <= k < 32,
    ensures
        bit32(r ^ m, k) == (bit32(r, k) && !bit32(m, k)),
        bit32(m, k) ==> bit32(r, k),
        r ^ m == r - m,
{
    let ku = k as u32;
    assert(((((r ^ m) >> ku) & 1u32 == 1u32) == (((r >> ku) & 1u32 == 1u32) && !((m >> ku) & 1u32 == 1u32)))
        && (((m >> ku) & 1u32 == 1u32) ==> ((r >> ku) & 1u32 == 1u32)) && r ^ m == ((r - m) as u32) && m <= r) by (bit_vector)
        requires
            m & r == m,
            ku < 32,
    ;
}

/// The bits of a conjunction.
pub proof fn lemma_and_bits(a: u32, b: u32, k: int)
    requires
        0 <= k < 32,
    ensures
        bit32(a & b, k) == (bit32(a, k) && bit32(b, k)),
{
    let ku = k as u32;
    assert((((a & b) >> ku) & 1u32 == 1u32) == (((a >> ku) & 1u32 == 1u32) && ((b >> ku) & 1u32 == 1u32))) by (bit_vector)
        requires
            ku < 32,
    ;
}

/// `(m - 1) & r` is the largest sub-word of `r` below the sub-word `m`.
pub proof fn lemma_next_submask(r: u32, m: u32, v: u32)
    requires
        m & r == m,
        v & r == v,
        v < m,
    ensures
        v <= (((m - 1u32) as u32) & r),
        (((m - 1u32) as u32) & r) < m,
        (((m - 1u32) as u32) & r) & r == (((m - 1u32) as u32) & r),
{
    assert(v <= (((m - 1u32) as u32) & r) && (((m - 1u32) as u32) & r) < m && (((m - 1u32) as u32) & r) & r == (((m - 1u32) as u32) & r)) by (bit_vector)
        requires
            m & r == m,
            v & r == v,
            v < m,
    ;
}

/// The lowest set bit.
pub proof fn lemma_low_bit(r: u32)
    requires
        r != 0,
    ensures
        r.trailing_zeros() < 32,
        bit32(r, r.trailing_zeros() as int),
        (1u32 << r.trailing_zeros()) & r == (1u32 << r.trailing_zeros()),
        forall|m: u32| ((#[trigger] (m & (1u32 << r.trailing_zeros()))) > 0) == bit32(m, r.trailing_zeros() as int),
{
    vstd::std_specs::bits::axiom_u32_trailing_zeros(r);
    let t = r.trailing_zeros();
    assert((1u32 << t) & r == (1u32 << t)) by (bit_vector)
        requires
            t < 32,
            (r >> t) & 1u32 == 1u32,
    ;
    assert forall|m: u32| ((#[trigger] (m & (1u32 << t))) > 0) == bit32(m, t as int) by {
        assert(((m & (1u32 << t)) > 0) == ((m >> t) & 1u32 == 1u32)) by (bit_vector)
            requires
                t < 32,
        ;
    }
}

} // verus!
