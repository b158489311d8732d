use vstd::prelude::*;

verus! {

broadcast use vstd::array::group_array_axioms;

/// Bit `i` of a 128-bit word.
pub open spec fn bit128(x: u128, i: u128) -> bool {
    (x >> i) & 1u128 == 1u128
}

/// The number of set bits of `x` below position `n`.
pub open spec fn ones_below(x: u128, n: nat) -> nat
    decreases n,
{
    if n == 0 {
        0
    } else {
        ones_below(x, (n - 1) as nat) + if bit128(x, (n - 1) as u128) { 1nat } else { 0nat }
    }
}

/// `u128::trailing_zeros`: the number of zero bits below the lowest set bit (128 for zero).
#[verifier::external_body]
fn word_trailing_zeros(x: u128) -> (r: u32)
    ensures
        r <= 128,
        forall|j: u128| j < r ==> !bit128(x, j),
        r < 128 ==> bit128(x, r as u128),
        (r == 128) == (x == 0),
{
    x.trailing_zeros()
}

/// `u128::leading_zeros`: the number of zero bits above the highest set bit (128 for zero).
#[verifier::external_body]
fn word_leading_zeros(x: u128) -> (r: u32)
    ensures
        r <= 128,
        forall|j: u128| 128 - r <= j < 128 ==> !bit128(x, j),
        r < 128 ==> bit128(x, (127 - r) as u128),
        (r == 128) == (x == 0),
{
    x.leading_zeros()
}

/// `u128::count_ones`: the number of set bits.
#[verifier::external_body]
pub(crate) fn word_count_ones(x: u128) -> (r: u32)
    ensures
        r == ones_below(x, 128),
{
    x.count_ones()
}

/// How single-bit updates act on each bit.
proof fn lemma_bit_single(x: u128, k: u128, j: u128)
    by (bit_vector)
    requires
        k < 128,
        j < 128,
    ensures
        bit128(x ^ (1u128 << k), j) == (bit128(x, j) != (j == k)),
        bit128(x | (1u128 << k), j) == (bit128(x, j) || j == k),
        bit128(x & !(1u128 << k), j) == (bit128(x, j) && j != k),
{
}

/// How word operations act on each bit.
proof fn lemma_bit_words(x: u128, y: u128, j: u128)
    by (bit_vector)
    requires
        j < 128,
    ensures
        bit128(x | y, j) == (bit128(x, j) || bit128(y, j)),
        bit128(x & y, j) == (bit128(x, j) && bit128(y, j)),
        !bit128(0u128, j),
        (((x >> j) & 1u128) != 0u128) == bit128(x, j),
{
}

/// The low mask `2^k - 1` has exactly the bits below `k`.
proof fn lemma_bit_mask(k: u128, j: u128)
    by (bit_vector)
    requires
        k < 128,
        j < 128,
    ensures
        (1u128 << k) >= 1u128,
        bit128(((1u128 << k) - 1u128) as u128, j) == (j < k),
{
}

/// How shifts act on each bit.
proof fn lemma_bit_shift(x: u128, k: u128, j: u128)
    by (bit_vector)
    requires
        k < 128,
        j < 128,
    ensures
        bit128(x << k, j) == (j >= k && bit128(x, (j - k) as u128)),
        bit128(x >> k, j) == (j + k < 128 && bit128(x, (j + k) as u128)),
{
}

/// Exclusive or differs exactly where the words differ, and is zero exactly on equal words.
proof fn lemma_bit_xor(x: u128, y: u128, j: u128)
    by (bit_vector)
    requires
        j < 128,
    ensures
        bit128(x ^ y, j) == (bit128(x, j) != bit128(y, j)),
        (x ^ y == 0u128) == (x == y),
{
}

/// Two words with the same bits are the same word.
proof fn lemma_same_bits_same_word(x: u128, y: u128)
    requires
        forall|j: u128| j < 128 ==> #[trigger] bit128(x, j) == bit128(y, j),
    ensures
        x == y,
{
    if x != y {
        lemma_bit_xor(x, y, 0);
        lemma_nonzero_has_bit(x ^ y);
        let j = choose|j: u128| j < 128 && #[trigger] bit128(x ^ y, j);
        lemma_bit_xor(x, y, j);
    }
}

/// A word with no set bit is zero.
proof fn lemma_no_bit_is_zero(x: u128)
    by (bit_vector)
    requires
        !bit128(x, 0),
        !bit128(x, 1),
        !bit128(x, 2),
        !bit128(x, 3),
        !bit128(x, 4),
        !bit128(x, 5),
        !bit128(x, 6),
        !bit128(x, 7),
        !bit128(x, 8),
        !bit128(x, 9),
        !bit128(x, 10),
        !bit128(x, 11),
        !bit128(x, 12),
        !bit128(x, 13),
        !bit128(x, 14),
        !bit128(x, 15),
        !bit128(x, 16),
        !bit128(x, 17),
        !bit128(x, 18),
        !bit128(x, 19),
        !bit128(x, 20),
        !bit128(x, 21),
        !bit128(x, 22),
        !bit128(x, 23),
        !bit128(x, 24),
        !bit128(x, 25),
        !bit128(x, 26),
        !bit128(x, 27),
        !bit128(x, 28),
        !bit128(x, 29),
        !bit128(x, 30),
        !bit128(x, 31),
        !bit128(x, 32),
        !bit128(x, 33),
        !bit128(x, 34),
        !bit128(x, 35),
        !bit128(x, 36),
        !bit128(x, 37),
        !bit128(x, 38),
        !bit128(x, 39),
        !bit128(x, 40),
        !bit128(x, 41),
        !bit128(x, 42),
        !bit128(x, 43),
        !bit128(x, 44),
        !bit128(x, 45),
        !bit128(x, 46),
        !bit128(x, 47),
        !bit128(x, 48),
        !bit128(x, 49),
        !bit128(x, 50),
        !bit128(x, 51),
        !bit128(x, 52),
        !bit128(x, 53),
        !bit128(x, 54),
        !bit128(x, 55),
        !bit128(x, 56),
        !bit128(x, 57),
        !bit128(x, 58),
        !bit128(x, 59),
        !bit128(x, 60),
        !bit128(x, 61),
        !bit128(x, 62),
        !bit128(x, 63),
        !bit128(x, 64),
        !bit128(x, 65),
        !bit128(x, 66),
        !bit128(x, 67),
        !bit128(x, 68),
        !bit128(x, 69),
        !bit128(x, 70),
        !bit128(x, 71),
        !bit128(x, 72),
        !bit128(x, 73),
        !bit128(x, 74),
        !bit128(x, 75),
        !bit128(x, 76),
        !bit128(x, 77),
        !bit128(x, 78),
        !bit128(x, 79),
        !bit128(x, 80),
        !bit128(x, 81),
        !bit128(x, 82),
        !bit128(x, 83),
        !bit128(x, 84),
        !bit128(x, 85),
        !bit128(x, 86),
        !bit128(x, 87),
        !bit128(x, 88),
        !bit128(x, 89),
        !bit128(x, 90),
        !bit128(x, 91),
        !bit128(x, 92),
        !bit128(x, 93),
        !bit128(x, 94),
        !bit128(x, 95),
        !bit128(x, 96),
        !bit128(x, 97),
        !bit128(x, 98),
        !bit128(x, 99),
        !bit128(x, 100),
        !bit128(x, 101),
        !bit128(x, 102),
        !bit128(x, 103),
        !bit128(x, 104),
        !bit128(x, 105),
        !bit128(x, 106),
        !bit128(x, 107),
        !bit128(x, 108),
        !bit128(x, 109),
        !bit128(x, 110),
        !bit128(x, 111),
        !bit128(x, 112),
        !bit128(x, 113),
        !bit128(x, 114),
        !bit128(x, 115),
        !bit128(x, 116),
        !bit128(x, 117),
        !bit128(x, 118),
        !bit128(x, 119),
        !bit128(x, 120),
        !bit128(x, 121),
        !bit128(x, 122),
        !bit128(x, 123),
        !bit128(x, 124),
        !bit128(x, 125),
        !bit128(x, 126),
        !bit128(x, 127),
    ensures
        x == 0,
{
}

/// The bits of a word as a sequence, lowest first.
pub open spec fn word_bits(x: u128) -> Seq<bool> {
    Seq::new(128, |j: int| bit128(x, j as u128))
}

/// The number of `true` entries of `s` at positions `lo..hi`.
pub open spec fn count_true(s: Seq<bool>, lo: int, hi: int) -> nat
    decreases hi - lo,
{
    if hi <= lo {
        0
    } else {
        count_true(s, lo, hi - 1) + if s[hi - 1] { 1nat } else { 0nat }
    }
}

pub proof fn lemma_count_split(s: Seq<bool>, a: int, b: int, c: int)
    requires
        a <= b <= c,
    ensures
        count_true(s, a, c) == count_true(s, a, b) + count_true(s, b, c),
    decreases c - b,
{
    if c > b {
        lemma_count_split(s, a, b, c - 1);
    }
}

/// Changing one entry inside the range changes the count by the difference.
pub proof fn lemma_count_update(s: Seq<bool>, i: int, v: bool, lo: int, hi: int)
    requires
        lo <= i < hi <= s.len(),
        0 <= lo,
    ensures
        count_true(s.update(i, v), lo, hi) + (if s[i] { 1int } else { 0int }) == count_true(s, lo, hi) + (if v { 1int } else { 0int }),
    decreases hi - lo,
{
    if hi - 1 > i {
        lemma_count_update(s, i, v, lo, hi - 1);
    } else {
        lemma_count_shift(s.update(i, v), s, lo, lo, hi - 1 - lo);
    }
}

/// The count is zero exactly when no entry in the range is set.
pub proof fn lemma_count_zero_iff(s: Seq<bool>, lo: int, hi: int)
    ensures
        (count_true(s, lo, hi) == 0) == (forall|j: int| lo <= j < hi ==> !s[j]),
    decreases hi - lo,
{
    if hi > lo {
        lemma_count_zero_iff(s, lo, hi - 1);
    }
}

pub proof fn lemma_count_shift(a: Seq<bool>, b: Seq<bool>, la: int, lb: int, n: int)
    requires
        n >= 0,
        forall|j: int| 0 <= j < n ==> #[trigger] a[la + j] == b[lb + j],
    ensures
        count_true(a, la, la + n) == count_true(b, lb, lb + n),
    decreases n,
{
    if n > 0 {
        lemma_count_shift(a, b, la, lb, n - 1);
        assert(a[la + (n - 1)] == b[lb + (n - 1)]);
    }
}

pub proof fn lemma_count_none(a: Seq<bool>, lo: int, hi: int)
    requires
        forall|j: int| lo <= j < hi ==> !a[j],
    ensures
        count_true(a, lo, hi) == 0,
    decreases hi - lo,
{
    if hi > lo {
        lemma_count_none(a, lo, hi - 1);
    }
}

proof fn lemma_ones_below(x: u128, n: nat)
    requires
        n <= 128,
    ensures
        ones_below(x, n) == count_true(word_bits(x), 0, n as int),
    decreases n,
{
    if n > 0 {
        lemma_ones_below(x, (n - 1) as nat);
    }
}

/// A nonzero word has a set bit.
proof fn lemma_nonzero_has_bit(x: u128)
    requires
        x != 0,
    ensures
        exists|j: u128| j < 128 && #[trigger] bit128(x, j),
{
    if !(exists|j: u128| j < 128 && #[trigger] bit128(x, j)) {
        lemma_no_bit_is_zero(x);
    }
}

/// A fixed-width bit set of `128 * N` bits stored in `N` words, lowest word first.
#[derive(Clone, Copy, Debug, PartialEq, Eq, Hash)]
pub struct Us<const N: usize> {
    data: [u128; N],
}

pub type U128 = Us<1>;

pub type U256 = Us<2>;

pub type U512 = Us<4>;

impl<const N: usize> View for Us<N> {
    type V = Seq<bool>;

    open spec fn view(&self) -> Seq<bool> {
        Seq::new((128 * N) as nat, |i: int| self.bit_spec(i))
    }
}

impl<const N: usize> Us<N> {
    /// The words, lowest first.
    pub closed spec fn limbs(self) -> Seq<u128> {
        self.data@
    }

    /// There are `N` words.
    pub proof fn lemma_limbs_len(self)
        ensures
            self.limbs().len() == N,
    {
    }

    /// The words decide the bits.
    pub proof fn lemma_same_limbs(self, other: Self)
        requires
            self.limbs() == other.limbs(),
        ensures
            self@ == other@,
    {
        assert(self@ =~= other@);
    }

    /// The bits decide the set: two sets with the same bits are the same value.
    pub proof fn lemma_same_bits(self, other: Self)
        requires
            self@ == other@,
        ensures
            self == other,
    {
        assert forall|k: int| 0 <= k < N implies self.data@[k] == other.data@[k] by {
            self.lemma_limb_bits(k);
            other.lemma_limb_bits(k);
            assert forall|j: u128| j < 128 implies #[trigger] bit128(self.data@[k], j) == bit128(other.data@[k], j) by {
                let ji = j as int;
                assert(self@[128 * k + ji] == word_bits(self.limbs()[k])[ji]);
                assert(other@[128 * k + ji] == word_bits(other.limbs()[k])[ji]);
                assert(self@[128 * k + ji] == other@[128 * k + ji]);
                assert(ji as u128 == j);
            }
            lemma_same_bits_same_word(self.data@[k], other.data@[k]);
        }
        assert(self.data@ =~= other.data@);
        assert(self.data == other.data);
    }

    /// Bit `i`: bit `i % 128` of word `i / 128`.
    pub open spec fn bit_spec(self, i: int) -> bool {
        bit128(self.limbs()[i / 128], (i % 128) as u128)
    }

    /// The number of set bits at positions `lo..hi`.
    pub open spec fn count_spec(self, lo: int, hi: int) -> nat {
        count_true(self@, lo, hi)
    }

    proof fn lemma_limb_bits(self, k: int)
        requires
            0 <= k < N,
        ensures
            self.limbs().len() == N,
            forall|j: int| 0 <= j < 128 ==> #[trigger] self@[128 * k + j] == word_bits(self.limbs()[k])[j],
    {
        assert forall|j: int| 0 <= j < 128 implies #[trigger] self@[128 * k + j] == word_bits(self.limbs()[k])[j] by {
            assert((128 * k + j) / 128 == k);
            assert((128 * k + j) % 128 == j);
        }
    }

    /// Counting the set bits of the range `128k + lo .. 128k + hi` of one word.
    proof fn lemma_limb_count(self, k: int, lo: int, hi: int)
        requires
            0 <= k < N,
            0 <= lo <= hi <= 128,
        ensures
            self.count_spec(128 * k + lo, 128 * k + hi) == count_true(word_bits(self.limbs()[k]), lo, hi),
    {
        self.lemma_limb_bits(k);
        assert forall|j: int| 0 <= j < hi - lo implies #[trigger] self@[(128 * k + lo) + j] == word_bits(self.limbs()[k])[lo + j] by {
            assert(128 * k + lo + j == 128 * k + (lo + j));
        }
        lemma_count_shift(self@, word_bits(self.limbs()[k]), 128 * k + lo, lo, hi - lo);
    }

    /// The words, lowest first.
    pub fn data(&self) -> (r: &[u128; N])
        ensures
            r@ == self.limbs(),
    {
        &self.data
    }

    /// The bit set with the given words.
    pub fn new(data: [u128; N]) -> (r: Self)
        ensures
            r.limbs() == data@,
    {
        Self { data }
    }

    /// The empty set.
    pub fn zero() -> (r: Self)
        ensures
            forall|i: int| 0 <= i < 128 * N ==> !(#[trigger] r@[i]),
            forall|k: int| 0 <= k < N ==> r.limbs()[k] == 0,
    {
        let r = Self { data: [0u128; N] };
        assert forall|i: int| 0 <= i < 128 * N implies !(#[trigger] r@[i]) by {
            lemma_bit_words(0, 0, (i % 128) as u128);
        }
        r
    }

    /// The set whose lowest word is `v`.
    pub fn from_u128(v: u128) -> (r: Self)
        requires
            N >= 1,
        ensures
            r.limbs()[0] == v,
            forall|k: int| 1 <= k < N ==> r.limbs()[k] == 0,
            forall|i: int| 0 <= i < 128 * N ==> #[trigger] r@[i] == (i < 128 && bit128(v, i as u128)),
    {
        let mut r = Self::zero();
        let ghost prev = r;
        r.data[0] = v;
        assert(r.limbs() == prev.limbs().update(0, v));
        assert forall|i: int| 0 <= i < 128 * N implies #[trigger] r@[i] == (i < 128 && bit128(v, i as u128)) by {
            if i >= 128 {
                lemma_bit_words(0, 0, (i % 128) as u128);
            }
        }
        r
    }

    /// Bit `i`.
    pub fn get(&self, i: usize) -> (r: bool)
        requires
            i < 128 * N,
        ensures
            r == self@[i as int],
    {
        proof {
            lemma_bit_words(self.limbs()[(i / 128) as int], 0, (i % 128) as u128);
        }
        (self.data[i / 128] >> ((i % 128) as u128)) & 1 != 0
    }

    /// Toggles bit `i`.
    pub fn flip(&mut self, i: usize)
        requires
            i < 128 * N,
        ensures
            final(self)@ == old(self)@.update(i as int, !old(self)@[i as int]),
    {
        let k = i / 128;
        let b = (i % 128) as u128;
        let ghost before = *self;
        self.data[k] = self.data[k] ^ (1u128 << b);
        proof {
            assert forall|j: int| 0 <= j < 128 * N implies #[trigger] self@[j] == before@.update(i as int, !before@[i as int])[j] by {
                if j / 128 == k {
                    lemma_bit_single(before.limbs()[k as int], b, (j % 128) as u128);
                }
            }
            assert(self@ =~= before@.update(i as int, !before@[i as int]));
        }
    }

    /// Sets bit `i`.
    pub fn set(&mut self, i: usize)
        requires
            i < 128 * N,
        ensures
            final(self)@ == old(self)@.update(i as int, true),
    {
        let k = i / 128;
        let b = (i % 128) as u128;
        let ghost before = *self;
        self.data[k] = self.data[k] | (1u128 << b);
        proof {
            assert forall|j: int| 0 <= j < 128 * N implies #[trigger] self@[j] == before@.update(i as int, true)[j] by {
                if j / 128 == k {
                    lemma_bit_single(before.limbs()[k as int], b, (j % 128) as u128);
                }
            }
            assert(self@ =~= before@.update(i as int, true));
        }
    }

    /// Clears bit `i`.
    pub fn clear(&mut self, i: usize)
        requires
            i < 128 * N,
        ensures
            final(self)@ == old(self)@.update(i as int, false),
    {
        let k = i / 128;
        let b = (i % 128) as u128;
        let ghost before = *self;
        self.data[k] = self.data[k] & !(1u128 << b);
        proof {
            assert forall|j: int| 0 <= j < 128 * N implies #[trigger] self@[j] == before@.update(i as int, false)[j] by {
                if j / 128 == k {
                    lemma_bit_single(before.limbs()[k as int], b, (j % 128) as u128);
                }
            }
            assert(self@ =~= before@.update(i as int, false));
        }
    }

    /// Whether no bit is set.
    pub open spec fn is_zero_spec(&self) -> bool {
        forall|i: int| 0 <= i < 128 * N ==> !(#[trigger] self@[i])
    }

    /// The sign of the comparison of the two sets read as numbers: the highest word where they
    /// differ decides, -1 when `self` is below, 1 when above, 0 when all words agree.
    pub open spec fn sign_against(self, other: Self) -> int {
        top_sign(self.limbs(), other.limbs(), N as int)
    }

    /// Compares the words from the highest down and gives the sign of the first difference.
    pub fn compare_words(&self, other: &Self) -> (r: i8)
        ensures
            r == self.sign_against(*other),
    {
        let mut i: usize = N;
        while i > 0
            invariant
                i <= N,
                self.limbs() == self.data@,
                other.limbs() == other.data@,
                self.data@.len() == N,
                other.data@.len() == N,
                forall|j: int| i <= j < N ==> self.data@[j] == other.data@[j],
            decreases i,
        {
            let x = self.data[i - 1];
            let y = other.data[i - 1];
            if x < y {
                proof {
                    lemma_top_sign_equal_above(self.data@, other.data@, i as int, N as int);
                }
                return -1;
            }
            if x > y {
                proof {
                    lemma_top_sign_equal_above(self.data@, other.data@, i as int, N as int);
                }
                return 1;
            }
            i = i - 1;
        }
        proof {
            lemma_top_sign_equal_above(self.data@, other.data@, 0, N as int);
        }
        0
    }

    /// Comparing the other way round gives the opposite sign, and the sign is zero exactly
    /// when the two sets have the same words.
    pub proof fn lemma_sign_antisymmetric(self, other: Self)
        ensures
            self.sign_against(other) == -other.sign_against(self),
            -1 <= self.sign_against(other) <= 1,
            self.sign_against(other) == 0 <==> self.limbs() == other.limbs(),
    {
        lemma_top_sign_swap(self.limbs(), other.limbs(), N as int);
        if self.sign_against(other) == 0 {
            lemma_top_sign_zero(self.limbs(), other.limbs(), N as int);
            assert(self.limbs() =~= other.limbs());
        }
        if self.limbs() == other.limbs() {
            lemma_top_sign_same(self.limbs(), N as int);
        }
    }

    /// Whether no bit is set.
    pub fn is_zero(&self) -> (r: bool)
        ensures
            r == self.is_zero_spec(),
    {
        let mut k: usize = 0;
        while k < N
            invariant
                k <= N,
                forall|i: int| 0 <= i < 128 * k ==> !(#[trigger] self@[i]),
            decreases N - k,
        {
            if self.data[k] != 0 {
                proof {
                    lemma_nonzero_has_bit(self.limbs()[k as int]);
                    let j = choose|j: u128| j < 128 && #[trigger] bit128(self.limbs()[k as int], j);
                    self.lemma_limb_bits(k as int);
                    assert(self@[128 * k + j as int] == word_bits(self.limbs()[k as int])[j as int]);
                }
                return false;
            }
            proof {
                assert forall|i: int| 0 <= i < 128 * (k + 1) implies !(#[trigger] self@[i]) by {
                    if i >= 128 * k {
                        assert(i / 128 == k);
                        lemma_bit_words(0, 0, (i % 128) as u128);
                    }
                }
            }
            k += 1;
        }
        true
    }

    /// The position of the lowest set bit, or `128 * N` when none is set.
    pub fn trailing_zeros(&self) -> (r: u32)
        requires
            N <= 0x100_0000,
        ensures
            r <= 128 * N,
            forall|j: int| 0 <= j < r ==> !(#[trigger] self@[j]),
            r < 128 * N ==> self@[r as int],
    {
        let mut offset: u32 = 0;
        let mut k: usize = 0;
        while k < N
            invariant
                k <= N,
                N <= 0x100_0000,
                offset == 128 * k,
                forall|j: int| 0 <= j < offset ==> !(#[trigger] self@[j]),
            decreases N - k,
        {
            let d = self.data[k];
            if d != 0 {
                let t = word_trailing_zeros(d);
                proof {
                    self.lemma_limb_bits(k as int);
                    assert(self@[128 * k + t as int] == word_bits(self.limbs()[k as int])[t as int]);
                    assert forall|j: int| 0 <= j < offset + t implies !(#[trigger] self@[j]) by {
                        if j >= offset {
                            assert(self@[128 * k + (j - 128 * k)] == word_bits(self.limbs()[k as int])[j - 128 * k]);
                        }
                    }
                }
                return offset + t;
            }
            proof {
                self.lemma_limb_bits(k as int);
                assert forall|j: int| 0 <= j < offset + 128 implies !(#[trigger] self@[j]) by {
                    if j >= offset {
                        assert(self@[128 * k + (j - 128 * k)] == word_bits(self.limbs()[k as int])[j - 128 * k]);
                        lemma_bit_words(0, 0, (j - 128 * k) as u128);
                    }
                }
            }
            offset += 128;
            k += 1;
        }
        offset
    }

    /// The number of unset bits above the highest set bit (`128 * N` when none is set).
    pub fn leading_zeros(&self) -> (r: u32)
        requires
            N <= 0x100_0000,
        ensures
            r <= 128 * N,
            forall|j: int| 128 * N - r <= j < 128 * N ==> !(#[trigger] self@[j]),
            r < 128 * N ==> self@[128 * N - 1 - r],
    {
        let mut offset: u32 = 0;
        let mut k: usize = N;
        while k > 0
            invariant
                k <= N,
                N <= 0x100_0000,
                offset == 128 * (N - k),
                forall|j: int| 128 * k <= j < 128 * N ==> !(#[trigger] self@[j]),
            decreases k,
        {
            let d = self.data[k - 1];
            if d != 0 {
                let t = word_leading_zeros(d);
                proof {
                    let kk = k - 1;
                    self.lemma_limb_bits(kk as int);
                    assert(self@[128 * kk + (127 - t)] == word_bits(self.limbs()[kk as int])[127 - t]);
                    assert forall|j: int| 128 * N - (offset + t) <= j < 128 * N implies !(#[trigger] self@[j]) by {
                        if j < 128 * k {
                            assert(self@[128 * kk + (j - 128 * kk)] == word_bits(self.limbs()[kk as int])[j - 128 * kk]);
                        }
                    }
                }
                return offset + t;
            }
            proof {
                let kk = k - 1;
                self.lemma_limb_bits(kk as int);
                assert forall|j: int| 128 * kk <= j < 128 * N implies !(#[trigger] self@[j]) by {
                    if j < 128 * k {
                        assert(self@[128 * kk + (j - 128 * kk)] == word_bits(self.limbs()[kk as int])[j - 128 * kk]);
                        lemma_bit_words(0, 0, (j - 128 * kk) as u128);
                    }
                }
            }
            offset += 128;
            k -= 1;
        }
        offset
    }

    /// The number of set bits.
    pub fn count_ones(&self) -> (r: u32)
        requires
            N <= 0x100_0000,
        ensures
            r == self.count_spec(0, 128 * N),
    {
        let mut res: u32 = 0;
        let mut k: usize = 0;
        while k < N
            invariant
                k <= N,
                N <= 0x100_0000,
                res == self.count_spec(0, 128 * k),
                self.count_spec(0, 128 * k) <= 128 * k,
            decreases N - k,
        {
            let c = word_count_ones(self.data[k]);
            proof {
                self.lemma_limb_count(k as int, 0, 128);
                lemma_ones_below(self.limbs()[k as int], 128);
                lemma_count_split(self@, 0, 128 * k, 128 * k + 128);
                lemma_count_bound(word_bits(self.limbs()[k as int]), 0, 128);
            }
            res = res + c;
            k += 1;
        }
        res
    }

    /// The number of set bits below position `i`.
    pub fn count_ones_lt(&self, i: usize) -> (r: u32)
        requires
            i < 128 * N,
            N <= 0x100_0000,
        ensures
            r == self.count_spec(0, i as int),
    {
        let q = i / 128;
        let mut res: u32 = 0;
        let mut k: usize = 0;
        while k < q
            invariant
                k <= q,
                q == i / 128,
                i < 128 * N,
                N <= 0x100_0000,
                res == self.count_spec(0, 128 * k),
                self.count_spec(0, 128 * k) <= 128 * k,
            decreases q - k,
        {
            let c = word_count_ones(self.data[k]);
            proof {
                self.lemma_limb_count(k as int, 0, 128);
                lemma_ones_below(self.limbs()[k as int], 128);
                lemma_count_split(self@, 0, 128 * k, 128 * k + 128);
                lemma_count_bound(word_bits(self.limbs()[k as int]), 0, 128);
            }
            res = res + c;
            k += 1;
        }
        let r = (i % 128) as u128;
        proof {
            lemma_bit_mask(r, 0);
        }
        let masked = self.data[q] & ((1u128 << r) - 1);
        let c = word_count_ones(masked);
        proof {
            let x = self.limbs()[q as int];
            lemma_ones_below(masked, 128);
            assert forall|j: int| 0 <= j < r implies #[trigger] word_bits(masked)[0 + j] == word_bits(x)[0 + j] by {
                lemma_bit_mask(r, j as u128);
                lemma_bit_words(x, ((1u128 << r) - 1) as u128, j as u128);
            }
            lemma_count_shift(word_bits(masked), word_bits(x), 0, 0, r as int);
            assert forall|j: int| r <= j < 128 implies !#[trigger] word_bits(masked)[j] by {
                lemma_bit_mask(r, j as u128);
                lemma_bit_words(x, ((1u128 << r) - 1) as u128, j as u128);
            }
            lemma_count_none(word_bits(masked), r as int, 128);
            lemma_count_split(word_bits(masked), 0, r as int, 128);
            self.lemma_limb_count(q as int, 0, r as int);
            lemma_count_split(self@, 0, 128 * q, 128 * q + r);
            lemma_count_bound(word_bits(x), 0, r as int);
        }
        res + c
    }

    /// The number of set bits above position `i`.
    pub fn count_ones_gt(&self, i: usize) -> (r: u32)
        requires
            i + 1 < 128 * N,
            N <= 0x100_0000,
        ensures
            r == self.count_spec(i + 1, 128 * N),
    {
        let q = (i + 1) / 128;
        let s = ((i + 1) % 128) as u128;
        let shifted = self.data[q] >> s;
        let mut res: u32 = word_count_ones(shifted);
        proof {
            let x = self.limbs()[q as int];
            lemma_ones_below(shifted, 128);
            let n = 128 - s;
            assert forall|j: int| 0 <= j < n implies #[trigger] word_bits(shifted)[0 + j] == word_bits(x)[s + j] by {
                lemma_bit_shift(x, s, j as u128);
            }
            lemma_count_shift(word_bits(shifted), word_bits(x), 0, s as int, n as int);
            assert forall|j: int| n <= j < 128 implies !#[trigger] word_bits(shifted)[j] by {
                lemma_bit_shift(x, s, j as u128);
            }
            lemma_count_none(word_bits(shifted), n as int, 128);
            lemma_count_split(word_bits(shifted), 0, n as int, 128);
            self.lemma_limb_count(q as int, s as int, 128);
            lemma_count_bound(word_bits(x), s as int, 128);
        }
        let mut k: usize = q + 1;
        while k < N
            invariant
                q < k <= N,
                q == (i + 1) / 128,
                i + 1 < 128 * N,
                N <= 0x100_0000,
                res == self.count_spec(i + 1, 128 * k),
                self.count_spec(i + 1, 128 * k) <= 128 * k - (i + 1),
            decreases N - k,
        {
            let c = word_count_ones(self.data[k]);
            proof {
                self.lemma_limb_count(k as int, 0, 128);
                lemma_ones_below(self.limbs()[k as int], 128);
                lemma_count_split(self@, i + 1, 128 * k, 128 * k + 128);
                lemma_count_bound(word_bits(self.limbs()[k as int]), 0, 128);
            }
            res = res + c;
            k += 1;
        }
        res
    }

    /// Bit `j` of this set shifted up by `rhs` positions.
    pub open spec fn shl_bit(self, rhs: int, j: int) -> bool {
        j >= rhs && self@[j - rhs]
    }

    /// Bit `j` of this set shifted down by `rhs` positions.
    pub open spec fn shr_bit(self, rhs: int, j: int) -> bool {
        j + rhs < 128 * N && self@[j + rhs]
    }

    /// The set shifted towards higher positions by `rhs`; bits shifted past the top are lost.
    pub fn shl(&self, rhs: usize) -> (res: Self)
        requires
            rhs / 128 <= N,
        ensures
            forall|j: int| 0 <= j < 128 * N ==> #[trigger] res@[j] == self.shl_bit(rhs as int, j),
    {
        let q = rhs / 128;
        let r = (rhs % 128) as u128;
        let mut res = Self::zero();
        let mut i: usize = 0;
        while i < N - q
            invariant
                q == rhs / 128,
                r == rhs % 128,
                q <= N,
                i <= N - q,
                forall|j: int| 0 <= j < 128 * (q + i) ==> #[trigger] res@[j] == self.shl_bit(rhs as int, j),
                forall|t: int| q + i <= t < N ==> res.limbs()[t] == 0,
            decreases N - q - i,
        {
            let lo = self.data[i] << r;
            let w = if i > 0 && r != 0 {
                lo | (self.data[i - 1] >> (128 - r))
            } else {
                lo
            };
            let ghost prev = res;
            let t = q + i;
            res.data[t] = w;
            proof {
                assert(res.limbs() == prev.limbs().update(t as int, w));
                assert forall|j: int| 0 <= j < 128 * (t + 1) implies #[trigger] res@[j] == self.shl_bit(rhs as int, j) by {
                    if j >= 128 * t {
                        let b = j - 128 * t;
                        res.lemma_limb_bits(t as int);
                        assert(res@[128 * t + b] == word_bits(w)[b]);
                        lemma_bit_shift(self.limbs()[i as int], r, b as u128);
                        if i > 0 && r != 0 {
                            lemma_bit_shift(self.limbs()[i - 1], (128 - r) as u128, b as u128);
                            lemma_bit_words(lo, self.limbs()[i - 1] >> ((128 - r) as u128), b as u128);
                        }
                        if b >= r {
                            self.lemma_limb_bits(i as int);
                            assert(self@[128 * i + (b - r)] == word_bits(self.limbs()[i as int])[b - r]);
                            assert(j - rhs == 128 * i + (b - r));
                        } else if i > 0 {
                            self.lemma_limb_bits(i - 1);
                            assert(self@[128 * (i - 1) + (b + 128 - r)] == word_bits(self.limbs()[i - 1])[b + 128 - r]);
                            assert(j - rhs == 128 * (i - 1) + (b + 128 - r));
                        }
                    } else {
                        assert(j / 128 < t);
                        assert(res@[j] == prev@[j]);
                    }
                }
            }
            i += 1;
        }
        res
    }

    /// The set shifted towards lower positions by `rhs`; bits shifted below zero are lost.
    pub fn shr(&self, rhs: usize) -> (res: Self)
        requires
            rhs / 128 <= N,
        ensures
            forall|j: int| 0 <= j < 128 * N ==> #[trigger] res@[j] == self.shr_bit(rhs as int, j),
    {
        let q = rhs / 128;
        let r = (rhs % 128) as u128;
        let mut res = Self::zero();
        let mut i: usize = 0;
        while i < N - q
            invariant
                q == rhs / 128,
                r == rhs % 128,
                q <= N,
                i <= N - q,
                forall|j: int| 0 <= j < 128 * i ==> #[trigger] res@[j] == self.shr_bit(rhs as int, j),
                forall|t: int| i <= t < N ==> res.limbs()[t] == 0,
            decreases N - q - i,
        {
            let hi = self.data[i + q] >> r;
            let w = if r != 0 && i + 1 + q < N {
                hi | (self.data[i + 1 + q] << (128 - r))
            } else {
                hi
            };
            let ghost prev = res;
            res.data[i] = w;
            proof {
                assert(res.limbs() == prev.limbs().update(i as int, w));
                assert forall|j: int| 0 <= j < 128 * (i + 1) implies #[trigger] res@[j] == self.shr_bit(rhs as int, j) by {
                    if j >= 128 * i {
                        let b = j - 128 * i;
                        res.lemma_limb_bits(i as int);
                        assert(res@[128 * i + b] == word_bits(w)[b]);
                        lemma_bit_shift(self.limbs()[i + q], r, b as u128);
                        if r != 0 && i + 1 + q < N {
                            lemma_bit_shift(self.limbs()[i + 1 + q], (128 - r) as u128, b as u128);
                            lemma_bit_words(hi, self.limbs()[i + 1 + q] << ((128 - r) as u128), b as u128);
                        }
                        if b + r < 128 {
                            self.lemma_limb_bits((i + q) as int);
                            assert(self@[128 * (i + q) + (b + r)] == word_bits(self.limbs()[i + q])[b + r]);
                            assert(j + rhs == 128 * (i + q) + (b + r));
                        } else if i + 1 + q < N {
                            self.lemma_limb_bits((i + 1 + q) as int);
                            assert(self@[128 * (i + 1 + q) + (b + r - 128)] == word_bits(self.limbs()[i + 1 + q])[b + r - 128]);
                            assert(j + rhs == 128 * (i + 1 + q) + (b + r - 128));
                        }
                    } else {
                        assert(j / 128 < i);
                        assert(res@[j] == prev@[j]);
                    }
                }
            }
            i += 1;
        }
        proof {
            assert forall|j: int| 0 <= j < 128 * N implies #[trigger] res@[j] == self.shr_bit(rhs as int, j) by {
                if j >= 128 * i {
                    assert(j / 128 >= i);
                    lemma_bit_words(0, 0, (j % 128) as u128);
                }
            }
        }
        res
    }

    /// The positions of the set bits, in increasing order.
    pub fn ones(&self) -> (r: Vec<u32>)
        requires
            N <= 0x100_0000,
        ensures
            forall|k: int| 0 <= k < r.len() ==> #[trigger] r@[k] < 128 * N && self@[r@[k] as int],
            forall|k: int, l: int| 0 <= k < l < r.len() ==> r@[k] < r@[l],
            forall|j: int| 0 <= j < 128 * N && #[trigger] self@[j] ==> r@.contains(j as u32),
    {
        let mut res: Vec<u32> = Vec::new();
        let mut m = *self;
        let ghost mut next: int = 0;
        while !m.is_zero()
            invariant
                N <= 0x100_0000,
                0 <= next <= 128 * N,
                forall|j: int| 0 <= j < 128 * N ==> #[trigger] m@[j] == (self@[j] && j >= next),
                forall|k: int| 0 <= k < res.len() ==> #[trigger] res@[k] < next && self@[res@[k] as int],
                forall|k: int, l: int| 0 <= k < l < res.len() ==> res@[k] < res@[l],
                forall|j: int| 0 <= j < next && #[trigger] self@[j] ==> res@.contains(j as u32),
            decreases 128 * N - next,
        {
            let y = m.trailing_zeros();
            proof {
                assert(y < 128 * N) by {
                    if y >= 128 * N {
                        assert forall|j: int| 0 <= j < 128 * N implies !(#[trigger] m@[j]) by {}
                    }
                }
                assert(y >= next) by {
                    if y < next {
                        assert(m@[y as int]);
                    }
                }
            }
            let ghost prev = res@;
            let ghost mm = m;
            res.push(y);
            m.clear(y as usize);
            proof {
                assert forall|j: int| 0 <= j < y && #[trigger] self@[j] implies res@.contains(j as u32) by {
                    if j < next {
                        let k = choose|k: int| 0 <= k < prev.len() && prev[k] == j as u32;
                        assert(res@[k] == j as u32);
                    } else {
                        assert(!mm@[j]);
                    }
                }
                assert(res@[res.len() - 1] == y);
                assert(res@.contains(y));
                next = y + 1;
            }
        }
        proof {
            assert forall|j: int| 0 <= j < 128 * N && #[trigger] self@[j] implies res@.contains(j as u32) by {
                if j >= next {
                    assert(m@[j]);
                }
            }
        }
        res
    }

    /// Bitwise union.
    pub fn or(&self, rhs: &Self) -> (r: Self)
        ensures
            forall|i: int| 0 <= i < 128 * N ==> #[trigger] r@[i] == (self@[i] || rhs@[i]),
    {
        let mut res = *self;
        let mut k: usize = 0;
        while k < N
            invariant
                k <= N,
                forall|t: int| 0 <= t < k ==> res.limbs()[t] == self.limbs()[t] | rhs.limbs()[t],
            decreases N - k,
        {
            let ghost prev = res;
            res.data[k] = self.data[k] | rhs.data[k];
            assert(res.limbs() == prev.limbs().update(k as int, self.limbs()[k as int] | rhs.limbs()[k as int]));
            k += 1;
        }
        proof {
            assert forall|i: int| 0 <= i < 128 * N implies #[trigger] res@[i] == (self@[i] || rhs@[i]) by {
                let t = i / 128;
                lemma_bit_words(self.limbs()[t], rhs.limbs()[t], (i % 128) as u128);
            }
        }
        res
    }

    /// Bitwise intersection.
    pub fn and(&self, rhs: &Self) -> (r: Self)
        ensures
            forall|i: int| 0 <= i < 128 * N ==> #[trigger] r@[i] == (self@[i] && rhs@[i]),
    {
        let mut res = *self;
        let mut k: usize = 0;
        while k < N
            invariant
                k <= N,
                forall|t: int| 0 <= t < k ==> res.limbs()[t] == self.limbs()[t] & rhs.limbs()[t],
            decreases N - k,
        {
            let ghost prev = res;
            res.data[k] = self.data[k] & rhs.data[k];
            assert(res.limbs() == prev.limbs().update(k as int, self.limbs()[k as int] & rhs.limbs()[k as int]));
            k += 1;
        }
        proof {
            assert forall|i: int| 0 <= i < 128 * N implies #[trigger] res@[i] == (self@[i] && rhs@[i]) by {
                let t = i / 128;
                lemma_bit_words(self.limbs()[t], rhs.limbs()[t], (i % 128) as u128);
            }
        }
        res
    }
}

pub proof fn lemma_count_bound(s: Seq<bool>, lo: int, hi: int)
    requires
        lo <= hi,
    ensures
        count_true(s, lo, hi) <= hi - lo,
    decreases hi - lo,
{
    if hi > lo {
        lemma_count_bound(s, lo, hi - 1);
    }
}

/// Compares the words `n - 1` down to `0` of two word sequences: -1 when the first is below at
/// the highest word where they differ, 1 when above, 0 when they agree on all of them.
pub open spec fn top_sign(a: Seq<u128>, b: Seq<u128>, n: int) -> int
    decreases n,
{
    if n <= 0 {
        0
    } else if a[n - 1] < b[n - 1] {
        -1
    } else if a[n - 1] > b[n - 1] {
        1
    } else {
        top_sign(a, b, n - 1)
    }
}

proof fn lemma_top_sign_equal_above(a: Seq<u128>, b: Seq<u128>, i: int, n: int)
    requires
        0 <= i <= n,
        forall|j: int| i <= j < n ==> a[j] == b[j],
    ensures
        top_sign(a, b, n) == top_sign(a, b, i),
    decreases n - i,
{
    if n > i {
        lemma_top_sign_equal_above(a, b, i, n - 1);
    }
}

proof fn lemma_top_sign_swap(a: Seq<u128>, b: Seq<u128>, n: int)
    ensures
        top_sign(a, b, n) == -top_sign(b, a, n),
        -1 <= top_sign(a, b, n) <= 1,
    decreases n,
{
    if n > 0 {
        lemma_top_sign_swap(a, b, n - 1);
    }
}

proof fn lemma_top_sign_zero(a: Seq<u128>, b: Seq<u128>, n: int)
    requires
        top_sign(a, b, n) == 0,
    ensures
        forall|j: int| 0 <= j < n ==> a[j] == b[j],
    decreases n,
{
    if n > 0 {
        lemma_top_sign_zero(a, b, n - 1);
    }
}

proof fn lemma_top_sign_same(a: Seq<u128>, n: int)
    ensures
        top_sign(a, a, n) == 0,
    decreases n,
{
    if n > 0 {
        lemma_top_sign_same(a, n - 1);
    }
}

} // verus!
