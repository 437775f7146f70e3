//! Bit and power-of-two arithmetic shared by the bitmaps and the geometry code.
use vstd::prelude::*;
use vstd::arithmetic::power2::*;
use vstd::arithmetic::div_mod::*;
use vstd::arithmetic::mul::*;
use vstd::bits::*;
use vstd::std_specs::bits::*;

verus! {

/// Bit `i` of the word `w`.
pub open spec fn bit(w: usize, i: int) -> bool {
    0 <= i < usize::BITS && (w >> (i as usize)) & 1usize == 1usize
}

/// Index of the lowest set bit of a word that has one.
pub open spec fn lowest_bit(w: usize) -> int {
    u64_trailing_zeros(w as u64) as int
}

/// The least power of two that is at least `n`.
pub open spec fn ceil_pow2(n: nat) -> nat
    decreases n,
{
    if n <= 1 {
        1
    } else {
        2 * ceil_pow2(((n + 1) / 2) as nat)
    }
}

/// The greatest power of two that is at most `n`, and 0 for 0.
pub open spec fn floor_pow2(n: nat) -> nat
    decreases n,
{
    if n <= 1 {
        n
    } else {
        2 * floor_pow2((n / 2) as nat)
    }
}

/// `n` rounded down to a multiple of `align`.
pub open spec fn round_down(n: int, align: int) -> int {
    n - n % align
}

/// `n` rounded up to a multiple of `align`.
pub open spec fn round_up(n: int, align: int) -> int {
    round_down(n + align - 1, align)
}

/// How many entries of `s` are `true`.
pub open spec fn count_true(s: Seq<bool>) -> nat
    decreases s.len(),
{
    if s.len() == 0 {
        0
    } else {
        count_true(s.drop_last()) + if s.last() { 1nat } else { 0nat }
    }
}

/// Setting and clearing bit `i` of a word changes that bit and no other.
pub proof fn lemma_bit_update(w: usize, i: usize)
    requires
        i < usize::BITS,
    ensures
        forall|j: int|
            0 <= j < usize::BITS ==> #[trigger] bit(w | (1usize << i), j) == (j == i || bit(w, j)),
        forall|j: int|
            0 <= j < usize::BITS ==> #[trigger] bit(w & !(1usize << i), j) == (j != i && bit(w, j)),
        (w & (1usize << i) != 0) == bit(w, i as int),
{
    assert forall|j: int| 0 <= j < usize::BITS implies #[trigger] bit(w | (1usize << i), j) == (j
        == i || bit(w, j)) by {
        let k = j as usize;
        assert(((w | (1usize << i)) >> k) & 1usize == 1usize <==> (k == i || (w >> k) & 1usize
            == 1usize)) by (bit_vector)
            requires
                i < usize::BITS,
                k < usize::BITS,
        ;
    }
    assert forall|j: int| 0 <= j < usize::BITS implies #[trigger] bit(w & !(1usize << i), j) == (j
        != i && bit(w, j)) by {
        let k = j as usize;
        assert(((w & !(1usize << i)) >> k) & 1usize == 1usize <==> (k != i && (w >> k) & 1usize
            == 1usize)) by (bit_vector)
            requires
                i < usize::BITS,
                k < usize::BITS,
        ;
    }
    assert((w & (1usize << i) != 0) <==> (w >> i) & 1usize == 1usize) by (bit_vector)
        requires
            i < usize::BITS,
    ;
}

/// A word of `n` low ones holds exactly the bits below `n`.
pub proof fn lemma_low_ones(n: usize)
    requires
        n < usize::BITS,
    ensures
        1usize << n >= 1,
        forall|j: int|
            0 <= j < usize::BITS ==> #[trigger] bit(((1usize << n) - 1) as usize, j) == (j < n),
{
    assert(1usize << n >= 1) by (bit_vector)
        requires
            n < usize::BITS,
    ;
    let m = ((1usize << n) - 1) as usize;
    assert forall|j: int| 0 <= j < usize::BITS implies #[trigger] bit(m, j) == (j < n) by {
        let k = j as usize;
        assert((m >> k) & 1usize == 1usize <==> k < n) by (bit_vector)
            requires
                n < usize::BITS,
                k < usize::BITS,
                m == ((1usize << n) - 1) as usize,
        ;
    }
}

/// The all-ones word holds every bit, and the zero word holds none.
pub proof fn lemma_constant_words()
    ensures
        forall|j: int| 0 <= j < usize::BITS ==> #[trigger] bit(usize::MAX, j),
        forall|j: int| !(#[trigger] bit(0usize, j)),
{
    let max = usize::MAX;
    assert(max <= !0usize) by (bit_vector);
    assert forall|j: int| 0 <= j < usize::BITS implies #[trigger] bit(usize::MAX, j) by {
        let k = j as usize;
        assert((max >> k) & 1usize == 1usize) by (bit_vector)
            requires
                k < usize::BITS,
                max == !0usize,
        ;
    }
    assert forall|j: int| !(#[trigger] bit(0usize, j)) by {
        let k = j as usize;
        assert((0usize >> k) & 1usize == 0usize) by (bit_vector);
    }
}

/// The lowest set bit of a word that is not zero.
pub proof fn lemma_lowest_bit(w: usize)
    ensures
        w == 0 <==> lowest_bit(w) == 64,
        w != 0 ==> 0 <= lowest_bit(w) < usize::BITS && bit(w, lowest_bit(w)),
        forall|j: int| 0 <= j < lowest_bit(w) ==> !(#[trigger] bit(w, j)),
{
    let wide = w as u64;
    axiom_u64_trailing_zeros(wide);
    let z = u64_trailing_zeros(wide);
    if w != 0 {
        let k = z as u64;
        assert((wide >> k) & 1u64 == 1u64);
        if usize::BITS == 32 {
            assert(k < 32) by (bit_vector)
                requires
                    (wide >> k) & 1u64 == 1u64,
                    wide <= 0xffff_ffffu64,
                    k < 64,
            ;
        }
    }
    assert forall|j: int| 0 <= j < z implies !(#[trigger] bit(w, j)) by {
        let k = j as u64;
        assert((wide >> k) & 1u64 == 0u64);
    }
}

/// Powers of two are positive, double with the exponent, and grow with it.
pub proof fn lemma_pow2_step(k: nat)
    ensures
        pow2(0) == 1,
        pow2(k) > 0,
        pow2(k + 1) == 2 * pow2(k),
{
    lemma2_to64();
    lemma_pow2_pos(k);
    lemma_pow2_unfold(k + 1);
}

/// Monotonicity of powers of two.
pub proof fn lemma_pow2_le(a: nat, b: nat)
    requires
        a <= b,
    ensures
        pow2(a) <= pow2(b),
{
    if a < b {
        lemma_pow2_strictly_increases(a, b);
    }
}

/// Two powers of two are equal only for equal exponents.
pub proof fn lemma_pow2_injective(a: nat, b: nat)
    requires
        pow2(a) == pow2(b),
    ensures
        a == b,
{
    if a < b {
        lemma_pow2_strictly_increases(a, b);
    } else if b < a {
        lemma_pow2_strictly_increases(b, a);
    }
}

/// A power of two has an exponent.
pub proof fn lemma_exponent(n: int) -> (k: nat)
    requires
        is_pow2(n),
    ensures
        pow2(k) == n,
{
    is_pow2_equiv(n);
    let k = choose|i: nat| vstd::arithmetic::power::pow(2, i) == n;
    lemma_pow2(k);
    k
}

/// Every `pow2` value is a power of two.
pub proof fn lemma_pow2_is_pow2(k: nat)
    ensures
        is_pow2(pow2(k) as int),
{
    lemma_pow2(k);
    lemma_pow2_pos(k);
    is_pow2_equiv(pow2(k) as int);
}

/// An exponent below the word width, from a power of two that fits the word.
pub proof fn lemma_exponent_bound(k: nat)
    requires
        pow2(k) <= usize::MAX,
    ensures
        k < usize::BITS,
        k < 64,
{
    if k >= usize::BITS {
        lemma_pow2_le(usize::BITS as nat, k);
        lemma2_to64();
    }
}

/// What `ceil_pow2` is: a power of two, not below `n`, and the least such.
pub proof fn lemma_ceil_pow2(n: nat)
    ensures
        is_pow2(ceil_pow2(n) as int),
        n <= ceil_pow2(n),
        n >= 1 ==> ceil_pow2(n) < 2 * n,
        forall|p: int| #[trigger] is_pow2(p) && n <= p ==> ceil_pow2(n) <= p,
    decreases n,
{
    reveal(is_pow2);
    if n > 1 {
        let h = ((n + 1) / 2) as nat;
        lemma_ceil_pow2(h);
        assert forall|p: int| #[trigger] is_pow2(p) && n <= p implies ceil_pow2(n) <= p by {
            assert(is_pow2(p / 2));
            assert(h <= p / 2);
        }
    }
}

/// A power of two is its own ceiling.
pub proof fn lemma_ceil_pow2_fixed(n: nat)
    requires
        is_pow2(n as int),
    ensures
        ceil_pow2(n) == n,
{
    lemma_ceil_pow2(n);
}

/// What `floor_pow2` is for positive `n`: a power of two, not above `n`, and
/// the greatest such.
pub proof fn lemma_floor_pow2(n: nat)
    requires
        n >= 1,
    ensures
        is_pow2(floor_pow2(n) as int),
        floor_pow2(n) <= n,
        n < 2 * floor_pow2(n),
        forall|p: int| #[trigger] is_pow2(p) && p <= n ==> p <= floor_pow2(n),
    decreases n,
{
    reveal(is_pow2);
    if n > 1 {
        let h = (n / 2) as nat;
        lemma_floor_pow2(h);
        assert forall|p: int| #[trigger] is_pow2(p) && p <= n implies p <= floor_pow2(n) by {
            if p > 1 {
                assert(is_pow2(p / 2));
            }
        }
    }
}

/// Masking with a power of two less one is the remainder.
pub proof fn lemma_mask_is_mod(x: usize, align: usize)
    requires
        is_pow2(align as int),
    ensures
        align >= 1,
        x & ((align - 1) as usize) == x % align,
        x & !((align - 1) as usize) == x - x % align,
{
    let k = lemma_exponent(align as int);
    lemma_pow2_pos(k);
    lemma_exponent_bound(k);
    lemma_usize_low_bits_mask_is_mod(x, k);
    let m = (align - 1) as usize;
    assert(low_bits_mask(k) == align - 1);
    assert((x & !m) as int == x as int - (x & m) as int) by (bit_vector);
}

/// Rounding down to a multiple.
pub proof fn lemma_round_down(n: int, align: int)
    requires
        align > 0,
    ensures
        round_down(n, align) % align == 0,
        round_down(n, align) <= n < round_down(n, align) + align,
        n >= 0 ==> round_down(n, align) >= 0,
{
    lemma_fundamental_div_mod(n, align);
    lemma_mod_bound(n, align);
    lemma_mod_multiples_basic(n / align, align);
    lemma_mul_is_commutative(n / align, align);
    if n >= 0 {
        lemma_div_pos_is_pos(n, align);
        lemma_mul_nonnegative(align, n / align);
    }
}

/// Updating one entry moves the count by one.
pub proof fn lemma_count_update(s: Seq<bool>, i: int, v: bool)
    requires
        0 <= i < s.len(),
    ensures
        count_true(s.update(i, v)) == count_true(s) - (if s[i] {
            1int
        } else {
            0int
        }) + (if v {
            1int
        } else {
            0int
        }),
    decreases s.len(),
{
    let t = s.update(i, v);
    if i == s.len() - 1 {
        assert(t.drop_last() =~= s.drop_last());
    } else {
        assert(t.drop_last() =~= s.drop_last().update(i, v));
        lemma_count_update(s.drop_last(), i, v);
    }
}

/// A count is at most the length, reaches it when everything is true, and is 0
/// when nothing is.
pub proof fn lemma_count_bounds(s: Seq<bool>)
    ensures
        count_true(s) <= s.len(),
        (forall|i: int| 0 <= i < s.len() ==> s[i]) ==> count_true(s) == s.len(),
        (forall|i: int| 0 <= i < s.len() ==> !s[i]) ==> count_true(s) == 0,
        count_true(s) == 0 ==> (forall|i: int| 0 <= i < s.len() ==> !s[i]),
        count_true(s) == s.len() ==> (forall|i: int| 0 <= i < s.len() ==> s[i]),
    decreases s.len(),
{
    if s.len() > 0 {
        let d = s.drop_last();
        lemma_count_bounds(d);
        assert(forall|i: int| 0 <= i < d.len() ==> d[i] == s[i]);
        assert(s.last() == s[s.len() - 1]);
    }
}

/// Setting a run of entries that were all the other way moves the count by the
/// length of the run.
pub proof fn lemma_count_range(s: Seq<bool>, t: Seq<bool>, lo: int, hi: int, v: bool)
    requires
        0 <= lo <= hi <= s.len(),
        t.len() == s.len(),
        forall|i: int| lo <= i < hi ==> #[trigger] s[i] == !v,
        forall|i: int|
            0 <= i < s.len() ==> #[trigger] t[i] == if lo <= i < hi {
                v
            } else {
                s[i]
            },
    ensures
        count_true(t) == count_true(s) + if v {
            hi - lo
        } else {
            lo - hi
        },
    decreases hi - lo,
{
    if lo == hi {
        assert(t =~= s);
    } else {
        let mid = t.update(hi - 1, s[hi - 1]);
        lemma_count_range(s, mid, lo, hi - 1, v);
        lemma_count_update(mid, hi - 1, v);
        assert(mid.update(hi - 1, v) =~= t);
    }
}

/// Whether `n` is a power of two.
pub fn is_power_of_two(n: usize) -> (r: bool)
    ensures
        r == is_pow2(n as int),
{
    if n == 0 {
        proof {
            reveal(is_pow2);
        }
        return false;
    }
    proof {
        lemma_single_bit(n);
    }
    n & (n - 1) == 0
}

proof fn lemma_single_bit(n: usize)
    requires
        n > 0,
    ensures
        (n & ((n - 1) as usize) == 0) == is_pow2(n as int),
    decreases n,
{
    reveal(is_pow2);
    let h = n / 2;
    if n == 1 {
        assert(1usize & 0usize == 0) by (bit_vector);
    } else {
        lemma_single_bit(h);
        assert(n % 2 == 1 && n > 1 ==> n & ((n - 1) as usize) != 0) by (bit_vector);
        assert(n % 2 == 0 && n > 1 ==> (n & ((n - 1) as usize) == 0) == (h & ((h - 1) as usize)
            == 0)) by (bit_vector)
            requires
                h == n / 2,
        ;
    }
}

/// The least power of two not below `n`, or `None` when it does not fit.
pub fn checked_next_power_of_two(n: usize) -> (r: Option<usize>)
    ensures
        match r {
            Some(p) => {
                &&& p == ceil_pow2(n as nat)
                &&& is_pow2(p as int)
                &&& n <= p
                &&& n >= 1 ==> p < 2 * n
                &&& n == 0 ==> p == 1
            },
            None => {
                &&& ceil_pow2(n as nat) > usize::MAX
                &&& forall|q: int| #[trigger] is_pow2(q) && n <= q ==> q > usize::MAX
            },
        },
{
    let mut p: usize = 1;
    proof {
        reveal(is_pow2);
        lemma_ceil_pow2(n as nat);
    }
    while p < n
        invariant
            is_pow2(p as int),
            p <= ceil_pow2(n as nat),
            is_pow2(ceil_pow2(n as nat) as int),
            n <= ceil_pow2(n as nat),
            forall|q: int| #[trigger] is_pow2(q) && n <= q ==> ceil_pow2(n as nat) <= q,
        decreases 2 * n - p,
    {
        proof {
            reveal(is_pow2);
            lemma_next_pow2_gap(p as int, ceil_pow2(n as nat) as int);
        }
        if p > usize::MAX / 2 {
            return None;
        }
        p = p * 2;
    }
    Some(p)
}

/// Between two distinct powers of two lies at least a doubling.
pub proof fn lemma_next_pow2_gap(p: int, q: int)
    requires
        is_pow2(p),
        is_pow2(q),
        p < q,
    ensures
        2 * p <= q,
        is_pow2(2 * p),
{
    reveal(is_pow2);
    let a = lemma_exponent(p);
    let b = lemma_exponent(q);
    if b <= a {
        lemma_pow2_le(b, a);
    }
    lemma_pow2_step(a);
    lemma_pow2_le(a + 1, b);
}

/// The exponent of a power of two.
pub fn log2(n: usize) -> (r: usize)
    requires
        is_pow2(n as int),
    ensures
        pow2(r as nat) == n,
        r < usize::BITS,
{
    proof {
        let k = lemma_exponent(n as int);
        lemma_exponent_bound(k);
        let i = k as usize;
        lemma_usize_shl_is_mul(1, i);
        assert(n == 1usize << i);
        lemma_lowest_bit(n);
        lemma_bit_update(0, i);
        lemma_constant_words();
        assert(0usize | (1usize << i) == 1usize << i) by (bit_vector);
        assert(bit(n, k as int));
    }
    (n as u64).trailing_zeros() as usize
}

/// The greatest power of two not above `n`; 0 for 0.
pub fn prev_power_of_two(n: usize) -> (r: usize)
    ensures
        r == floor_pow2(n as nat),
        n == 0 ==> r == 0,
        n > 0 ==> is_pow2(r as int) && r <= n < 2 * r,
{
    if n == 0 {
        return 0;
    }
    let mut p: usize = 1;
    proof {
        reveal(is_pow2);
        lemma_floor_pow2(n as nat);
    }
    while p <= n / 2
        invariant
            n >= 1,
            is_pow2(p as int),
            p <= n,
        decreases n - p,
    {
        proof {
            reveal(is_pow2);
        }
        p = p * 2;
    }
    proof {
        lemma_floor_pow2(n as nat);
        let f = floor_pow2(n as nat) as int;
        if p < f {
            lemma_next_pow2_gap(p as int, f);
        }
    }
    p
}

/// `val` rounded down to a multiple of the power of two `align`.
pub fn align_down(val: usize, align: usize) -> (r: usize)
    requires
        is_pow2(align as int),
    ensures
        r == round_down(val as int, align as int),
        r % align == 0,
        r <= val < r + align,
{
    proof {
        lemma_mask_is_mod(val, align);
        lemma_round_down(val as int, align as int);
    }
    val & !(align - 1)
}

/// `value` rounded up to a multiple of the power of two `alignment`, or `None`
/// when the intermediate sum does not fit.
pub fn align_up(value: usize, alignment: usize) -> (r: Option<usize>)
    requires
        is_pow2(alignment as int),
    ensures
        match r {
            Some(v) => {
                &&& v == round_up(value as int, alignment as int)
                &&& value + alignment - 1 <= usize::MAX
                &&& v % alignment == 0
                &&& value <= v < value + alignment
            },
            None => value + alignment - 1 > usize::MAX,
        },
{
    proof {
        lemma_mask_is_mod(value, alignment);
    }
    match value.checked_add(alignment - 1) {
        None => None,
        Some(rounded) => {
            proof {
                lemma_mask_is_mod(rounded, alignment);
                lemma_round_down(rounded as int, alignment as int);
            }
            Some(rounded & !(alignment - 1))
        },
    }
}

/// Rounding up to a power of two gives the least one that is large enough.
pub proof fn law_rounding_up_is_tight(n: nat, p: int)
    ensures
        is_pow2(ceil_pow2(n) as int),
        n <= ceil_pow2(n),
        n >= 1 ==> ceil_pow2(n) < 2 * n,
        is_pow2(p) && n <= p ==> ceil_pow2(n) <= p,
{
    lemma_ceil_pow2(n);
}

/// Rounding down to a power of two gives the greatest one that is no larger.
pub proof fn law_rounding_down_is_tight(n: nat, p: int)
    ensures
        n == 0 ==> floor_pow2(n) == 0,
        n > 0 ==> is_pow2(floor_pow2(n) as int) && floor_pow2(n) <= n < 2 * floor_pow2(n),
        n > 0 && is_pow2(p) && p <= n ==> p <= floor_pow2(n),
{
    if n > 0 {
        lemma_floor_pow2(n);
    }
}

/// Aligning moves a number to the multiple next to it, and never past one.
pub proof fn law_aligning_finds_the_next_multiple(n: int, align: int)
    requires
        align > 0,
    ensures
        round_down(n, align) % align == 0,
        round_down(n, align) <= n < round_down(n, align) + align,
        round_up(n, align) % align == 0,
        n <= round_up(n, align) < n + align,
{
    lemma_round_down(n, align);
    lemma_round_down(n + align - 1, align);
}

/// A count grows by one with each entry that holds, and by nothing else.
pub proof fn law_counting_is_by_entry(s: Seq<bool>, t: Seq<bool>, v: bool)
    ensures
        count_true(Seq::<bool>::empty()) == 0,
        count_true(s.push(v)) == count_true(s) + if v {
            1int
        } else {
            0int
        },
        count_true(s + t) == count_true(s) + count_true(t),
    decreases t.len(),
{
    assert(s.push(v).drop_last() =~= s);
    if t.len() == 0 {
        assert(s + t =~= s);
    } else {
        law_counting_is_by_entry(s, t.drop_last(), v);
        assert((s + t).drop_last() =~= s + t.drop_last());
    }
}

} // verus!
