//! Cursor arithmetic: distances between wrapping cursors, ring positions and
//! power-of-two capacities.

use vstd::arithmetic::div_mod::{
    lemma_fundamental_div_mod, lemma_fundamental_div_mod_converse, lemma_mod_bound,
};
use vstd::arithmetic::power::pow;
use vstd::arithmetic::power2::{
    is_pow2, is_pow2_equiv, lemma2_to64, lemma_pow2_pos, lemma_pow2_strictly_increases, pow2,
};
use vstd::bits::{lemma_u64_low_bits_mask_is_mod, low_bits_mask};
use vstd::prelude::*;

verus! {

/// How far `write` is ahead of `read` on the circle of 64-bit cursors.
pub open spec fn lag(write: u64, read: u64) -> nat {
    if write >= read {
        (write - read) as nat
    } else {
        (write - read + 0x1_0000_0000_0000_0000) as nat
    }
}

/// How far `write` is ahead of `read` on the circle of word-sized cursors.
pub open spec fn lag_usize(write: usize, read: usize) -> nat {
    if write >= read {
        (write - read) as nat
    } else {
        (write - read + usize::MAX + 1) as nat
    }
}

/// The largest capacity of a ring: an allocation never exceeds half of the
/// address space.
pub const MAX_CAPACITY: usize = usize::MAX / 4 + 1;

/// A capacity that a ring can have: a power of two within [`MAX_CAPACITY`].
pub open spec fn ring_capacity(capacity: int) -> bool {
    &&& is_pow2(capacity)
    &&& 0 < capacity <= MAX_CAPACITY
}

/// The largest cursor: a ring carries fewer units than this in its lifetime,
/// so that sums of a cursor and two capacities, and twice a cursor, stay
/// within 64 bits. Gating relies on it too: the producer's copy of the cursor
/// of a slot that was given up is kept, and ages with every unit. Once cursors
/// had wrapped it could be taken for a position ahead of the consumer that has
/// the slot next.
pub const MAX_CURSOR: u64 = u64::MAX / 2 - 1;

/// A power of two that fits a `u64` is one of the 64 single-bit words.
pub proof fn lemma_pow2_exponent(c: u64) -> (k: nat)
    requires
        is_pow2(c as int),
        c > 0,
    ensures
        k < 64,
        c == pow2(k),
{
    is_pow2_equiv(c as int);
    let k = choose|k: nat| pow(2, k) == c as int;
    lemma_pow2_pos(k);
    lemma2_to64();
    if k >= 64 {
        if k > 64 {
            lemma_pow2_strictly_increases(64, k);
        }
    }
    k
}

/// Masking with `capacity - 1` is the remainder by `capacity`.
pub proof fn lemma_mask_is_mod(x: u64, mask: u64)
    requires
        is_pow2(mask + 1),
        mask < u64::MAX,
    ensures
        x & mask == x as int % (mask + 1),
{
    let k = lemma_pow2_exponent((mask + 1) as u64);
    lemma_u64_low_bits_mask_is_mod(x, k);
    assert(low_bits_mask(k) == mask);
}

/// The position of a cursor in a ring: `cursor & mask`.
pub fn slot_index(cursor: u64, mask: u64) -> (index: usize)
    requires
        ring_capacity(mask + 1),
    ensures
        index == cursor as int % (mask + 1),
        index <= mask,
{
    proof {
        lemma_mask_is_mod(cursor, mask);
        lemma_mod_bound(cursor as int, mask + 1);
    }
    (cursor & mask) as usize
}

/// Two positions closer than one lap never share a slot.
pub proof fn lemma_distinct_slots(a: int, b: int, capacity: int)
    requires
        0 <= a < b < a + capacity,
    ensures
        a % capacity != b % capacity,
{
    lemma_fundamental_div_mod(a, capacity);
    lemma_fundamental_div_mod(b, capacity);
    lemma_mod_bound(a, capacity);
    lemma_mod_bound(b, capacity);
    if a % capacity == b % capacity {
        let q: int = b / capacity - a / capacity;
        assert(b - a == capacity * q) by (nonlinear_arith)
            requires
                a == capacity * (a / capacity) + a % capacity,
                b == capacity * (b / capacity) + b % capacity,
                a % capacity == b % capacity,
                q == b / capacity - a / capacity,
        ;
        assert(false) by (nonlinear_arith)
            requires
                b - a == capacity * q,
                0 < b - a < capacity,
        ;
    }
}

/// One lap later a cursor is back at the same slot.
pub proof fn lemma_next_lap(a: int, capacity: int)
    requires
        capacity > 0,
        a >= capacity,
    ensures
        (a - capacity) % capacity == a % capacity,
{
    lemma_fundamental_div_mod(a - capacity, capacity);
    lemma_mod_bound(a - capacity, capacity);
    assert(a == ((a - capacity) / capacity + 1) * capacity + (a - capacity) % capacity)
        by (nonlinear_arith)
        requires
            a - capacity == capacity * ((a - capacity) / capacity) + (a - capacity) % capacity,
    ;
    lemma_fundamental_div_mod_converse(
        a,
        capacity,
        (a - capacity) / capacity + 1,
        (a - capacity) % capacity,
    );
}

/// The smallest power of two that is at least `n`.
pub open spec fn is_next_pow2(n: int, p: int) -> bool {
    &&& is_pow2(p)
    &&& n <= p
    &&& forall|q: int| #[trigger] is_pow2(q) && n <= q ==> p <= q
}

/// The next power of two at or above `n`.
pub open spec fn next_pow2(n: int) -> int
    decreases n,
{
    if n <= 1 {
        1
    } else {
        2 * next_pow2((n + 1) / 2)
    }
}

/// `next_pow2` is the least power of two that is not below its argument.
pub proof fn lemma_next_pow2(n: int)
    ensures
        is_next_pow2(n, next_pow2(n)),
    decreases n,
{
    reveal(is_pow2);
    if n <= 1 {
        assert forall|q: int| #[trigger] is_pow2(q) && n <= q implies 1 <= q by {}
    } else {
        let m: int = (n + 1) / 2;
        lemma_next_pow2(m);
        let p: int = next_pow2(m);
        assert((2 * p) / 2 == p);
        assert forall|q: int| #[trigger] is_pow2(q) && n <= q implies 2 * p <= q by {
            assert(is_pow2(q / 2));
            assert(m <= q / 2);
        }
    }
}

/// Rounding up keeps every bound that is itself a power of two.
pub proof fn lemma_next_pow2_bounded(n: int, bound: int)
    requires
        n <= bound,
        is_pow2(bound),
    ensures
        next_pow2(n) <= bound,
{
    lemma_next_pow2(n);
}

/// The largest capacity is a power of two on every supported word size.
pub proof fn lemma_max_capacity()
    ensures
        ring_capacity(MAX_CAPACITY as int),
        is_pow2(usize::MAX / 2 + 1),
{
    lemma2_to64();
    vstd::arithmetic::power2::lemma2_to64_rest();
    is_pow2_equiv(0x4000_0000);
    is_pow2_equiv(0x8000_0000);
    is_pow2_equiv(0x4000_0000_0000_0000);
    is_pow2_equiv(0x8000_0000_0000_0000);
    vstd::arithmetic::power2::lemma_pow2(30);
    vstd::arithmetic::power2::lemma_pow2(31);
    vstd::arithmetic::power2::lemma_pow2(62);
    vstd::arithmetic::power2::lemma_pow2(63);
}

/// Whether `n` is a power of two.
pub fn power_of_two(n: u64) -> (r: bool)
    ensures
        r == is_pow2(n as int),
{
    let mut m: u64 = n;
    while m > 1 && m % 2 == 0
        invariant
            is_pow2(m as int) == is_pow2(n as int),
        decreases m,
    {
        proof {
            reveal(is_pow2);
        }
        m = m / 2;
    }
    proof {
        reveal(is_pow2);
    }
    m == 1
}

/// A power of two from eight on is a multiple of eight.
pub proof fn lemma_eighths(n: int)
    requires
        is_pow2(n),
        n >= 8,
    ensures
        n % 8 == 0,
        is_pow2(n / 8),
{
    reveal(is_pow2);
    assert(is_pow2(n / 2));
    assert(is_pow2(n / 2 / 2));
    assert(is_pow2(n / 2 / 2 / 2));
    assert(n / 2 / 2 / 2 == n / 8);
}

} // verus!
