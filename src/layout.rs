//! Sizes, alignments and buffers handed between the allocator and the
//! platform's native allocator.
use vstd::prelude::*;
use vstd::arithmetic::div_mod::{
    lemma_fundamental_div_mod, lemma_mod_multiples_basic, lemma_mod_self_0, lemma_mul_mod_noop_right,
    lemma_small_mod,
};

verus! {

/// Width in bytes of a machine address: no slot is narrower.
pub const WORD_SIZE: usize = 8;

/// Largest size a single allocation may span (`isize::MAX`).
pub const MAX_SIZE: usize = usize::MAX / 2;

/// Powers of two: 1, 2, 4, ...
pub open spec fn is_pow2(n: int) -> bool
    decreases n,
{
    if n <= 0 {
        false
    } else if n == 1 {
        true
    } else {
        n % 2 == 0 && is_pow2(n / 2)
    }
}

/// The least power of two that is at least `n`.
pub open spec fn is_next_pow2(n: int, p: int) -> bool {
    &&& is_pow2(p)
    &&& n <= p
    &&& (p == 1 || p / 2 < n)
}

pub proof fn lemma_pow2_double(p: int)
    requires
        is_pow2(p),
    ensures
        is_pow2(2 * p),
        (2 * p) / 2 == p,
{
    assert((2 * p) / 2 == p);
    assert((2 * p) % 2 == 0);
}

/// The next power of two at or above `n`, or `None` when it does not fit in
/// `usize`.
pub fn checked_next_pow2(n: usize) -> (r: Option<usize>)
    ensures
        match r {
            Some(p) => is_next_pow2(n as int, p as int),
            None => forall|p: int| #![auto] is_next_pow2(n as int, p) ==> p > usize::MAX,
        },
{
    let mut p: usize = 1;
    while p < n
        invariant
            is_pow2(p as int),
            p == 1 || p / 2 < n,
        decreases usize::MAX - p,
    {
        if p > usize::MAX / 2 {
            proof {
                assert forall|q: int| #![auto] is_next_pow2(n as int, q) implies q > usize::MAX by {
                    lemma_pow2_above(p as int, q);
                }
            }
            return None;
        }
        proof {
            lemma_pow2_double(p as int);
        }
        p = p * 2;
    }
    Some(p)
}

/// Between two powers of two, the larger is a multiple of two of the smaller.
pub proof fn lemma_pow2_above(p: int, q: int)
    requires
        is_pow2(p),
        is_pow2(q),
        p < q,
    ensures
        2 * p <= q,
    decreases q,
{
    if q == 1 {
    } else if p == 1 {
    } else {
        lemma_pow2_above(p / 2, q / 2);
    }
}

/// Two least powers of two at or above the same number are equal.
pub proof fn lemma_next_pow2_unique(n: int, p: int, q: int)
    requires
        is_next_pow2(n, p),
        is_next_pow2(n, q),
    ensures
        p == q,
{
    if p < q {
        lemma_pow2_above(p, q);
    } else if q < p {
        lemma_pow2_above(q, p);
    }
}

/// A power of two divides every power of two at or above it.
pub proof fn lemma_pow2_divides(p: int, q: int)
    requires
        is_pow2(p),
        is_pow2(q),
        p <= q,
    ensures
        q % p == 0,
    decreases q,
{
    if p == q {
        lemma_mod_self_0(p);
    } else {
        lemma_pow2_above(p, q);
        lemma_pow2_divides(p, q / 2);
        assert(q % 2 == 0);
        lemma_mul_mod_noop_right(2, q / 2, p);
        assert(2 * (q / 2) == q);
        lemma_small_mod(0, p as nat);
        assert((2 * 0int) % p == 0);
    }
}

/// A multiple of `a` is a multiple of every divisor of `a`.
pub proof fn lemma_multiple_of_divisor(x: int, a: int, s: int)
    requires
        s > 0,
        a > 0,
        x % a == 0,
        a % s == 0,
    ensures
        x % s == 0,
{
    lemma_fundamental_div_mod(x, a);
    lemma_fundamental_div_mod(a, s);
    let k = x / a;
    let j = a / s;
    assert(x == (j * k) * s) by (nonlinear_arith)
        requires
            x == a * k,
            a == s * j,
    ;
    lemma_mod_multiples_basic(j * k, s);
}

/// A request made to the native allocator: `size` bytes aligned to `align`.
#[derive(Clone, Copy, Debug, PartialEq, Eq, Structural)]
pub struct BufferLayout {
    pub size: usize,
    pub align: usize,
}

impl BufferLayout {
    /// A layout the native allocator accepts: a power-of-two alignment, a
    /// non-zero size, and the size rounded up to the alignment within
    /// `MAX_SIZE`.
    pub open spec fn is_valid(self) -> bool {
        &&& is_pow2(self.align as int)
        &&& 0 < self.size <= MAX_SIZE
        &&& self.align <= MAX_SIZE
    }
}

/// `base` can start a buffer of layout `l`: non-null, aligned as `l`
/// asks, and with room for the buffer below the top of the address space.
pub open spec fn is_usable_base(l: BufferLayout, base: int) -> bool {
    &&& base >= 1
    &&& base + l.size <= usize::MAX
    &&& base % (l.align as int) == 0
}

/// A buffer obtained from the native allocator: its first address and the
/// layout it was requested with.
#[derive(Clone, Copy, Debug, PartialEq, Eq, Structural)]
pub struct Buffer {
    pub base: usize,
    pub layout: BufferLayout,
}

} // verus!
