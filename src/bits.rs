use vstd::prelude::*;

verus! {

/// The number of set bits of `x`.
pub open spec fn popcount(x: u64) -> nat
    decreases x,
{
    if x == 0 {
        0
    } else {
        (x % 2) as nat + popcount(x / 2)
    }
}

/// Whether bit `i` of `x` is set.
pub open spec fn bit_set(x: u64, i: u64) -> bool {
    (x >> i) & 1 == 1
}

/// The integer square root: the largest `r` with `r * r <= x`.
pub open spec fn spec_isqrt(x: u64) -> int
    recommends
        x < 0x400_0000_0000,
{
    choose|r: int| 0 <= r && #[trigger] square(r) <= x < square(r + 1)
}

pub open spec fn square(r: int) -> int {
    r * r
}

/// Computes the integer square root.
pub fn isqrt(x: u64) -> (r: u64)
    requires
        x < 0x400_0000_0000,
    ensures
        r * r <= x < (r + 1) * (r + 1),
        r == spec_isqrt(x),
        r <= 0x20_0000,
{
    let mut lo: u64 = 0;
    let mut hi: u64 = 0x20_0000;
    assert(hi * hi == 0x400_0000_0000) by (nonlinear_arith)
        requires
            hi == 0x20_0000,
    ;
    while hi - lo > 1
        invariant
            lo < hi <= 0x20_0000,
            lo * lo <= x < hi * hi,
        decreases hi - lo,
    {
        let mid = lo + (hi - lo) / 2;
        assert(mid * mid <= 0x400_0000_0000) by (nonlinear_arith)
            requires
                mid <= 0x20_0000,
        ;
        if mid * mid <= x {
            lo = mid;
        } else {
            hi = mid;
        }
    }
    proof {
        lemma_isqrt_unique(x, lo as int);
    }
    lo
}

proof fn lemma_isqrt_unique(x: u64, r: int)
    requires
        0 <= r,
        r * r <= x < (r + 1) * (r + 1),
    ensures
        spec_isqrt(x) == r,
{
    assert(0 <= r && square(r) <= x < square(r + 1));
    let c = spec_isqrt(x);
    assert(0 <= c && c * c <= x < (c + 1) * (c + 1));
    if c < r {
        assert((c + 1) * (c + 1) <= r * r) by (nonlinear_arith)
            requires
                0 <= c < r,
        ;
    } else if c > r {
        assert((r + 1) * (r + 1) <= c * c) by (nonlinear_arith)
            requires
                0 <= r < c,
        ;
    }
}

/// Counts the set bits of a bitboard.
pub fn cardinality(x: u64) -> (r: u32)
    ensures
        r == popcount(x),
        r <= 64,
{
    let mut rest: u64 = x;
    let mut count: u32 = 0;
    proof {
        lemma_popcount_bound(x);
    }
    while rest > 0
        invariant
            count + popcount(rest) == popcount(x),
            popcount(rest) <= 64,
            popcount(x) <= 64,
        decreases rest,
    {
        proof {
            lemma_popcount_bound(rest / 2);
        }
        count = count + (rest % 2) as u32;
        rest = rest / 2;
    }
    count
}

proof fn lemma_popcount_bound_nat(x: u64, k: nat)
    requires
        x < pow2_64(k),
        k <= 64,
    ensures
        popcount(x) <= k,
    decreases k,
{
    if x != 0 {
        lemma_popcount_bound_nat(x / 2, (k - 1) as nat);
    }
}

spec fn pow2_64(k: nat) -> nat
    decreases k,
{
    if k == 0 {
        1
    } else {
        2 * pow2_64((k - 1) as nat)
    }
}

/// A bitboard has at most 64 set bits.
pub proof fn lemma_popcount_bound(x: u64)
    ensures
        popcount(x) <= 64,
{
    reveal_with_fuel(pow2_64, 65);
    assert(pow2_64(64) == 0x1_0000_0000_0000_0000);
    lemma_popcount_bound_nat(x, 64);
}

} // verus!
