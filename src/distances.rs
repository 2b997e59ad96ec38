use vstd::prelude::*;

use crate::map::Position;

verus! {

/// The heuristics A* can estimate remaining cost with.
#[derive(Clone, Copy, Debug, PartialEq, Eq)]
pub enum Distances {
    Euclidean,
    Manhattan,
    Chebyshev,
}

pub open spec fn abs_diff(a: i32, b: i32) -> nat {
    if a >= b {
        (a - b) as nat
    } else {
        (b - a) as nat
    }
}

/// The integer square root: the largest `r` with `r * r <= n`.
pub open spec fn isqrt(n: nat) -> nat
    decreases n,
{
    if n == 0 {
        0
    } else {
        let r = isqrt((n - 1) as nat);
        if (r + 1) * (r + 1) <= n {
            r + 1
        } else {
            r
        }
    }
}

/// The distance between two positions under each heuristic.
pub open spec fn distance(kind: Distances, a: Position, b: Position) -> nat {
    let dx = abs_diff(a.x, b.x);
    let dy = abs_diff(a.y, b.y);
    match kind {
        Distances::Euclidean => isqrt(dx * dx + dy * dy),
        Distances::Manhattan => dx + dy,
        Distances::Chebyshev => if dx >= dy {
            dx
        } else {
            dy
        },
    }
}

proof fn lemma_square_monotone(a: nat, b: nat)
    requires
        a <= b,
    ensures
        a * a <= b * b,
{
    assert(a * a <= b * b) by (nonlinear_arith)
        requires
            a <= b,
    ;
}

proof fn lemma_isqrt(n: nat)
    ensures
        isqrt(n) * isqrt(n) <= n < (isqrt(n) + 1) * (isqrt(n) + 1),
    decreases n,
{
    if n > 0 {
        lemma_isqrt((n - 1) as nat);
        let r = isqrt((n - 1) as nat);
        if (r + 1) * (r + 1) <= n {
            let s = r + 1;
            assert(isqrt(n) == s);
            assert(n < (s + 1) * (s + 1)) by (nonlinear_arith)
                requires
                    n - 1 < s * s,
            ;
        } else {
            assert(isqrt(n) == r);
        }
    } else {
        assert(isqrt(0) == 0);
        assert(0 * 0 <= 0 < 1 * 1) by (nonlinear_arith);
    }
}

/// Any `r` with `r * r <= n < (r + 1) * (r + 1)` is the integer square root of `n`.
proof fn lemma_isqrt_unique(n: nat, r: nat)
    requires
        r * r <= n < (r + 1) * (r + 1),
    ensures
        r == isqrt(n),
{
    lemma_isqrt(n);
    let s = isqrt(n);
    if r < s {
        lemma_square_monotone(r + 1, s);
    } else if s < r {
        lemma_square_monotone(s + 1, r);
    }
}

/// Distance between two coordinates, as a nonnegative number.
fn coord_diff(a: i32, b: i32) -> (r: u64)
    ensures
        r == abs_diff(a, b),
        r <= 0x1_0000_0000,
{
    if a >= b {
        (a as i64 - b as i64) as u64
    } else {
        (b as i64 - a as i64) as u64
    }
}

/// Straight-line distance, truncated to an integer.
pub struct Euclidean {}

impl Euclidean {
    pub fn calculate(start: &Position, goal: &Position) -> (r: u64)
        ensures
            r == distance(Distances::Euclidean, *start, *goal),
            r <= 0x2_0000_0000,
    {
        let dx = coord_diff(start.x, goal.x) as u128;
        let dy = coord_diff(start.y, goal.y) as u128;
        proof {
            lemma_square_monotone(dx as nat, 0x1_0000_0000);
            lemma_square_monotone(dy as nat, 0x1_0000_0000);
        }
        let n: u128 = dx * dx + dy * dy;
        let mut lo: u128 = 0;
        let mut hi: u128 = 0x2_0000_0000;
        assert(hi * hi == 0x4_0000_0000_0000_0000);
        while hi - lo > 1
            invariant
                lo < hi <= 0x2_0000_0000,
                lo * lo <= n < hi * hi,
                n == dx * dx + dy * dy,
            decreases hi - lo,
        {
            let mid = lo + (hi - lo) / 2;
            proof {
                lemma_square_monotone(mid as nat, 0x2_0000_0000);
            }
            if mid * mid <= n {
                lo = mid;
            } else {
                hi = mid;
            }
        }
        proof {
            lemma_isqrt_unique(n as nat, lo as nat);
        }
        lo as u64
    }
}

/// Grid distance under four-way movement.
pub struct Manhattan {}

impl Manhattan {
    pub fn calculate(start: &Position, goal: &Position) -> (r: u64)
        ensures
            r == distance(Distances::Manhattan, *start, *goal),
            r <= 0x2_0000_0000,
    {
        coord_diff(start.x, goal.x) + coord_diff(start.y, goal.y)
    }
}

/// Grid distance under eight-way movement.
pub struct Chebyshev {}

impl Chebyshev {
    pub fn calculate(start: &Position, goal: &Position) -> (r: u64)
        ensures
            r == distance(Distances::Chebyshev, *start, *goal),
            r <= 0x2_0000_0000,
    {
        let dx = coord_diff(start.x, goal.x);
        let dy = coord_diff(start.y, goal.y);
        if dx >= dy {
            dx
        } else {
            dy
        }
    }
}

/// The distance between two positions under the given heuristic.
pub fn heuristic(kind: Distances, start: &Position, goal: &Position) -> (r: u64)
    ensures
        r == distance(kind, *start, *goal),
        r <= 0x2_0000_0000,
{
    match kind {
        Distances::Euclidean => Euclidean::calculate(start, goal),
        Distances::Manhattan => Manhattan::calculate(start, goal),
        Distances::Chebyshev => Chebyshev::calculate(start, goal),
    }
}

} // verus!
