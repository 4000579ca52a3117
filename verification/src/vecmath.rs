//! Fixed-point arithmetic on embedding vectors.
//!
//! Embedding components are integers; a raw component may be any value of
//! magnitude at most [`MAX_COMPONENT`]. Before a vector is stored or used as
//! a query it is L2-normalized in fixed point: it is scaled so that its
//! Euclidean norm is close to [`SCALE`], except that a vector of norm zero is
//! left unchanged. Distances are exact squared Euclidean distances between
//! normalized vectors. Keeping both the add path and the query path on this
//! one normalization routine keeps the metric consistent across the store.

use vstd::prelude::*;
use vstd::arithmetic::div_mod::lemma_div_is_ordered;
use vstd::arithmetic::div_mod::lemma_div_multiples_vanish;
use vstd::arithmetic::mul::lemma_mul_inequality;

verus! {

/// Unit of the fixed-point representation: a normalized vector has Euclidean
/// norm at most `SCALE` (and close to it, up to integer truncation).
pub const SCALE: u64 = 1024;

/// Largest magnitude accepted for a raw embedding component.
pub const MAX_COMPONENT: i32 = 1_000_000;

/// Largest embedding dimensionality the library accepts.
pub const MAX_DIM: usize = 4096;

/// Every component of `s` has magnitude at most `b`.
pub open spec fn bounded(s: Seq<i32>, b: int) -> bool {
    forall|i: int| 0 <= i < s.len() ==> -b <= #[trigger] s[i] <= b
}

/// Sum of the squares of the components of `s`.
pub open spec fn norm_sq_spec(s: Seq<i32>) -> int
    decreases s.len(),
{
    if s.len() == 0 {
        0
    } else {
        norm_sq_spec(s.drop_last()) + (s.last() as int) * (s.last() as int)
    }
}

/// Squared Euclidean distance between `a` and `b` (over their common prefix;
/// it is only used on sequences of equal length).
pub open spec fn dist_sq_spec(a: Seq<i32>, b: Seq<i32>) -> int
    decreases a.len(),
{
    if a.len() == 0 || b.len() == 0 {
        0
    } else {
        dist_sq_spec(a.drop_last(), b.drop_last()) + (a.last() - b.last()) * (a.last()
            - b.last())
    }
}

/// Integer square root: the largest `r` with `r * r <= n`.
pub open spec fn isqrt_spec(n: nat) -> nat
    decreases n,
{
    if n == 0 {
        0
    } else {
        let r = isqrt_spec((n - 1) as nat);
        if (r + 1) * (r + 1) <= n {
            r + 1
        } else {
            r
        }
    }
}

/// One component of a normalized vector: `x * SCALE / m`, truncated toward
/// zero, where `m` is the integer square root of the squared norm.
pub open spec fn normalize_comp(x: i32, m: nat) -> i32 {
    if x >= 0 {
        (((x as int) * (SCALE as int)) / (m as int)) as i32
    } else {
        (-(((-(x as int)) * (SCALE as int)) / (m as int))) as i32
    }
}

/// The normalized form of `s`: unchanged when its norm is zero, otherwise
/// each component scaled by `SCALE` over the integer square root of the
/// squared norm.
pub open spec fn normalize_spec(s: Seq<i32>) -> Seq<i32> {
    let ns = norm_sq_spec(s);
    if ns == 0 {
        s
    } else {
        Seq::new(s.len(), |i: int| normalize_comp(s[i], isqrt_spec(ns as nat)))
    }
}

pub proof fn lemma_norm_sq_nonneg(s: Seq<i32>)
    ensures
        0 <= norm_sq_spec(s),
    decreases s.len(),
{
    if s.len() > 0 {
        lemma_norm_sq_nonneg(s.drop_last());
        assert((s.last() as int) * (s.last() as int) >= 0) by (nonlinear_arith);
    }
}

/// A single component's square never exceeds the squared norm.
pub proof fn lemma_norm_sq_elem(s: Seq<i32>, i: int)
    requires
        0 <= i < s.len(),
    ensures
        (s[i] as int) * (s[i] as int) <= norm_sq_spec(s),
    decreases s.len(),
{
    lemma_norm_sq_nonneg(s.drop_last());
    if i < s.len() - 1 {
        lemma_norm_sq_elem(s.drop_last(), i);
        assert(s.drop_last()[i] == s[i]);
        assert((s.last() as int) * (s.last() as int) >= 0) by (nonlinear_arith);
    }
}

/// A vector of squared norm zero is the zero vector.
pub proof fn lemma_norm_sq_zero(s: Seq<i32>)
    requires
        norm_sq_spec(s) == 0,
    ensures
        forall|i: int| 0 <= i < s.len() ==> s[i] == 0,
{
    assert forall|i: int| 0 <= i < s.len() implies s[i] == 0 by {
        lemma_norm_sq_elem(s, i);
        lemma_norm_sq_nonneg(s);
        let x = s[i] as int;
        assert(x == 0) by (nonlinear_arith)
            requires
                x * x <= 0,
        ;
    }
}

/// The defining property of the integer square root.
pub proof fn lemma_isqrt(n: nat)
    ensures
        isqrt_spec(n) * isqrt_spec(n) <= n,
        n < (isqrt_spec(n) + 1) * (isqrt_spec(n) + 1),
    decreases n,
{
    if n == 0 {
        assert(isqrt_spec(0) == 0) by {
            reveal_with_fuel(isqrt_spec, 2);
        }
        assert(n < (isqrt_spec(n) + 1) * (isqrt_spec(n) + 1)) by (nonlinear_arith)
            requires
                n == 0,
                isqrt_spec(n) == 0,
        ;
    } else {
        lemma_isqrt((n - 1) as nat);
        let r = isqrt_spec((n - 1) as nat);
        assert(r * r <= n - 1);
        assert(n - 1 < (r + 1) * (r + 1));
        assert(isqrt_spec(n) == if (r + 1) * (r + 1) <= n {
            r + 1
        } else {
            r
        }) by {
            reveal_with_fuel(isqrt_spec, 2);
        }
        if (r + 1) * (r + 1) <= n {
            assert(isqrt_spec(n) == r + 1);
            assert(isqrt_spec(n) * isqrt_spec(n) <= n);
            assert(n < (isqrt_spec(n) + 1) * (isqrt_spec(n) + 1)) by (nonlinear_arith)
                requires
                    n - 1 < (r + 1) * (r + 1),
                    (r + 1) * (r + 1) <= n,
                    isqrt_spec(n) == r + 1,
                    r >= 0,
                    n >= 1,
            ;
        } else {
            assert(isqrt_spec(n) == r);
            assert(isqrt_spec(n) * isqrt_spec(n) <= n);
            assert(n < (isqrt_spec(n) + 1) * (isqrt_spec(n) + 1));
        }
    }
}

/// The integer square root is the unique `r` with `r^2 <= n < (r+1)^2`.
pub proof fn lemma_isqrt_unique(n: nat, r: nat)
    requires
        r * r <= n,
        n < (r + 1) * (r + 1),
    ensures
        r == isqrt_spec(n),
{
    lemma_isqrt(n);
    let q = isqrt_spec(n);
    if r < q {
        assert(false) by (nonlinear_arith)
            requires
                r + 1 <= q,
                q * q <= n,
                n < (r + 1) * (r + 1),
                r >= 0,
                q >= 0,
        ;
    } else if q < r {
        assert(false) by (nonlinear_arith)
            requires
                q + 1 <= r,
                r * r <= n,
                n < (q + 1) * (q + 1),
                r >= 0,
                q >= 0,
        ;
    }
}

/// The distance from a vector to itself is zero.
pub proof fn lemma_dist_sq_self(a: Seq<i32>)
    ensures
        dist_sq_spec(a, a) == 0,
    decreases a.len(),
{
    if a.len() > 0 {
        lemma_dist_sq_self(a.drop_last());
    }
}

/// Squared distances are never negative.
pub proof fn lemma_dist_sq_nonneg(a: Seq<i32>, b: Seq<i32>)
    ensures
        0 <= dist_sq_spec(a, b),
    decreases a.len(),
{
    if a.len() > 0 && b.len() > 0 {
        lemma_dist_sq_nonneg(a.drop_last(), b.drop_last());
        assert((a.last() - b.last()) * (a.last() - b.last()) >= 0) by (nonlinear_arith);
    }
}

/// Integer square root of `n`, by binary search.
pub fn isqrt_u64(n: u64) -> (r: u64)
    ensures
        r as nat == isqrt_spec(n as nat),
        (r as int) * (r as int) <= n as int,
        (n as int) < ((r as int) + 1) * ((r as int) + 1),
{
    let mut lo: u64 = 0;
    let mut hi: u64 = 0x1_0000_0000;
    assert((n as int) < (hi as int) * (hi as int)) by (nonlinear_arith)
        requires
            hi == 0x1_0000_0000u64,
            n <= 0xffff_ffff_ffff_ffffu64,
    ;
    while lo + 1 < hi
        invariant
            lo < hi <= 0x1_0000_0000u64,
            (lo as int) * (lo as int) <= n as int,
            (n as int) < (hi as int) * (hi as int),
        decreases hi - lo,
    {
        let mid: u64 = lo + (hi - lo) / 2;
        assert(lo < mid < hi);
        assert(0 <= (mid as int) * (mid as int) <= 0xffff_fffe_0000_0001) by (nonlinear_arith)
            requires
                0 <= mid <= 0xffff_ffffu64,
        ;
        if mid * mid <= n {
            lo = mid;
        } else {
            hi = mid;
        }
    }
    proof {
        assert(hi == lo + 1);
        lemma_isqrt_unique(n as nat, lo as nat);
    }
    lo
}

/// Sum of squared components, exactly `norm_sq_spec`.
pub fn norm_sq(v: &Vec<i32>) -> (r: u64)
    requires
        v@.len() <= MAX_DIM as int,
        bounded(v@, MAX_COMPONENT as int),
    ensures
        r as int == norm_sq_spec(v@),
{
    let mut acc: u64 = 0;
    let mut i: usize = 0;
    proof {
        assert(v@.subrange(0, 0) =~= Seq::<i32>::empty());
    }
    while i < v.len()
        invariant
            0 <= i <= v@.len() <= MAX_DIM as int,
            bounded(v@, MAX_COMPONENT as int),
            acc as int == norm_sq_spec(v@.subrange(0, i as int)),
            acc as int <= (i as int) * 1_000_000_000_000,
        decreases v@.len() - i,
    {
        let x: i32 = v[i];
        let xi: i64 = x as i64;
        proof {
            assert(-1_000_000 <= v@[i as int] <= 1_000_000);
            assert(0 <= (xi as int) * (xi as int) <= 1_000_000_000_000) by (nonlinear_arith)
                requires
                    -1_000_000 <= xi <= 1_000_000,
            ;
            assert((i as int + 1) * 1_000_000_000_000 == (i as int) * 1_000_000_000_000
                + 1_000_000_000_000) by (nonlinear_arith);
            assert((i as int + 1) * 1_000_000_000_000 <= 4096 * 1_000_000_000_000)
                by (nonlinear_arith)
                requires
                    i as int + 1 <= 4096,
            ;
        }
        let sq: i64 = xi * xi;
        acc = acc + (sq as u64);
        proof {
            assert(v@.subrange(0, i as int + 1).drop_last() =~= v@.subrange(0, i as int));
            assert(v@.subrange(0, i as int + 1).last() == v@[i as int]);
        }
        i = i + 1;
    }
    proof {
        assert(v@.subrange(0, v@.len() as int) =~= v@);
    }
    acc
}

/// Fixed-point L2 normalization; a vector of norm zero is returned unchanged.
pub fn normalize(v: &Vec<i32>) -> (r: Vec<i32>)
    requires
        v@.len() <= MAX_DIM as int,
        bounded(v@, MAX_COMPONENT as int),
    ensures
        r@ == normalize_spec(v@),
        r@.len() == v@.len(),
        bounded(r@, SCALE as int),
{
    let ns: u64 = norm_sq(v);
    if ns == 0 {
        proof {
            lemma_norm_sq_zero(v@);
        }
        let mut r: Vec<i32> = Vec::new();
        let mut i: usize = 0;
        while i < v.len()
            invariant
                0 <= i <= v@.len(),
                r@.len() == i as int,
                forall|j: int| 0 <= j < i as int ==> #[trigger] r@[j] == v@[j],
            decreases v@.len() - i,
        {
            r.push(v[i]);
            i = i + 1;
        }
        proof {
            assert(r@ =~= v@);
        }
        r
    } else {
        let m: u64 = isqrt_u64(ns);
        proof {
            if m == 0 {
                assert((ns as int) < ((m as int) + 1) * ((m as int) + 1));
                assert(false) by (nonlinear_arith)
                    requires
                        (ns as int) < ((m as int) + 1) * ((m as int) + 1),
                        m == 0,
                        ns >= 1,
                ;
            }
        }
        let mut r: Vec<i32> = Vec::new();
        let mut i: usize = 0;
        while i < v.len()
            invariant
                0 < m,
                0 <= i <= v@.len() <= MAX_DIM as int,
                bounded(v@, MAX_COMPONENT as int),
                ns as int == norm_sq_spec(v@),
                ns != 0,
                m as nat == isqrt_spec(ns as nat),
                (m as int) * (m as int) <= ns as int,
                (ns as int) < ((m as int) + 1) * ((m as int) + 1),
                r@.len() == i as int,
                forall|j: int|
                    0 <= j < i as int ==> #[trigger] r@[j] == normalize_comp(
                        v@[j],
                        isqrt_spec(ns as nat),
                    ),
                bounded(r@, SCALE as int),
            decreases v@.len() - i,
        {
            let x: i32 = v[i];
            let mag: u64 = if x < 0 {
                (-(x as i64)) as u64
            } else {
                x as u64
            };
            proof {
                assert(-1_000_000 <= v@[i as int] <= 1_000_000);
                lemma_norm_sq_elem(v@, i as int);
                assert(mag as int == if (x as int) < 0 {
                    -(x as int)
                } else {
                    x as int
                });
                assert((mag as int) * (mag as int) == (x as int) * (x as int))
                    by (nonlinear_arith)
                    requires
                        mag as int == if (x as int) < 0 {
                            -(x as int)
                        } else {
                            x as int
                        },
                ;
                assert((mag as int) < (m as int) + 1) by (nonlinear_arith)
                    requires
                        (mag as int) * (mag as int) <= ns as int,
                        (ns as int) < ((m as int) + 1) * ((m as int) + 1),
                        mag >= 0,
                        m >= 0,
                ;
                assert(mag <= m);
                assert(mag <= 1_000_000);
                assert((mag as int) * (SCALE as int) <= 1_024_000_000) by (nonlinear_arith)
                    requires
                        0 <= mag <= 1_000_000,
                        SCALE == 1024u64,
                ;
            }
            let num: u64 = mag * (SCALE as u64);
            let q: u64 = num / m;
            proof {
                lemma_mul_inequality(mag as int, m as int, SCALE as int);
                lemma_div_is_ordered(num as int, (m as int) * (SCALE as int), m as int);
                lemma_div_multiples_vanish(SCALE as int, m as int);
                assert(q as int <= SCALE as int);
            }
            let c: i32 = if x < 0 {
                -(q as i32)
            } else {
                q as i32
            };
            proof {
                assert(c == normalize_comp(v@[i as int], isqrt_spec(ns as nat)));
            }
            r.push(c);
            i = i + 1;
        }
        proof {
            assert(r@ =~= normalize_spec(v@));
        }
        r
    }
}

/// Exact squared Euclidean distance between two bounded vectors of one length.
pub fn dist_sq(a: &Vec<i32>, b: &Vec<i32>) -> (r: u64)
    requires
        a@.len() == b@.len() <= MAX_DIM as int,
        bounded(a@, SCALE as int),
        bounded(b@, SCALE as int),
    ensures
        r as int == dist_sq_spec(a@, b@),
{
    let mut acc: u64 = 0;
    let mut i: usize = 0;
    proof {
        assert(a@.subrange(0, 0) =~= Seq::<i32>::empty());
        assert(b@.subrange(0, 0) =~= Seq::<i32>::empty());
    }
    while i < a.len()
        invariant
            0 <= i <= a@.len(),
            a@.len() == b@.len() <= MAX_DIM as int,
            bounded(a@, SCALE as int),
            bounded(b@, SCALE as int),
            acc as int == dist_sq_spec(a@.subrange(0, i as int), b@.subrange(0, i as int)),
            acc as int <= (i as int) * 4_194_304,
        decreases a@.len() - i,
    {
        proof {
            assert(-1024 <= a@[i as int] <= 1024);
            assert(-1024 <= b@[i as int] <= 1024);
        }
        let d: i64 = (a[i] as i64) - (b[i] as i64);
        proof {
            assert(0 <= (d as int) * (d as int) <= 4_194_304) by (nonlinear_arith)
                requires
                    -2048 <= d <= 2048,
            ;
            assert((i as int + 1) * 4_194_304 == (i as int) * 4_194_304 + 4_194_304)
                by (nonlinear_arith);
            assert((i as int + 1) * 4_194_304 <= 4096 * 4_194_304) by (nonlinear_arith)
                requires
                    i as int + 1 <= 4096,
            ;
        }
        let sq: i64 = d * d;
        acc = acc + (sq as u64);
        proof {
            assert(a@.subrange(0, i as int + 1).drop_last() =~= a@.subrange(0, i as int));
            assert(b@.subrange(0, i as int + 1).drop_last() =~= b@.subrange(0, i as int));
            assert(a@.subrange(0, i as int + 1).last() == a@[i as int]);
            assert(b@.subrange(0, i as int + 1).last() == b@[i as int]);
        }
        i = i + 1;
    }
    proof {
        assert(a@.subrange(0, a@.len() as int) =~= a@);
        assert(b@.subrange(0, b@.len() as int) =~= b@);
    }
    acc
}

} // verus!
