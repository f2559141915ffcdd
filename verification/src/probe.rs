//! The order in which a probe visits its groups: the triangular numbers,
//! reduced by a power of two.

use crate::layout::EMPTY;
use crate::swiss_table::{
    full_count, lemma_counts_squeeze, lemma_full_count_uniform, lemma_full_count_update,
};
use vstd::arithmetic::div_mod::{
    lemma_add_mod_noop, lemma_fundamental_div_mod, lemma_mod_bound, lemma_mod_multiples_basic,
    lemma_small_mod,
};
use vstd::prelude::*;

verus! {

/// Whether `p` is a power of two.
pub open spec fn is_pow2(p: int) -> bool
    decreases p,
{
    p == 1 || (p > 1 && p % 2 == 0 && is_pow2(p / 2))
}

/// The first power of two at or above `g` among `p`, `2p`, `4p`, ...
pub open spec fn pow2_from(g: int, p: int) -> int
    decreases
            (if p < g {
                g - p
            } else {
                0
            }),
{
    if p >= g || p <= 0 {
        p
    } else {
        pow2_from(g, 2 * p)
    }
}

/// The number of steps of a probe over `groups` groups: the least power of
/// two that is not below the number of groups.
pub open spec fn probe_span(groups: int) -> int {
    pow2_from(groups, 1)
}

/// The sum of the numbers up to `k`.
pub open spec fn triangle(k: int) -> int
    decreases k,
{
    if k <= 0 {
        0
    } else {
        triangle(k - 1) + k
    }
}

/// The group that a probe visits at step `k`, counted from the group in
/// which it starts: the strides grow by one group with every step.
pub open spec fn tri(p: int, k: int) -> int
    decreases k,
{
    if k <= 0 {
        0
    } else {
        (tri(p, k - 1) + k) % p
    }
}

pub proof fn lemma_pow2_from(g: int, p: int)
    requires
        is_pow2(p),
        p < 2 * g || p == 1,
        g >= 1,
    ensures
        is_pow2(pow2_from(g, p)),
        pow2_from(g, p) >= g,
        pow2_from(g, p) < 2 * g || pow2_from(g, p) == 1,
        pow2_from(g, p) >= p,
    decreases
            (if p < g {
                g - p
            } else {
                0
            }),
{
    lemma_pow2_positive(p);
    if p < g {
        assert(is_pow2(2 * p)) by {
            assert((2 * p) / 2 == p);
        }
        lemma_pow2_from(g, 2 * p);
    }
}

pub proof fn lemma_pow2_positive(p: int)
    requires
        is_pow2(p),
    ensures
        p >= 1,
    decreases p,
{
    if p != 1 {
        lemma_pow2_positive(p / 2);
    }
}

proof fn lemma_triangle_twice(k: int)
    requires
        k >= 0,
    ensures
        2 * triangle(k) == k * (k + 1),
    decreases k,
{
    if k > 0 {
        lemma_triangle_twice(k - 1);
        let t = triangle(k - 1);
        assert(2 * (t + k) == k * (k + 1)) by (nonlinear_arith)
            requires
                2 * t == (k - 1) * ((k - 1) + 1),
        ;
    } else {
        assert(k * (k + 1) == 0) by (nonlinear_arith)
            requires
                k == 0,
        ;
    }
}

/// The group of a step is the triangular number of the step, reduced by the
/// span.
pub proof fn lemma_tri_closed(p: int, k: int)
    requires
        p > 0,
        k >= 0,
    ensures
        tri(p, k) == triangle(k) % p,
        0 <= tri(p, k) < p,
    decreases k,
{
    lemma_mod_bound(triangle(k), p);
    if k > 0 {
        lemma_tri_closed(p, k - 1);
        lemma_add_mod_noop(triangle(k - 1), k, p);
        lemma_mod_bound(k, p);
        lemma_add_mod_noop(triangle(k - 1) % p, k, p);
        lemma_small_mod((triangle(k - 1) % p) as nat, p as nat);
    } else {
        lemma_small_mod(0, p as nat);
    }
}

proof fn lemma_odd_cancel(x: int, y: int, q: int)
    requires
        is_pow2(q),
        x >= 0,
        y >= 0,
        x % 2 == 1,
        (x * y) % q == 0,
    ensures
        y % q == 0,
    decreases q,
{
    if q > 1 {
        let r = q / 2;
        lemma_pow2_positive(r);
        lemma_fundamental_div_mod(x * y, q);
        let c = (x * y) / q;
        let a = x / 2;
        assert(x * y == 2 * (r * c)) by (nonlinear_arith)
            requires
                x * y == q * c,
                q == 2 * r,
        ;
        assert(x * y == 2 * (a * y) + y) by (nonlinear_arith)
            requires
                x == 2 * a + 1,
        ;
        assert(y == 2 * (r * c - a * y));
        let h = y / 2;
        assert(y == 2 * h);
        assert(x * h == r * c) by (nonlinear_arith)
            requires
                x * y == 2 * (r * c),
                y == 2 * h,
        ;
        assert(x * h == c * r) by (nonlinear_arith)
            requires
                x * h == r * c,
        ;
        lemma_mod_multiples_basic(c, r);
        lemma_odd_cancel(x, h, r);
        lemma_fundamental_div_mod(h, r);
        let c2 = h / r;
        assert(y == c2 * q) by (nonlinear_arith)
            requires
                y == 2 * h,
                h == r * c2,
                q == 2 * r,
        ;
        lemma_mod_multiples_basic(c2, q);
    }
}

/// No two steps below the span visit the same group.
pub proof fn lemma_tri_injective(p: int, i: int, j: int)
    requires
        is_pow2(p),
        0 <= i < j < p,
    ensures
        tri(p, i) != tri(p, j),
{
    lemma_pow2_positive(p);
    if tri(p, i) == tri(p, j) {
        lemma_tri_closed(p, i);
        lemma_tri_closed(p, j);
        lemma_triangle_twice(i);
        lemma_triangle_twice(j);
        lemma_fundamental_div_mod(triangle(i), p);
        lemma_fundamental_div_mod(triangle(j), p);
        let c = triangle(j) / p - triangle(i) / p;
        let d = j - i;
        let e = i + j + 1;
        assert(triangle(j) - triangle(i) == p * c) by (nonlinear_arith)
            requires
                triangle(i) == p * (triangle(i) / p) + triangle(i) % p,
                triangle(j) == p * (triangle(j) / p) + triangle(j) % p,
                triangle(i) % p == triangle(j) % p,
                c == triangle(j) / p - triangle(i) / p,
        ;
        assert(d * e == c * (2 * p)) by (nonlinear_arith)
            requires
                2 * triangle(i) == i * (i + 1),
                2 * triangle(j) == j * (j + 1),
                triangle(j) - triangle(i) == p * c,
                d == j - i,
                e == i + j + 1,
        ;
        lemma_mod_multiples_basic(c, 2 * p);
        assert(is_pow2(2 * p)) by {
            assert((2 * p) / 2 == p);
        }
        if d % 2 == 1 {
            lemma_odd_cancel(d, e, 2 * p);
            lemma_small_mod(e as nat, (2 * p) as nat);
        } else {
            assert(e * d == d * e) by (nonlinear_arith);
            lemma_odd_cancel(e, d, 2 * p);
            lemma_small_mod(d as nat, (2 * p) as nat);
        }
    }
}

/// The groups that the first `n` steps visit.
spec fn marks(p: int, n: int) -> Seq<u8>
    decreases n,
{
    if n <= 0 {
        Seq::new(p as nat, |g: int| EMPTY)
    } else {
        marks(p, n - 1).update(tri(p, n - 1), 0u8)
    }
}

/// Group `g` is visited at a step below `n`.
pub open spec fn visited_below(p: int, g: int, n: int) -> bool {
    exists|k: int| 0 <= k < n && #[trigger] tri(p, k) == g
}

proof fn lemma_marks(p: int, n: int)
    requires
        is_pow2(p),
        0 <= n <= p,
    ensures
        marks(p, n).len() == p,
        full_count(marks(p, n), p) == n,
        forall|g: int| 0 <= g < p && #[trigger] marks(p, n)[g] != EMPTY ==> visited_below(p, g, n),
    decreases n,
{
    lemma_pow2_positive(p);
    if n <= 0 {
        lemma_full_count_uniform(marks(p, n), p);
    } else {
        lemma_marks(p, n - 1);
        let before = marks(p, n - 1);
        let g0 = tri(p, n - 1);
        lemma_tri_closed(p, n - 1);
        if before[g0] != EMPTY {
            let k = choose|k: int| 0 <= k < n - 1 && #[trigger] tri(p, k) == g0;
            lemma_tri_injective(p, k, n - 1);
        }
        lemma_full_count_update(before, g0, 0u8, p);
        assert forall|g: int| 0 <= g < p && #[trigger] marks(p, n)[g] != EMPTY implies visited_below(
            p,
            g,
            n,
        ) by {
            if g == g0 {
                assert(tri(p, n - 1) == g);
            } else {
                assert(before[g] != EMPTY);
                let k = choose|k: int| 0 <= k < n - 1 && #[trigger] tri(p, k) == g;
                assert(tri(p, k) == g);
            }
        }
    }
}

/// Within as many steps as the span has, a probe visits every group.
pub proof fn lemma_tri_covers(p: int, g: int)
    requires
        is_pow2(p),
        0 <= g < p,
    ensures
        visited_below(p, g, p),
{
    lemma_pow2_positive(p);
    lemma_marks(p, p);
    let all = Seq::new(p as nat, |j: int| 0u8);
    lemma_full_count_uniform(all, p);
    lemma_counts_squeeze(marks(p, p), all, p);
    assert(all[g] != EMPTY);
}

/// The step at which a probe over `groups` groups visits group `g`.
pub open spec fn step_of(groups: int, g: int) -> int {
    choose|k: int| 0 <= k < probe_span(groups) && #[trigger] tri(probe_span(groups), k) == g
}

/// The span is a power of two, at least the number of groups and less than
/// twice that number.
pub proof fn lemma_span(groups: int)
    requires
        groups >= 1,
    ensures
        is_pow2(probe_span(groups)),
        groups <= probe_span(groups),
        probe_span(groups) < 2 * groups,
{
    lemma_pow2_from(groups, 1);
}

/// Every group is visited at a step below the span.
pub proof fn lemma_step_of(groups: int, g: int)
    requires
        0 <= g < groups,
    ensures
        0 <= step_of(groups, g) < probe_span(groups),
        tri(probe_span(groups), step_of(groups, g)) == g,
{
    lemma_span(groups);
    lemma_tri_covers(probe_span(groups), g);
}

/// A group is visited at one step only.
pub proof fn lemma_step_is(groups: int, g: int, k: int)
    requires
        groups >= 1,
        0 <= k < probe_span(groups),
        tri(probe_span(groups), k) == g,
    ensures
        step_of(groups, g) == k,
{
    lemma_span(groups);
    let c = step_of(groups, g);
    if c < k {
        lemma_tri_injective(probe_span(groups), c, k);
    } else if k < c {
        lemma_tri_injective(probe_span(groups), k, c);
    }
}

/// The number of steps of a probe over `groups` groups.
pub fn span_of(groups: usize) -> (p: usize)
    requires
        groups >= 1,
        groups * 16 <= usize::MAX,
    ensures
        p == probe_span(groups as int),
{
    let mut p: usize = 1;
    while p < groups
        invariant
            groups >= 1,
            groups * 16 <= usize::MAX,
            1 <= p,
            p < 2 * groups,
            pow2_from(groups as int, 1) == pow2_from(groups as int, p as int),
        decreases
                (if p < groups {
                    groups - p
                } else {
                    0
                }),
    {
        p = 2 * p;
    }
    p
}

} // verus!
