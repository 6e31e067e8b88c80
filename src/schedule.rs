use crate::bits::{lemma_pow2_is_power_of_two, lemma_power_of_two_is_pow2, log2, power_of_two};
use vstd::arithmetic::div_mod::{
    lemma_fundamental_div_mod,
    lemma_fundamental_div_mod_converse,
    lemma_mod_bound,
    lemma_mod_breakdown,
};
use vstd::arithmetic::mul::{lemma_mul_inequality, lemma_mul_is_commutative};
use vstd::arithmetic::power2::{lemma_pow2_adds, lemma_pow2_pos, lemma_pow2_strictly_increases, pow2};
use vstd::prelude::*;

verus! {

/// How the butterflies of one stage are grouped into 4-lane vector operations.
#[derive(Clone, Copy, Debug, PartialEq, Eq, Structural)]
pub enum Strategy {
    /// One butterfly at a time.
    Scalar,
    /// Four blocks at once, sharing one twiddle factor.
    CrossBlock,
    /// Four consecutive indices of one block at once.
    CrossIndex,
}

/// One radix-2 butterfly: `(x[top], x[bottom]) <- (u + w t, u - w t)` where
/// `u = x[top]`, `t = x[bottom]` and `w = wm^twiddle` for the stage's root `wm`.
#[derive(Clone, Copy, Debug, PartialEq, Eq, Structural)]
pub struct Butterfly {
    pub top: usize,
    pub bottom: usize,
    pub twiddle: usize,
}

/// The butterflies of one stage of butterfly width `width`, in the order they run.
/// Each run of `lanes` consecutive butterflies forms one vector operation, whose
/// twiddle exponents grow by `lane_step` from lane to lane.
pub struct StagePlan {
    pub width: usize,
    pub lanes: usize,
    pub lane_step: usize,
    pub butterflies: Vec<Butterfly>,
}

/// A stage of butterfly width `m` on a buffer of length `n`.
pub open spec fn valid_stage(n: nat, m: nat) -> bool {
    power_of_two(n) && power_of_two(m) && 2 <= m <= n
}

/// Lanes per vector operation: 4 where the strategy has four independent
/// butterflies to gather, 1 (the scalar fallback) where it has not.
pub open spec fn stage_lanes(n: nat, m: nat, s: Strategy) -> nat {
    match s {
        Strategy::Scalar => 1,
        Strategy::CrossBlock => if n / m >= 4 {
            4
        } else {
            1
        },
        Strategy::CrossIndex => if m / 2 >= 4 {
            4
        } else {
            1
        },
    }
}

/// Whether the stage runs four blocks side by side.
pub open spec fn runs_cross_block(n: nat, m: nat, s: Strategy) -> bool {
    s == Strategy::CrossBlock && n / m >= 4
}

/// Block number and index within the block's first half of the `i`-th butterfly run.
pub open spec fn butterfly_position(n: nat, m: nat, s: Strategy, i: nat) -> (nat, nat) {
    let h = m / 2;
    if runs_cross_block(n, m, s) {
        (4 * (i / 4 / h) + i % 4, i / 4 % h)
    } else {
        (i / h, i % h)
    }
}

/// When the butterfly of block `b` and index `j` runs: inverse of `butterfly_position`.
pub open spec fn butterfly_rank(n: nat, m: nat, s: Strategy, b: nat, j: nat) -> nat {
    let h = m / 2;
    if runs_cross_block(n, m, s) {
        4 * ((b / 4) * h + j) + b % 4
    } else {
        b * h + j
    }
}

/// The butterfly of block `b` and index `j` in a stage of width `m`.
pub open spec fn butterfly_of(m: nat, b: nat, j: nat) -> Butterfly {
    Butterfly { top: (b * m + j) as usize, bottom: (b * m + j + m / 2) as usize, twiddle: j as usize }
}

/// `plan` lists the stage of width `m` on `n` elements under strategy `s`.
pub open spec fn is_stage_plan(n: nat, m: nat, s: Strategy, plan: StagePlan) -> bool {
    &&& plan.width == m
    &&& plan.lanes == stage_lanes(n, m, s)
    &&& plan.lane_step == (if runs_cross_block(n, m, s) {
        0nat
    } else {
        1nat
    })
    &&& plan.butterflies@.len() == n / 2
    &&& forall|i: int|
        0 <= i < n / 2 ==> #[trigger] plan.butterflies@[i] == butterfly_of(
            m,
            butterfly_position(n, m, s, i as nat).0,
            butterfly_position(n, m, s, i as nat).1,
        )
}

/// Every butterfly of `plan` reads and writes inside a buffer of length `n`, and
/// its vector operations are complete.
pub open spec fn plan_in_bounds(n: nat, plan: StagePlan) -> bool {
    &&& plan.lanes == 1 || plan.lanes == 4
    &&& plan.butterflies@.len() % (plan.lanes as nat) == 0
    &&& forall|i: int|
        0 <= i < plan.butterflies@.len() ==> #[trigger] plan.butterflies@[i].top
            < plan.butterflies@[i].bottom < n && plan.butterflies@[i].twiddle < plan.width / 2
}

/// How much the twiddle exponent grows from one vector operation to the next
/// within a block.
pub open spec fn group_advance(plan: StagePlan) -> nat {
    if plan.lane_step == 0 {
        1
    } else {
        plan.lanes as nat
    }
}

/// The twiddle exponents follow the recurrence `w <- w * wm`: the first vector
/// operation starts at exponent 0; each later one either starts a new block at 0
/// or continues the previous one by `group_advance`; and within one operation
/// the exponents grow by `lane_step` per lane.
pub open spec fn twiddles_follow_recurrence(plan: StagePlan) -> bool {
    let l = plan.lanes as nat;
    let len = plan.butterflies@.len();
    &&& len > 0 ==> plan.butterflies@[0].twiddle == 0
    &&& forall|i: int|
        0 <= i < len ==> #[trigger] plan.butterflies@[i].twiddle == plan.butterflies@[i - i % (
        l as int)].twiddle + (i % (l as int)) * plan.lane_step
    &&& forall|i: int|
        0 < i < len && i % (l as int) == 0 ==> #[trigger] plan.butterflies@[i].twiddle == 0
            || plan.butterflies@[i].twiddle == plan.butterflies@[i - l].twiddle + group_advance(
            plan,
        )
}

/// `(x + 1) mod k` either wraps to 0 or is one more than `x mod k`.
proof fn lemma_mod_step(x: nat, k: nat)
    requires
        k > 0,
    ensures
        (x + 1) % k == 0 || (x + 1) % k == x % k + 1,
{
    lemma_fundamental_div_mod(x as int, k as int);
    lemma_mod_bound(x as int, k as int);
    let q = x / k;
    let r = x % k;
    lemma_mul_is_commutative(k as int, q as int);
    if r + 1 < k {
        lemma_fundamental_div_mod_converse((x + 1) as int, k as int, q as int, (r + 1) as int);
    } else {
        assert((q + 1) * k == q * k + k) by (nonlinear_arith);
        lemma_fundamental_div_mod_converse((x + 1) as int, k as int, (q + 1) as int, 0);
    }
}

/// The twiddle exponents of a stage's run order follow the recurrence.
proof fn lemma_twiddle_recurrence(n: nat, m: nat, s: Strategy)
    requires
        valid_stage(n, m),
    ensures
        ({
            let l = stage_lanes(n, m, s);
            let step: nat = if runs_cross_block(n, m, s) {
                0
            } else {
                1
            };
            let adv: nat = if step == 0 {
                1
            } else {
                l
            };
            &&& butterfly_position(n, m, s, 0).1 == 0
            &&& forall|i: nat|
                i < n / 2 ==> #[trigger] butterfly_position(n, m, s, i).1 == butterfly_position(
                    n,
                    m,
                    s,
                    (i - i % l) as nat,
                ).1 + (i % l) * step
            &&& forall|i: nat|
                0 < i < n / 2 && i % l == 0 ==> #[trigger] butterfly_position(n, m, s, i).1 == 0
                    || butterfly_position(n, m, s, i).1 == butterfly_position(
                    n,
                    m,
                    s,
                    (i - l) as nat,
                ).1 + adv
        }),
{
    lemma_stage_facts(n, m);
    let h = m / 2;
    let l = stage_lanes(n, m, s);
    assert(0nat / 4 == 0 && 0nat % 4 == 0 && 0nat % h == 0 && 0nat / h == 0);
    if runs_cross_block(n, m, s) {
        assert forall|i: nat| i < n / 2 implies #[trigger] butterfly_position(n, m, s, i).1
            == butterfly_position(n, m, s, (i - i % l) as nat).1 + (i % l) * 0 by {
            lemma_fundamental_div_mod(i as int, 4);
            lemma_fundamental_div_mod_converse((i - i % 4) as int, 4, (i / 4) as int, 0);
        }
        assert forall|i: nat| 0 < i < n / 2 && i % l == 0 implies #[trigger] butterfly_position(
            n,
            m,
            s,
            i,
        ).1 == 0 || butterfly_position(n, m, s, i).1 == butterfly_position(
            n,
            m,
            s,
            (i - l) as nat,
        ).1 + 1 by {
            lemma_fundamental_div_mod(i as int, 4);
            let g = i / 4;
            lemma_fundamental_div_mod_converse((i - 4) as int, 4, (g - 1) as int, 0);
            lemma_mod_step((g - 1) as nat, h);
        }
    } else if l == 4 {
        let k = h / 4;
        assert forall|i: nat| i < n / 2 implies #[trigger] butterfly_position(n, m, s, i).1
            == butterfly_position(n, m, s, (i - i % l) as nat).1 + (i % l) * 1 by {
            lemma_mod_breakdown(i as int, 4, k as int);
            lemma_fundamental_div_mod(i as int, 4);
            let i0 = (i - i % 4) as nat;
            lemma_fundamental_div_mod_converse(i0 as int, 4, (i / 4) as int, 0);
            lemma_mod_breakdown(i0 as int, 4, k as int);
        }
        assert forall|i: nat| 0 < i < n / 2 && i % l == 0 implies #[trigger] butterfly_position(
            n,
            m,
            s,
            i,
        ).1 == 0 || butterfly_position(n, m, s, i).1 == butterfly_position(
            n,
            m,
            s,
            (i - l) as nat,
        ).1 + 4 by {
            lemma_fundamental_div_mod(i as int, 4);
            let g = i / 4;
            lemma_fundamental_div_mod_converse((i - 4) as int, 4, (g - 1) as int, 0);
            lemma_mod_breakdown(i as int, 4, k as int);
            lemma_mod_breakdown((i - 4) as int, 4, k as int);
            lemma_mod_step((g - 1) as nat, k);
        }
    } else {
        assert forall|i: nat| 0 < i < n / 2 && i % l == 0 implies #[trigger] butterfly_position(
            n,
            m,
            s,
            i,
        ).1 == 0 || butterfly_position(n, m, s, i).1 == butterfly_position(
            n,
            m,
            s,
            (i - l) as nat,
        ).1 + 1 by {
            lemma_mod_step((i - 1) as nat, h);
        }
    }
}

/// One power of two divides a larger one, with a power of two as quotient.
pub proof fn lemma_pow2_divides(a: nat, b: nat)
    requires
        power_of_two(a),
        power_of_two(b),
        a <= b,
    ensures
        b == (b / a) * a,
        power_of_two(b / a),
        b / a >= 1,
{
    lemma_power_of_two_is_pow2(a);
    lemma_power_of_two_is_pow2(b);
    let x = log2(a);
    let y = log2(b);
    if x > y {
        lemma_pow2_strictly_increases(y, x);
    }
    let d = (y - x) as nat;
    lemma_pow2_adds(x, d);
    lemma_pow2_pos(d);
    lemma_pow2_pos(x);
    lemma_mul_is_commutative(pow2(x) as int, pow2(d) as int);
    lemma_fundamental_div_mod_converse(b as int, a as int, pow2(d) as int, 0);
    lemma_pow2_is_power_of_two(d);
}

/// Shape of a stage: blocks of width `m`, each split in halves of `m / 2`.
pub proof fn lemma_stage_facts(n: nat, m: nat)
    requires
        valid_stage(n, m),
    ensures
        m == 2 * (m / 2),
        m / 2 >= 1,
        n == (n / m) * m,
        n / m >= 1,
        n / 2 == (n / m) * (m / 2),
        n / m >= 4 ==> (n / m) % 4 == 0,
        m / 2 >= 4 ==> (m / 2) % 4 == 0,
{
    let h = m / 2;
    let blocks = n / m;
    lemma_pow2_divides(m, n);
    assert(power_of_two(h));
    assert(power_of_two(1));
    assert(power_of_two(2));
    assert(power_of_two(4));
    assert(n == blocks * (2 * h));
    assert(n / 2 == blocks * h) by (nonlinear_arith)
        requires
            n == blocks * (2 * h),
    ;
    if blocks >= 4 {
        lemma_pow2_divides(4, blocks);
    }
    if h >= 4 {
        lemma_pow2_divides(4, h);
    }
}

/// `i < q * d` splits as `i = (i / d) * d + i % d` with `i / d < q`.
proof fn lemma_split_below(i: nat, d: nat, q: nat)
    requires
        d > 0,
        i < q * d,
    ensures
        i / d < q,
        i % d < d,
        i == (i / d) * d + i % d,
{
    lemma_fundamental_div_mod(i as int, d as int);
    lemma_mod_bound(i as int, d as int);
    lemma_mul_is_commutative(d as int, (i / d) as int);
    if i / d >= q {
        lemma_mul_inequality(q as int, (i / d) as int, d as int);
    }
}

/// `q * d + r < bound * d` for `q < bound` and `r < d`.
proof fn lemma_join_below(q: nat, r: nat, d: nat, bound: nat)
    requires
        q < bound,
        r < d,
    ensures
        q * d + r < bound * d,
        (q * d + r) / d == q,
        (q * d + r) % d == r,
{
    lemma_mul_inequality((q + 1) as int, bound as int, d as int);
    assert((q + 1) * d == q * d + d) by (nonlinear_arith);
    lemma_fundamental_div_mod_converse((q * d + r) as int, d as int, q as int, r as int);
}

/// Whatever the strategy, a stage runs each butterfly of the scalar engine exactly
/// once: `butterfly_position` maps the run order one to one onto the pairs
/// `(block, index)` with `block < n / m` and `index < m / 2`.
pub proof fn lemma_strategies_run_same_butterflies(n: nat, m: nat, s: Strategy)
    requires
        valid_stage(n, m),
    ensures
        forall|i: nat|
            i < n / 2 ==> {
                let p = #[trigger] butterfly_position(n, m, s, i);
                &&& p.0 < n / m
                &&& p.1 < m / 2
                &&& butterfly_rank(n, m, s, p.0, p.1) == i
            },
        forall|b: nat, j: nat|
            b < n / m && j < m / 2 ==> {
                let i = #[trigger] butterfly_rank(n, m, s, b, j);
                &&& i < n / 2
                &&& butterfly_position(n, m, s, i) == (b, j)
            },
{
    lemma_stage_facts(n, m);
    let h = m / 2;
    let blocks = n / m;
    assert forall|i: nat| i < n / 2 implies {
        let p = #[trigger] butterfly_position(n, m, s, i);
        &&& p.0 < n / m
        &&& p.1 < m / 2
        &&& butterfly_rank(n, m, s, p.0, p.1) == i
    } by {
        if runs_cross_block(n, m, s) {
            let quads = blocks / 4;
            assert(blocks == quads * 4);
            assert(n / 2 == (quads * h) * 4) by (nonlinear_arith)
                requires
                    n / 2 == blocks * h,
                    blocks == quads * 4,
            ;
            lemma_split_below(i, 4, quads * h);
            let g = i / 4;
            lemma_split_below(g, h, quads);
            let c = g / h;
            lemma_join_below(c, i % 4, 4, quads);
            assert(4 * c + i % 4 == c * 4 + i % 4);
        } else {
            lemma_split_below(i, h, blocks);
        }
    }
    assert forall|b: nat, j: nat| b < n / m && j < m / 2 implies {
        let i = #[trigger] butterfly_rank(n, m, s, b, j);
        &&& i < n / 2
        &&& butterfly_position(n, m, s, i) == (b, j)
    } by {
        if runs_cross_block(n, m, s) {
            let quads = blocks / 4;
            assert(blocks == quads * 4);
            assert(n / 2 == (quads * h) * 4) by (nonlinear_arith)
                requires
                    n / 2 == blocks * h,
                    blocks == quads * 4,
            ;
            lemma_split_below(b, 4, quads);
            let c = b / 4;
            lemma_join_below(c, j, h, quads);
            let g = c * h + j;
            lemma_join_below(g, b % 4, 4, quads * h);
            assert(4 * g + b % 4 == g * 4 + b % 4);
            assert(4 * c + b % 4 == c * 4 + b % 4);
        } else {
            lemma_join_below(b, j, h, blocks);
        }
    }
}

/// Whether the butterfly of block `b` and index `j` reads and writes position `p`.
pub open spec fn touches(m: nat, b: nat, j: nat, p: nat) -> bool {
    p == b * m + j || p == b * m + j + m / 2
}

/// The block and index of the butterfly that touches position `p`.
pub open spec fn owner(m: nat, p: nat) -> (nat, nat) {
    (p / m, (p % m) % (m / 2))
}

/// Each position of the buffer is touched by exactly one butterfly of a stage, so
/// the butterflies of a stage are independent and the order in which a strategy
/// runs them does not change the result.
pub proof fn lemma_stage_touches_each_position_once(n: nat, m: nat)
    requires
        valid_stage(n, m),
    ensures
        forall|p: nat|
            p < n ==> {
                let o = #[trigger] owner(m, p);
                &&& o.0 < n / m
                &&& o.1 < m / 2
                &&& touches(m, o.0, o.1, p)
            },
        forall|b: nat, j: nat, p: nat|
            b < n / m && j < m / 2 && #[trigger] touches(m, b, j, p) ==> owner(m, p) == (b, j),
{
    lemma_stage_facts(n, m);
    let h = m / 2;
    assert forall|p: nat| p < n implies {
        let o = #[trigger] owner(m, p);
        &&& o.0 < n / m
        &&& o.1 < m / 2
        &&& touches(m, o.0, o.1, p)
    } by {
        lemma_split_below(p, m, n / m);
        let r = p % m;
        if r < h {
            lemma_join_below(0, r, h, 1);
        } else {
            lemma_join_below(1, (r - h) as nat, h, 2);
        }
    }
    assert forall|b: nat, j: nat, p: nat|
        b < n / m && j < m / 2 && #[trigger] touches(m, b, j, p) implies owner(m, p) == (b, j) by {
        if p == b * m + j {
            lemma_join_below(b, j, m, n / m);
            lemma_join_below(0, j, h, 1);
        } else {
            lemma_join_below(b, j + h, m, n / m);
            lemma_join_below(1, j, h, 2);
        }
    }
}

/// A plan of the stage follows the twiddle recurrence.
proof fn lemma_plan_follows_recurrence(n: nat, m: nat, s: Strategy, plan: StagePlan)
    requires
        valid_stage(n, m),
        is_stage_plan(n, m, s, plan),
    ensures
        twiddles_follow_recurrence(plan),
{
    lemma_stage_facts(n, m);
    lemma_strategies_run_same_butterflies(n, m, s);
    lemma_twiddle_recurrence(n, m, s);
    let l = plan.lanes as int;
    let half = n / 2;
    assert forall|i: int| 0 <= i < half implies #[trigger] plan.butterflies@[i].twiddle
        == plan.butterflies@[i - i % l].twiddle + (i % l) * plan.lane_step by {
        assert(butterfly_position(n, m, s, i as nat).1 == butterfly_position(
            n,
            m,
            s,
            (i - i % l) as nat,
        ).1 + (i % l) * plan.lane_step);
    }
    assert forall|i: int| 0 < i < half && i % l == 0 implies #[trigger] plan.butterflies@[i].twiddle
        == 0 || plan.butterflies@[i].twiddle == plan.butterflies@[i - l].twiddle + group_advance(
        plan,
    ) by {
        assert(butterfly_position(n, m, s, i as nat).1 == 0 || butterfly_position(
            n,
            m,
            s,
            i as nat,
        ).1 == butterfly_position(n, m, s, (i - l) as nat).1 + group_advance(plan));
    }
}

/// The butterfly of block `b < n / m` and index `j < m / 2` stays inside the buffer.
pub proof fn lemma_butterfly_in_bounds(n: nat, m: nat, b: nat, j: nat)
    requires
        valid_stage(n, m),
        b < n / m,
        j < m / 2,
    ensures
        b * m + j + m / 2 < n,
{
    lemma_stage_facts(n, m);
    lemma_join_below(b, j + m / 2, m, n / m);
}

/// Lists the butterflies of the stage of width `m` on `n` elements, grouped into
/// vector operations as `strategy` asks, falling back to single lanes where the
/// stage has fewer than four independent butterflies along that axis.
pub fn plan_stage(n: usize, m: usize, strategy: Strategy) -> (plan: StagePlan)
    requires
        valid_stage(n as nat, m as nat),
    ensures
        is_stage_plan(n as nat, m as nat, strategy, plan),
        plan_in_bounds(n as nat, plan),
        twiddles_follow_recurrence(plan),
{
    proof {
        lemma_stage_facts(n as nat, m as nat);
        lemma_strategies_run_same_butterflies(n as nat, m as nat, strategy);
    }
    let h = m / 2;
    let blocks = n / m;
    let cross_block = match strategy {
        Strategy::CrossBlock => blocks >= 4,
        _ => false,
    };
    let lanes: usize = match strategy {
        Strategy::Scalar => 1,
        Strategy::CrossBlock => if blocks >= 4 {
            4
        } else {
            1
        },
        Strategy::CrossIndex => if h >= 4 {
            4
        } else {
            1
        },
    };
    let half = n / 2;
    let mut butterflies: Vec<Butterfly> = Vec::new();
    let mut i: usize = 0;
    while i < half
        invariant
            valid_stage(n as nat, m as nat),
            h == m / 2,
            blocks == n / m,
            half == n / 2,
            cross_block == runs_cross_block(n as nat, m as nat, strategy),
            i <= half,
            butterflies@.len() == i,
            forall|i: nat|
                i < n / 2 ==> {
                    let p = #[trigger] butterfly_position(n as nat, m as nat, strategy, i);
                    &&& p.0 < n / m
                    &&& p.1 < m / 2
                },
            forall|k: int|
                0 <= k < i ==> #[trigger] butterflies@[k] == butterfly_of(
                    m as nat,
                    butterfly_position(n as nat, m as nat, strategy, k as nat).0,
                    butterfly_position(n as nat, m as nat, strategy, k as nat).1,
                ),
            forall|k: int|
                0 <= k < i ==> #[trigger] butterflies@[k].top < butterflies@[k].bottom < n
                    && butterflies@[k].twiddle < m / 2,
        decreases half - i,
    {
        let b: usize;
        let j: usize;
        if cross_block {
            let g = i / 4;
            b = 4 * (g / h) + i % 4;
            j = g % h;
        } else {
            b = i / h;
            j = i % h;
        }
        proof {
            let p = butterfly_position(n as nat, m as nat, strategy, i as nat);
            assert(p == (b as nat, j as nat));
            lemma_butterfly_in_bounds(n as nat, m as nat, b as nat, j as nat);
            assert(b * m <= b * m + j + h) by (nonlinear_arith);
        }
        let top = b * m + j;
        butterflies.push(Butterfly { top, bottom: top + h, twiddle: j });
        i += 1;
    }
    proof {
        if lanes == 4 {
            if cross_block {
                assert(half as nat == (blocks / 4 * h) * 4) by (nonlinear_arith)
                    requires
                        half == blocks * h,
                        blocks == (blocks / 4) * 4,
                ;
            } else {
                assert(half as nat == (blocks * (h / 4)) * 4) by (nonlinear_arith)
                    requires
                        half == blocks * h,
                        h == (h / 4) * 4,
                ;
            }
            assert(half % 4 == 0);
        }
        assert(butterflies@.len() % (lanes as nat) == 0);
    }
    let lane_step: usize = if cross_block {
        0
    } else {
        1
    };
    let plan = StagePlan { width: m, lanes, lane_step, butterflies };
    assert(forall|i: int|
        0 <= i < plan.butterflies@.len() ==> #[trigger] plan.butterflies@[i].top
            < plan.butterflies@[i].bottom < n && plan.butterflies@[i].twiddle < plan.width / 2);
    proof {
        lemma_plan_follows_recurrence(n as nat, m as nat, strategy, plan);
    }
    plan
}

} // verus!
