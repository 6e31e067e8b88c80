use crate::bits::{is_power_of_2, power_of_two};
use crate::permute::bit_reverse_copy;
use crate::radix2::{
    bit_reversed,
    divide_all,
    fft_output,
    lemma_apply_butterfly,
    lemma_plan_butterfly,
    lemma_progress_end,
    lemma_progress_read,
    lemma_progress_start,
    radix2_output,
    stage_output,
    stage_progress,
    stage_root,
    stages_output,
    twiddle_power,
};
use crate::schedule::{
    is_stage_plan,
    lemma_pow2_divides,
    lemma_stage_facts,
    valid_stage,
    group_advance,
    plan_in_bounds,
    plan_stage,
    twiddles_follow_recurrence,
    StagePlan,
    Strategy,
};
use vstd::prelude::*;

verus! {

/// Complex arithmetic on the samples a transform runs on, one lane or four at a time.
/// Implementations choose the number format and the instructions (plain or vector);
/// the `spec_` functions name what each operation returns, so that the transforms
/// can state their results as expressions over them.
pub trait ComplexLanes: Sized + Copy {
    /// The additive identity.
    spec fn spec_zero() -> Self;

    /// The multiplicative identity.
    spec fn spec_one() -> Self;

    /// `e^(-2 pi i k / m)`, or `e^(2 pi i k / m)` when `inverse`.
    spec fn spec_twiddle(k: usize, m: usize, inverse: bool) -> Self;

    /// `a + b`.
    spec fn spec_plus(a: Self, b: Self) -> Self;

    /// `a - b`.
    spec fn spec_minus(a: Self, b: Self) -> Self;

    /// `a * b`.
    spec fn spec_times(a: Self, b: Self) -> Self;

    /// `a / n`.
    spec fn spec_divide(a: Self, n: usize) -> Self;

    fn zero() -> (r: Self)
        ensures
            r == Self::spec_zero(),
    ;

    fn one() -> (r: Self)
        ensures
            r == Self::spec_one(),
    ;

    /// From closed-form trigonometry.
    fn twiddle(k: usize, m: usize, inverse: bool) -> (r: Self)
        requires
            m > 0,
        ensures
            r == Self::spec_twiddle(k, m, inverse),
    ;

    fn plus(self, other: Self) -> (r: Self)
        ensures
            r == Self::spec_plus(self, other),
    ;

    fn times(self, other: Self) -> (r: Self)
        ensures
            r == Self::spec_times(self, other),
    ;

    fn divide(self, n: usize) -> (r: Self)
        requires
            n > 0,
        ensures
            r == Self::spec_divide(self, n),
    ;

    /// One butterfly and one twiddle step: `(u + w t, u - w t, w wm)`.
    fn butterfly_step(u: Self, t: Self, w: Self, wm: Self) -> (r: (Self, Self, Self))
        ensures
            r.0 == Self::spec_plus(u, Self::spec_times(w, t)),
            r.1 == Self::spec_minus(u, Self::spec_times(w, t)),
            r.2 == Self::spec_times(w, wm),
    ;

    /// Four independent butterflies, lane by lane: `(u + w t, u - w t)`.
    fn butterfly4(u: [Self; 4], t: [Self; 4], w: [Self; 4]) -> (r: ([Self; 4], [Self; 4]))
        ensures
            forall|l: int|
                0 <= l < 4 ==> #[trigger] r.0@[l] == Self::spec_plus(
                    u@[l],
                    Self::spec_times(w@[l], t@[l]),
                ) && r.1@[l] == Self::spec_minus(u@[l], Self::spec_times(w@[l], t@[l])),
    ;
}

/// Why a transform refused its buffers. Nothing is written when it does.
#[derive(Clone, Copy, Debug, PartialEq, Eq, Structural)]
pub enum FftError {
    /// Input and output lengths differ.
    LengthMismatch,
    /// The length is not a power of two (zero included).
    NotPowerOfTwo,
}

/// Twiddle exponents of the vector operation that starts at `g`, from the recurrence.
proof fn lemma_group_twiddles(plan: StagePlan, g: int)
    requires
        twiddles_follow_recurrence(plan),
        plan.lanes == 4,
        g % 4 == 0,
        0 <= g,
        g + 3 < plan.butterflies@.len(),
    ensures
        g == 0 ==> plan.butterflies@[g].twiddle == 0,
        g > 0 ==> plan.butterflies@[g].twiddle == 0 || plan.butterflies@[g].twiddle
            == plan.butterflies@[g - 4].twiddle + group_advance(plan),
        plan.butterflies@[g + 1].twiddle == plan.butterflies@[g].twiddle + plan.lane_step,
        plan.butterflies@[g + 2].twiddle == plan.butterflies@[g].twiddle + 2 * plan.lane_step,
        plan.butterflies@[g + 3].twiddle == plan.butterflies@[g].twiddle + 3 * plan.lane_step,
{
    let bf = plan.butterflies@;
    assert((g + 1) % 4 == 1 && (g + 2) % 4 == 2 && (g + 3) % 4 == 3);
    assert(bf[g + 1].twiddle == bf[(g + 1) - (g + 1) % 4].twiddle + ((g + 1) % 4) * plan.lane_step);
    assert(bf[g + 2].twiddle == bf[(g + 2) - (g + 2) % 4].twiddle + ((g + 2) % 4) * plan.lane_step);
    assert(bf[g + 3].twiddle == bf[(g + 3) - (g + 3) % 4].twiddle + ((g + 3) % 4) * plan.lane_step);
    if g > 0 {
        assert(bf[g].twiddle == 0 || bf[g].twiddle == bf[g - 4].twiddle + group_advance(plan));
    }
}

/// Everything the executor needs to know of a stage's plan.
#[verifier::opaque]
spec fn plan_ready(n: nat, m: nat, s: Strategy, plan: StagePlan) -> bool {
    &&& n <= usize::MAX
    &&& valid_stage(n, m)
    &&& is_stage_plan(n, m, s, plan)
    &&& plan_in_bounds(n, plan)
    &&& twiddles_follow_recurrence(plan)
}

/// Where the twiddle exponent of the vector operation at `g` starts.
proof fn lemma_group_start(n: nat, m: nat, s: Strategy, plan: StagePlan, g: int)
    requires
        plan_ready(n, m, s, plan),
        plan.lanes == 4,
        g % 4 == 0,
        0 <= g,
        g + 4 <= plan.butterflies@.len(),
    ensures
        g == 0 ==> plan.butterflies@[g].twiddle == 0,
        g > 0 ==> plan.butterflies@[g].twiddle == 0 || plan.butterflies@[g].twiddle
            == plan.butterflies@[g - 4].twiddle + (if plan.lane_step == 1 {
            4int
        } else {
            1int
        }),
{
    reveal(plan_ready);
    lemma_group_twiddles(plan, g);
}

/// `wm^(e+1) = wm^e * wm` by the recurrence.
proof fn lemma_twiddle_power_step<C: ComplexLanes>(wm: C, e: nat)
    ensures
        twiddle_power(wm, e + 1) == C::spec_times(twiddle_power(wm, e), wm),
{
}

/// The lane twiddles of one vector operation from `w = wm^e`, and the `w` of the
/// next: `wm^e` in every lane and `wm^(e+1)` next, or `wm^(e+l)` in lane `l` and
/// `wm^(e+4)` next when `spread`; every power by the same recurrence.
fn lane_twiddles<C: ComplexLanes>(w: C, wm: C, spread: bool, Ghost(e): Ghost<nat>) -> (r: ([C; 4], C))
    requires
        w == twiddle_power(wm, e),
    ensures
        forall|l: int|
            0 <= l < 4 ==> #[trigger] r.0@[l] == twiddle_power(
                wm,
                (if spread {
                    e + l
                } else {
                    e as int
                }) as nat,
            ),
        r.1 == twiddle_power(
            wm,
            if spread {
                e + 4
            } else {
                e + 1
            },
        ),
{
    if spread {
        let w1 = w.times(wm);
        let w2 = w1.times(wm);
        let w3 = w2.times(wm);
        let next = w3.times(wm);
        proof {
            lemma_twiddle_power_step(wm, e);
            lemma_twiddle_power_step(wm, e + 1);
            lemma_twiddle_power_step(wm, e + 2);
            lemma_twiddle_power_step(wm, e + 3);
        }
        let ws = [w, w1, w2, w3];
        assert(ws@[0] == w && ws@[1] == w1 && ws@[2] == w2 && ws@[3] == w3);
        (ws, next)
    } else {
        let next = w.times(wm);
        proof {
            lemma_twiddle_power_step(wm, e);
        }
        let ws = [w, w, w, w];
        assert(ws@[0] == w && ws@[1] == w && ws@[2] == w && ws@[3] == w);
        (ws, next)
    }
}

/// The lane twiddles of the vector operation at `g` are `wm` to the lanes' exponents.
proof fn lemma_lane_twiddles_match<C: ComplexLanes>(
    plan: StagePlan,
    g: int,
    ws: [C; 4],
    wm: C,
    e: nat,
    spread: bool,
)
    requires
        twiddles_follow_recurrence(plan),
        plan.lanes == 4,
        spread == (plan.lane_step == 1),
        plan.lane_step <= 1,
        g % 4 == 0,
        0 <= g,
        g + 3 < plan.butterflies@.len(),
        e == plan.butterflies@[g].twiddle,
        forall|l: int|
            0 <= l < 4 ==> #[trigger] ws@[l] == twiddle_power(
                wm,
                (if spread {
                    e + l
                } else {
                    e as int
                }) as nat,
            ),
    ensures
        forall|l: int|
            0 <= l < 4 ==> #[trigger] ws@[l] == twiddle_power(wm, plan.butterflies@[g + l].twiddle as nat),
{
    lemma_group_twiddles(plan, g);
    let bf = plan.butterflies@;
    assert forall|l: int| 0 <= l < 4 implies #[trigger] ws@[l] == twiddle_power(
        wm,
        bf[g + l].twiddle as nat,
    ) by {
        if l == 0 {
            assert(g + l == g);
        }
    }
}

/// Runs the four butterflies of the vector operation that starts at `g`, with the
/// lane twiddles `ws`.
#[verifier::rlimit(40)]
fn run_four_lanes<C: ComplexLanes>(
    buf: &mut [C],
    plan: &StagePlan,
    strategy: Strategy,
    inverse: bool,
    g: usize,
    ws: [C; 4],
    Ghost(x): Ghost<Seq<C>>,
    Ghost(wm): Ghost<C>,
)
    requires
        x.len() <= usize::MAX,
        valid_stage(x.len(), plan.width as nat),
        is_stage_plan(x.len(), plan.width as nat, strategy, *plan),
        g + 4 <= x.len() / 2,
        wm == stage_root::<C>(plan.width as nat, inverse),
        forall|l: int|
            0 <= l < 4 ==> #[trigger] ws@[l] == twiddle_power(
                wm,
                plan.butterflies@[g + l].twiddle as nat,
            ),
        stage_progress(x.len(), plan.width as nat, strategy, x, inverse, old(buf)@, g as nat),
    ensures
        stage_progress(x.len(), plan.width as nat, strategy, x, inverse, final(buf)@, (g + 4) as nat),
{
    let ghost n = x.len();
    let ghost m = plan.width as nat;
    let b0 = plan.butterflies[g];
    let b1 = plan.butterflies[g + 1];
    let b2 = plan.butterflies[g + 2];
    let b3 = plan.butterflies[g + 3];
    proof {
        lemma_plan_butterfly(n, m, strategy, *plan, x, inverse, g as nat);
        lemma_plan_butterfly(n, m, strategy, *plan, x, inverse, (g + 1) as nat);
        lemma_plan_butterfly(n, m, strategy, *plan, x, inverse, (g + 2) as nat);
        lemma_plan_butterfly(n, m, strategy, *plan, x, inverse, (g + 3) as nat);
        assert(ws@[1] == ws[1] && ws@[2] == ws[2] && ws@[3] == ws[3] && ws@[0] == ws[0]);
        let k = g as nat;
        lemma_progress_read(n, m, strategy, x, inverse, buf@, k, b0.top as nat);
        lemma_progress_read(n, m, strategy, x, inverse, buf@, k, b1.top as nat);
        lemma_progress_read(n, m, strategy, x, inverse, buf@, k, b2.top as nat);
        lemma_progress_read(n, m, strategy, x, inverse, buf@, k, b3.top as nat);
        lemma_progress_read(n, m, strategy, x, inverse, buf@, k, b0.bottom as nat);
        lemma_progress_read(n, m, strategy, x, inverse, buf@, k, b1.bottom as nat);
        lemma_progress_read(n, m, strategy, x, inverse, buf@, k, b2.bottom as nat);
        lemma_progress_read(n, m, strategy, x, inverse, buf@, k, b3.bottom as nat);
    }
    let u = [buf[b0.top], buf[b1.top], buf[b2.top], buf[b3.top]];
    let t = [buf[b0.bottom], buf[b1.bottom], buf[b2.bottom], buf[b3.bottom]];
    let (hi, lo) = C::butterfly4(u, t, ws);
    proof {
        assert(u@[0] == u[0] && u@[1] == u[1] && u@[2] == u[2] && u@[3] == u[3]);
        assert(t@[0] == t[0] && t@[1] == t[1] && t@[2] == t[2] && t@[3] == t[3]);
        assert(hi@[0] == hi[0] && hi@[1] == hi[1] && hi@[2] == hi[2] && hi@[3] == hi[3]);
        assert(lo@[0] == lo[0] && lo@[1] == lo[1] && lo@[2] == lo[2] && lo@[3] == lo[3]);
    }
    let ghost before = buf@;
    buf[b0.top] = hi[0];
    buf[b0.bottom] = lo[0];
    proof {
        lemma_apply_butterfly(n, m, strategy, *plan, x, inverse, before, g as nat, buf@);
    }
    let ghost before = buf@;
    buf[b1.top] = hi[1];
    buf[b1.bottom] = lo[1];
    proof {
        lemma_apply_butterfly(n, m, strategy, *plan, x, inverse, before, (g + 1) as nat, buf@);
    }
    let ghost before = buf@;
    buf[b2.top] = hi[2];
    buf[b2.bottom] = lo[2];
    proof {
        lemma_apply_butterfly(n, m, strategy, *plan, x, inverse, before, (g + 2) as nat, buf@);
    }
    let ghost before = buf@;
    buf[b3.top] = hi[3];
    buf[b3.bottom] = lo[3];
    proof {
        lemma_apply_butterfly(n, m, strategy, *plan, x, inverse, before, (g + 3) as nat, buf@);
    }
}

/// One vector operation of a stage: restarts `w` at a block's start, forms the lane
/// twiddles, runs the four butterflies, and returns the `w` of the next operation.
#[verifier::rlimit(30)]
fn run_vector_op<C: ComplexLanes>(
    buf: &mut [C],
    plan: &StagePlan,
    strategy: Strategy,
    inverse: bool,
    g: usize,
    w: C,
    wm: C,
    spread: bool,
    Ghost(e): Ghost<nat>,
    Ghost(x): Ghost<Seq<C>>,
) -> (next: C)
    requires
        plan_ready(x.len(), plan.width as nat, strategy, *plan),
        plan.lanes == 4,
        spread == (plan.lane_step == 1),
        g % 4 == 0,
        g + 4 <= plan.butterflies@.len(),
        plan.butterflies@.len() == x.len() / 2,
        g > 0 ==> e == plan.butterflies@[g - 4].twiddle + (if spread {
            4int
        } else {
            1int
        }),
        wm == stage_root::<C>(plan.width as nat, inverse),
        w == twiddle_power(wm, e),
        stage_progress(x.len(), plan.width as nat, strategy, x, inverse, old(buf)@, g as nat),
    ensures
        next == twiddle_power(
            wm,
            (plan.butterflies@[g as int].twiddle + if spread {
                4int
            } else {
                1int
            }) as nat,
        ),
        stage_progress(x.len(), plan.width as nat, strategy, x, inverse, final(buf)@, (g + 4) as nat),
{
    let ghost n = x.len();
    let ghost m = plan.width as nat;
    let ghost mut e = e;
    let mut w = w;
    let b0 = plan.butterflies[g];
    if b0.twiddle == 0 {
        w = C::one();
        proof {
            e = 0;
        }
    }
    proof {
        lemma_group_start(n, m, strategy, *plan, g as int);
        assert(e == b0.twiddle);
    }
    let (ws, next) = lane_twiddles(w, wm, spread, Ghost(e));
    proof {
        assert(twiddles_follow_recurrence(*plan) && plan.lane_step <= 1) by {
            reveal(plan_ready);
        }
        lemma_lane_twiddles_match(*plan, g as int, ws, wm, e, spread);
        assert(n <= usize::MAX && valid_stage(n, m) && is_stage_plan(n, m, strategy, *plan)) by {
            reveal(plan_ready);
        }
    }
    run_four_lanes(buf, plan, strategy, inverse, g, ws, Ghost(x), Ghost(wm));
    next
}

/// Runs the butterflies of one stage, in the plan's order, with the twiddle factors
/// advanced by the recurrence `w <- w * wm` from `w = 1` at the start of each block.
/// The ghost exponent `e` records the power of `wm` that `w` stands for; each
/// butterfly receives `wm` to its own twiddle exponent, so the buffer ends as the
/// stage's output whatever the strategy.
#[verifier::rlimit(100)]
fn run_stage<C: ComplexLanes>(buf: &mut [C], plan: &StagePlan, strategy: Strategy, inverse: bool)
    requires
        old(buf)@.len() <= usize::MAX,
        valid_stage(old(buf)@.len(), plan.width as nat),
        is_stage_plan(old(buf)@.len(), plan.width as nat, strategy, *plan),
        plan_in_bounds(old(buf)@.len(), *plan),
        twiddles_follow_recurrence(*plan),
    ensures
        final(buf)@ == stage_output(old(buf)@, plan.width as nat, inverse),
{
    let ghost n = buf@.len();
    let ghost m = plan.width as nat;
    let ghost x = buf@;
    proof {
        lemma_stage_facts(n, m);
        lemma_progress_start(n, m, strategy, x, inverse);
    }
    let wm = C::twiddle(1, plan.width, inverse);
    let count = plan.butterflies.len();
    let mut w = C::one();
    let ghost mut e: nat = 0;
    if plan.lanes == 4 {
        let spread = plan.lane_step != 0;
        proof {
            assert(plan_ready(n, m, strategy, *plan)) by {
                reveal(plan_ready);
            }
            assert(count % 4 == 0);
        }
        let mut g: usize = 0;
        while g < count
            invariant
                n == x.len(),
                m == plan.width,
                plan_ready(n, m, strategy, *plan),
                plan.lanes == 4,
                spread == (plan.lane_step == 1),
                count == plan.butterflies@.len(),
                count == n / 2,
                count % 4 == 0,
                g % 4 == 0,
                g <= count,
                g > 0 ==> e == plan.butterflies@[g - 4].twiddle + (if spread {
                    4int
                } else {
                    1int
                }),
                wm == stage_root::<C>(m, inverse),
                w == twiddle_power(wm, e),
                stage_progress(n, m, strategy, x, inverse, buf@, g as nat),
            decreases count - g,
        {
            proof {
                assert(g + 4 <= count);
            }
            let next = run_vector_op(buf, plan, strategy, inverse, g, w, wm, spread, Ghost(e), Ghost(x));
            w = next;
            proof {
                e = (plan.butterflies@[g as int].twiddle + if spread {
                    4int
                } else {
                    1int
                }) as nat;
            }
            g += 4;
        }
    } else {
        let mut g: usize = 0;
        while g < count
            invariant
                n == x.len(),
                n <= usize::MAX,
                m == plan.width,
                valid_stage(n, m),
                is_stage_plan(n, m, strategy, *plan),
                plan_in_bounds(n, *plan),
                twiddles_follow_recurrence(*plan),
                plan.lanes == 1,
                count == plan.butterflies@.len(),
                count == n / 2,
                g <= count,
                g > 0 ==> e == plan.butterflies@[g - 1].twiddle + 1,
                wm == stage_root::<C>(m, inverse),
                w == twiddle_power(wm, e),
                stage_progress(n, m, strategy, x, inverse, buf@, g as nat),
            decreases count - g,
        {
            let b = plan.butterflies[g];
            if b.twiddle == 0 {
                w = C::one();
                proof {
                    e = 0;
                }
            }
            proof {
                assert(e == b.twiddle);
                lemma_plan_butterfly(n, m, strategy, *plan, x, inverse, g as nat);
                lemma_progress_read(n, m, strategy, x, inverse, buf@, g as nat, b.top as nat);
                lemma_progress_read(n, m, strategy, x, inverse, buf@, g as nat, b.bottom as nat);
            }
            let (hi, lo, next) = C::butterfly_step(buf[b.top], buf[b.bottom], w, wm);
            let ghost before = buf@;
            buf[b.top] = hi;
            buf[b.bottom] = lo;
            proof {
                lemma_apply_butterfly(n, m, strategy, *plan, x, inverse, before, g as nat, buf@);
            }
            w = next;
            proof {
                e = e + 1;
            }
            g += 1;
        }
    }
    proof {
        lemma_progress_end(n, m, strategy, x, inverse, buf@);
    }
}

/// Runs all `log2(n)` butterfly stages, widths `2, 4, ..., n`, on a buffer that is
/// already in bit-reversed order; the inverse also divides every sample by `n`.
pub fn run_stages<C: ComplexLanes>(buf: &mut [C], strategy: Strategy, inverse: bool)
    requires
        power_of_two(old(buf)@.len()),
    ensures
        final(buf)@ == radix2_output(old(buf)@, inverse),
{
    let n = buf.len();
    let ghost x = buf@;
    let mut m: usize = 1;
    assert(power_of_two(1));
    while m < n
        invariant
            n == buf@.len(),
            n == x.len(),
            power_of_two(n as nat),
            power_of_two(m as nat),
            1 <= m <= n,
            buf@ == stages_output(x, m as nat, inverse),
        decreases n - m,
    {
        proof {
            lemma_pow2_divides(m as nat, n as nat);
            if n as nat / m as nat == 1 {
                assert(n == 1 * m);
            }
            assert(n as nat / m as nat >= 2);
            assert(m * 2 <= n) by (nonlinear_arith)
                requires
                    n == (n as nat / m as nat) * m,
                    n as nat / m as nat >= 2,
            ;
            assert(power_of_two((m * 2) as nat)) by {
                assert((m * 2) as nat / 2 == m);
            }
        }
        m = m * 2;
        let plan = plan_stage(n, m, strategy);
        proof {
            assert((m as nat) / 2 == (m / 2) as nat);
        }
        run_stage(buf, &plan, strategy, inverse);
    }
    let ghost y = buf@;
    if inverse {
        let mut i: usize = 0;
        while i < n
            invariant
                n == buf@.len(),
                n == y.len(),
                n >= 1,
                i <= n,
                forall|k: int| 0 <= k < i ==> #[trigger] buf@[k] == C::spec_divide(y[k], n),
                forall|k: int| i <= k < n ==> #[trigger] buf@[k] == y[k],
            decreases n - i,
        {
            buf[i] = buf[i].divide(n);
            i += 1;
        }
        assert(buf@ =~= divide_all(y, n as nat));
    }
}

/// The radix-2 decimation-in-time transform of `input` into `output`: a bit-reversed
/// copy, then the butterfly stages. Unnormalized forward transform, or the inverse
/// divided by `n` when `inverse`. The result does not depend on the strategy.
pub fn fft_with_strategy<C: ComplexLanes>(
    input: &[C],
    output: &mut [C],
    strategy: Strategy,
    inverse: bool,
)
    requires
        input@.len() == old(output)@.len(),
        power_of_two(input@.len()),
    ensures
        final(output)@ == fft_output(input@, inverse),
{
    bit_reverse_copy(input, output);
    assert(output@ =~= bit_reversed(input@));
    run_stages(output, strategy, inverse);
}

/// Forward transform, one butterfly at a time.
pub fn cooley_tukey_fft<C: ComplexLanes>(input: &[C], output: &mut [C])
    requires
        input@.len() == old(output)@.len(),
        power_of_two(input@.len()),
    ensures
        final(output)@ == fft_output(input@, false),
{
    fft_with_strategy(input, output, Strategy::Scalar, false);
}

/// Forward transform, four blocks per vector operation where a stage has four.
pub fn fft_simd<C: ComplexLanes>(input: &[C], output: &mut [C])
    requires
        input@.len() == old(output)@.len(),
        power_of_two(input@.len()),
    ensures
        final(output)@ == fft_output(input@, false),
{
    fft_with_strategy(input, output, Strategy::CrossBlock, false);
}

/// Forward transform, four consecutive indices per vector operation where a
/// block's half holds four.
pub fn simd_cooley_tukey_fft3<C: ComplexLanes>(input: &[C], output: &mut [C])
    requires
        input@.len() == old(output)@.len(),
        power_of_two(input@.len()),
    ensures
        final(output)@ == fft_output(input@, false),
{
    fft_with_strategy(input, output, Strategy::CrossIndex, false);
}

/// In-place unnormalized forward transform.
pub fn fft_forward<C: ComplexLanes>(buf: &mut [C], strategy: Strategy)
    requires
        power_of_two(old(buf)@.len()),
    ensures
        final(buf)@ == fft_output(old(buf)@, false),
{
    let copy = vstd::slice::slice_to_vec(buf);
    fft_with_strategy(copy.as_slice(), buf, strategy, false);
}

/// In-place inverse transform, divided by `n`.
pub fn fft_inverse<C: ComplexLanes>(buf: &mut [C], strategy: Strategy)
    requires
        power_of_two(old(buf)@.len()),
    ensures
        final(buf)@ == fft_output(old(buf)@, true),
{
    let copy = vstd::slice::slice_to_vec(buf);
    fft_with_strategy(copy.as_slice(), buf, strategy, true);
}

/// The transform with its preconditions checked first: on unequal lengths, or a
/// length that is not a power of two, it returns the error and writes nothing.
pub fn try_fft<C: ComplexLanes>(input: &[C], output: &mut [C], strategy: Strategy, inverse: bool) -> (r:
    Result<(), FftError>)
    ensures
        input@.len() != old(output)@.len() <==> r == Err::<(), FftError>(FftError::LengthMismatch),
        input@.len() == old(output)@.len() && !power_of_two(input@.len()) <==> r == Err::<
            (),
            FftError,
        >(FftError::NotPowerOfTwo),
        r.is_err() ==> final(output)@ == old(output)@,
        r.is_ok() ==> final(output)@ == fft_output(input@, inverse),
{
    if input.len() != output.len() {
        return Err(FftError::LengthMismatch);
    }
    if !is_power_of_2(input.len()) {
        return Err(FftError::NotPowerOfTwo);
    }
    fft_with_strategy(input, output, strategy, inverse);
    Ok(())
}

} // verus!
