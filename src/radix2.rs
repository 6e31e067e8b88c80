use crate::bits::{log2, reversed_bits};
use crate::engine::ComplexLanes;
use crate::schedule::{
    butterfly_of,
    butterfly_position,
    butterfly_rank,
    is_stage_plan,
    lemma_butterfly_in_bounds,
    lemma_stage_facts,
    lemma_stage_touches_each_position_once,
    lemma_strategies_run_same_butterflies,
    owner,
    touches,
    valid_stage,
    StagePlan,
    Strategy,
};
use vstd::prelude::*;

verus! {

/// `wm^e`, formed by the recurrence `w <- w * wm` from `w = 1`.
pub open spec fn twiddle_power<C: ComplexLanes>(wm: C, e: nat) -> C
    decreases e,
{
    if e == 0 {
        C::spec_one()
    } else {
        C::spec_times(twiddle_power(wm, (e - 1) as nat), wm)
    }
}

/// The root of unity of a stage of width `m`.
pub open spec fn stage_root<C: ComplexLanes>(m: nat, inverse: bool) -> C {
    C::spec_twiddle(1, m as usize, inverse)
}

/// The value at position `p` after the stage of width `m` on `x`: the butterfly
/// that owns `p` gives `u + w t` at its top and `u - w t` at its bottom.
pub open spec fn butterfly_value<C: ComplexLanes>(x: Seq<C>, m: nat, inverse: bool, p: nat) -> C {
    let o = owner(m, p);
    let top = o.0 * m + o.1;
    let wt = C::spec_times(twiddle_power(stage_root::<C>(m, inverse), o.1), x[(top + m / 2) as int]);
    if p == top {
        C::spec_plus(x[top as int], wt)
    } else {
        C::spec_minus(x[top as int], wt)
    }
}

/// `x` after the stage of width `m`.
pub open spec fn stage_output<C: ComplexLanes>(x: Seq<C>, m: nat, inverse: bool) -> Seq<C> {
    Seq::new(x.len(), |p: int| butterfly_value(x, m, inverse, p as nat))
}

/// `x` after the stages of widths `2, 4, ..., m`.
pub open spec fn stages_output<C: ComplexLanes>(x: Seq<C>, m: nat, inverse: bool) -> Seq<C>
    decreases m,
{
    if m <= 1 {
        x
    } else {
        stage_output(stages_output(x, m / 2, inverse), m, inverse)
    }
}

/// Every sample of `x` divided by `n`.
pub open spec fn divide_all<C: ComplexLanes>(x: Seq<C>, n: nat) -> Seq<C> {
    Seq::new(x.len(), |i: int| C::spec_divide(x[i], n as usize))
}

/// All stages on a bit-reversed buffer; the inverse is divided by `n`.
pub open spec fn radix2_output<C: ComplexLanes>(x: Seq<C>, inverse: bool) -> Seq<C> {
    let y = stages_output(x, x.len(), inverse);
    if inverse {
        divide_all(y, x.len())
    } else {
        y
    }
}

/// `x` with the element at `k` moved to the bit reversal of `k`.
pub open spec fn bit_reversed<T>(x: Seq<T>) -> Seq<T> {
    Seq::new(x.len(), |i: int| x[reversed_bits(i as nat, log2(x.len())) as int])
}

/// The radix-2 transform of `x`: bit-reversed copy, then all stages.
pub open spec fn fft_output<C: ComplexLanes>(x: Seq<C>, inverse: bool) -> Seq<C> {
    radix2_output(bit_reversed(x), inverse)
}

/// `buf` is `x` with the first `k` butterflies of the plan's run order applied.
pub closed spec fn stage_progress<C: ComplexLanes>(
    n: nat,
    m: nat,
    s: Strategy,
    x: Seq<C>,
    inverse: bool,
    buf: Seq<C>,
    k: nat,
) -> bool {
    &&& buf.len() == n
    &&& forall|p: int|
        0 <= p < n ==> #[trigger] buf[p] == if butterfly_rank(
            n,
            m,
            s,
            owner(m, p as nat).0,
            owner(m, p as nat).1,
        ) < k {
            stage_output(x, m, inverse)[p]
        } else {
            x[p]
        }
}

/// While a stage runs, a position whose butterfly has not run yet holds its input.
pub proof fn lemma_progress_read<C: ComplexLanes>(
    n: nat,
    m: nat,
    s: Strategy,
    x: Seq<C>,
    inverse: bool,
    buf: Seq<C>,
    k: nat,
    p: nat,
)
    requires
        stage_progress(n, m, s, x, inverse, buf, k),
    ensures
        buf.len() == n,
        p < n && butterfly_rank(n, m, s, owner(m, p).0, owner(m, p).1) >= k ==> buf[p as int]
            == x[p as int],
{
    if p < n {
        assert(buf[p as int] == if butterfly_rank(
            n,
            m,
            s,
            owner(m, p).0,
            owner(m, p).1,
        ) < k {
            stage_output(x, m, inverse)[p as int]
        } else {
            x[p as int]
        });
    }
}

/// Where the `k`-th butterfly of a plan reads and writes, and what it writes.
pub proof fn lemma_plan_butterfly<C: ComplexLanes>(
    n: nat,
    m: nat,
    s: Strategy,
    plan: StagePlan,
    x: Seq<C>,
    inverse: bool,
    k: nat,
)
    requires
        valid_stage(n, m),
        is_stage_plan(n, m, s, plan),
        x.len() == n,
        n <= usize::MAX,
        k < n / 2,
    ensures
        ({
            let bf = plan.butterflies@[k as int];
            let top = bf.top as nat;
            let bot = bf.bottom as nat;
            let wt = C::spec_times(
                twiddle_power(stage_root::<C>(m, inverse), bf.twiddle as nat),
                x[bot as int],
            );
            &&& top < bot < n
            &&& bot == top + m / 2
            &&& butterfly_rank(n, m, s, owner(m, top).0, owner(m, top).1) == k
            &&& butterfly_rank(n, m, s, owner(m, bot).0, owner(m, bot).1) == k
            &&& stage_output(x, m, inverse)[top as int] == C::spec_plus(x[top as int], wt)
            &&& stage_output(x, m, inverse)[bot as int] == C::spec_minus(x[top as int], wt)
        }),
{
    lemma_stage_facts(n, m);
    lemma_strategies_run_same_butterflies(n, m, s);
    lemma_stage_touches_each_position_once(n, m);
    let pos = butterfly_position(n, m, s, k);
    let b = pos.0;
    let j = pos.1;
    lemma_butterfly_in_bounds(n, m, b, j);
    assert(b * m <= b * m + j) by (nonlinear_arith);
    let top = b * m + j;
    let bot = top + m / 2;
    assert(plan.butterflies@[k as int] == butterfly_of(m, b, j));
    assert(touches(m, b, j, top));
    assert(touches(m, b, j, bot));
    assert(owner(m, top) == (b, j));
    assert(owner(m, bot) == (b, j));
    let bf = plan.butterflies@[k as int];
    assert(bf.top as nat == top && bf.bottom as nat == bot && bf.twiddle as nat == j);
    assert(stage_output(x, m, inverse)[top as int] == butterfly_value(x, m, inverse, top));
    assert(stage_output(x, m, inverse)[bot as int] == butterfly_value(x, m, inverse, bot));
}

/// Applying the `k`-th butterfly advances the progress of a stage by one.
#[verifier::rlimit(30)]
pub proof fn lemma_apply_butterfly<C: ComplexLanes>(
    n: nat,
    m: nat,
    s: Strategy,
    plan: StagePlan,
    x: Seq<C>,
    inverse: bool,
    before: Seq<C>,
    k: nat,
    after: Seq<C>,
)
    requires
        valid_stage(n, m),
        is_stage_plan(n, m, s, plan),
        x.len() == n,
        n <= usize::MAX,
        k < n / 2,
        stage_progress(n, m, s, x, inverse, before, k),
        after == before.update(
            plan.butterflies@[k as int].top as int,
            stage_output(x, m, inverse)[plan.butterflies@[k as int].top as int],
        ).update(
            plan.butterflies@[k as int].bottom as int,
            stage_output(x, m, inverse)[plan.butterflies@[k as int].bottom as int],
        ),
    ensures
        stage_progress(n, m, s, x, inverse, after, k + 1),
{
    lemma_plan_butterfly(n, m, s, plan, x, inverse, k);
    lemma_strategies_run_same_butterflies(n, m, s);
    lemma_stage_touches_each_position_once(n, m);
    let bf = plan.butterflies@[k as int];
    let pos = butterfly_position(n, m, s, k);
    assert forall|p: int| 0 <= p < n implies #[trigger] after[p] == if butterfly_rank(
        n,
        m,
        s,
        owner(m, p as nat).0,
        owner(m, p as nat).1,
    ) < k + 1 {
        stage_output(x, m, inverse)[p]
    } else {
        x[p]
    } by {
        if p != bf.top && p != bf.bottom {
            let o = owner(m, p as nat);
            assert(touches(m, o.0, o.1, p as nat));
            if butterfly_rank(n, m, s, o.0, o.1) == k {
                assert(butterfly_position(n, m, s, butterfly_rank(n, m, s, o.0, o.1)) == o);
                assert(bf == butterfly_of(m, pos.0, pos.1));
            }
            assert(before[p] == after[p]);
        }
    }
}

/// Before any butterfly runs, the buffer is the stage's input.
pub proof fn lemma_progress_start<C: ComplexLanes>(
    n: nat,
    m: nat,
    s: Strategy,
    x: Seq<C>,
    inverse: bool,
)
    requires
        x.len() == n,
    ensures
        stage_progress(n, m, s, x, inverse, x, 0),
{
}

/// After all of its butterflies, the buffer is the stage's output.
pub proof fn lemma_progress_end<C: ComplexLanes>(
    n: nat,
    m: nat,
    s: Strategy,
    x: Seq<C>,
    inverse: bool,
    buf: Seq<C>,
)
    requires
        valid_stage(n, m),
        x.len() == n,
        stage_progress(n, m, s, x, inverse, buf, n / 2),
    ensures
        buf == stage_output(x, m, inverse),
{
    lemma_strategies_run_same_butterflies(n, m, s);
    lemma_stage_touches_each_position_once(n, m);
    assert forall|p: int| 0 <= p < n implies buf[p] == stage_output(x, m, inverse)[p] by {
        let o = owner(m, p as nat);
        assert(butterfly_rank(n, m, s, o.0, o.1) < n / 2);
    }
    assert(buf =~= stage_output(x, m, inverse));
}

} // verus!
