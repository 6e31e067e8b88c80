use crate::engine::ComplexLanes;
use vstd::arithmetic::div_mod::{lemma_add_mod_noop, lemma_fundamental_div_mod_converse, lemma_small_mod};
use vstd::prelude::*;

verus! {

/// `(e + i) mod n` for `e, i < n`, without overflow.
fn add_mod(e: usize, i: usize, n: usize) -> (r: usize)
    requires
        e < n,
        i < n,
    ensures
        r == (e + i) % (n as int),
        r < n,
{
    if e >= n - i {
        proof {
            lemma_fundamental_div_mod_converse((e + i) as int, n as int, 1, (e + i - n) as int);
        }
        e - (n - i)
    } else {
        proof {
            lemma_small_mod((e + i) as nat, n as nat);
        }
        e + i
    }
}

/// `sum_{j < k} x[j] * twiddle(i * j mod n, n)`: the first `k` terms of bin `i`.
pub open spec fn dft_partial<C: ComplexLanes>(x: Seq<C>, i: nat, k: nat, inverse: bool) -> C
    decreases k,
{
    if k == 0 {
        C::spec_zero()
    } else {
        let j = (k - 1) as nat;
        C::spec_plus(
            dft_partial(x, i, j, inverse),
            C::spec_times(x[j as int], C::spec_twiddle(((i * j) % x.len()) as usize, x.len() as usize, inverse)),
        )
    }
}

/// Bin `i` of the direct transform of `x`; the inverse is divided by `n`.
pub open spec fn dft_value<C: ComplexLanes>(x: Seq<C>, i: nat, inverse: bool) -> C {
    let s = dft_partial(x, i, x.len(), inverse);
    if inverse {
        C::spec_divide(s, x.len() as usize)
    } else {
        s
    }
}

/// The direct `O(n^2)` transform: `output[i] = sum_j input[j] * e^(-2 pi i i j / n)`,
/// or with `e^(2 pi i i j / n)` and divided by `n` when `inverse`. Any length.
fn dft_helper<C: ComplexLanes>(input: &[C], output: &mut [C], inverse: bool)
    requires
        input@.len() == old(output)@.len(),
    ensures
        final(output)@.len() == input@.len(),
        forall|i: int|
            0 <= i < input@.len() ==> #[trigger] final(output)@[i] == dft_value(
                input@,
                i as nat,
                inverse,
            ),
{
    let n = input.len();
    let mut i: usize = 0;
    while i < n
        invariant
            n == input@.len(),
            output@.len() == n,
            i <= n,
            forall|k: int| 0 <= k < i ==> #[trigger] output@[k] == dft_value(input@, k as nat, inverse),
        decreases n - i,
    {
        let mut y = C::zero();
        // `e` runs over the exponents `i * j mod n`.
        let mut e: usize = 0;
        let mut j: usize = 0;
        proof {
            assert(i * 0 == 0);
            lemma_small_mod(0, n as nat);
        }
        while j < n
            invariant
                n == input@.len(),
                i < n,
                j <= n,
                e < n,
                e == (i * j) % (n as int),
                y == dft_partial(input@, i as nat, j as nat, inverse),
            decreases n - j,
        {
            y = y.plus(input[j].times(C::twiddle(e, n, inverse)));
            proof {
                lemma_small_mod(i as nat, n as nat);
                lemma_add_mod_noop(i * j, i as int, n as int);
                assert(i * j + i == i * (j + 1)) by (nonlinear_arith);
            }
            e = add_mod(e, i, n);
            j += 1;
        }
        if inverse {
            y = y.divide(n);
        }
        output[i] = y;
        i += 1;
    }
}

/// Direct forward transform of `input` into `output`, any length.
pub fn dft<C: ComplexLanes>(input: &[C], output: &mut [C])
    requires
        input@.len() == old(output)@.len(),
    ensures
        final(output)@.len() == input@.len(),
        forall|i: int|
            0 <= i < input@.len() ==> #[trigger] final(output)@[i] == dft_value(input@, i as nat, false),
{
    dft_helper(input, output, false);
}

/// Direct inverse transform of `input` into `output`, divided by `n`, any length.
pub fn idft<C: ComplexLanes>(input: &[C], output: &mut [C])
    requires
        input@.len() == old(output)@.len(),
    ensures
        final(output)@.len() == input@.len(),
        forall|i: int|
            0 <= i < input@.len() ==> #[trigger] final(output)@[i] == dft_value(input@, i as nat, true),
{
    dft_helper(input, output, true);
}

} // verus!
