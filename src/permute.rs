use crate::bits::{
    bit_width,
    bitrev,
    is_power_of_2,
    lemma_bit_width_pow2,
    lemma_bitrev_injective,
    lemma_bitrev_involution,
    lemma_power_of_two_is_pow2,
    lemma_reversed_bits_bound,
    log2,
    numbits,
    power_of_two,
    reversed_bits,
};
use crate::engine::FftError;
use vstd::arithmetic::power2::{lemma_pow2_strictly_increases, pow2};
use vstd::layout::unsigned_int_max_values;
use vstd::prelude::*;

verus! {

/// `out` is `input` with the element at `k` moved to the bit reversal of `k`.
pub open spec fn is_bit_reversed_copy<T>(input: Seq<T>, out: Seq<T>) -> bool {
    &&& out.len() == input.len()
    &&& forall|k: int|
        0 <= k < input.len() ==> #[trigger] out[reversed_bits(k as nat, log2(input.len()))
            as int] == input[k]
    &&& forall|i: int|
        0 <= i < input.len() ==> #[trigger] out[i] == input[reversed_bits(
            i as nat,
            log2(input.len()),
        ) as int]
}

/// Facts on the index space of a power-of-two buffer of length `n`.
pub proof fn lemma_log2_facts(n: nat)
    requires
        power_of_two(n),
    ensures
        n == pow2(log2(n)),
        bit_width((n - 1) as nat) == log2(n),
        log2(n) < usize::BITS || n > usize::MAX,
{
    lemma_power_of_two_is_pow2(n);
    lemma_bit_width_pow2(log2(n));
    unsigned_int_max_values();
    if log2(n) > usize::BITS {
        lemma_pow2_strictly_increases(usize::BITS as nat, log2(n));
    }
}

/// Copies `input` into `output` in bit-reversed order of the indices:
/// `output[bitrev(k)] = input[k]` over the `log2(n)` low bits.
pub fn bit_reverse_copy<T: Copy>(input: &[T], output: &mut [T])
    requires
        input@.len() == old(output)@.len(),
        power_of_two(input@.len()),
    ensures
        is_bit_reversed_copy(input@, final(output)@),
{
    let n = input.len();
    proof {
        lemma_log2_facts(n as nat);
    }
    let bits = numbits(n - 1);
    let ghost b = log2(n as nat);
    let mut k: usize = 0;
    while k < n
        invariant
            n == input@.len(),
            output@.len() == n,
            bits == b,
            b < usize::BITS,
            n == pow2(b),
            0 <= k <= n,
            forall|j: int|
                0 <= j < k ==> #[trigger] output@[reversed_bits(j as nat, b) as int] == input@[j],
        decreases n - k,
    {
        let r = bitrev(k, bits);
        proof {
            lemma_reversed_bits_bound(k as nat, b);
            assert forall|j: int| 0 <= j < k implies #[trigger] reversed_bits(j as nat, b) != r
                && reversed_bits(j as nat, b) < n by {
                lemma_reversed_bits_bound(j as nat, b);
                if reversed_bits(j as nat, b) == r {
                    lemma_bitrev_injective(j as nat, k as nat, b);
                }
            }
        }
        output[r] = input[k];
        k += 1;
    }
    proof {
        assert forall|i: int| 0 <= i < n implies #[trigger] output@[i] == input@[reversed_bits(
            i as nat,
            b,
        ) as int] by {
            lemma_bitrev_involution(i as nat, b);
            lemma_reversed_bits_bound(i as nat, b);
            let j = reversed_bits(i as nat, b) as int;
            assert(output@[reversed_bits(j as nat, b) as int] == input@[j]);
        }
    }
}

/// The bit-reversed copy with its preconditions checked first: on unequal lengths,
/// or a length that is not a power of two, it returns the error and writes nothing.
pub fn try_bit_reverse_copy<T: Copy>(input: &[T], output: &mut [T]) -> (r: Result<(), FftError>)
    ensures
        input@.len() != old(output)@.len() <==> r == Err::<(), FftError>(FftError::LengthMismatch),
        input@.len() == old(output)@.len() && !power_of_two(input@.len()) <==> r == Err::<
            (),
            FftError,
        >(FftError::NotPowerOfTwo),
        r.is_err() ==> final(output)@ == old(output)@,
        r.is_ok() ==> is_bit_reversed_copy(input@, final(output)@),
{
    if input.len() != output.len() {
        return Err(FftError::LengthMismatch);
    }
    if !is_power_of_2(input.len()) {
        return Err(FftError::NotPowerOfTwo);
    }
    bit_reverse_copy(input, output);
    Ok(())
}

} // verus!
