//! The two rules that give an enumeration its field width and its raw values.
use vstd::prelude::*;
use vstd::arithmetic::power2::{
    pow2, lemma_pow2_pos, lemma_pow2_adds, lemma_pow2_unfold, lemma_pow2_strictly_increases,
    lemma2_to64,
};
use crate::error::BitfieldError;

verus! {

/// The number of binary digits of `x`: 0 for 0.
pub open spec fn bit_length(x: nat) -> nat
    decreases x,
{
    if x == 0 {
        0
    } else {
        1 + bit_length(x / 2)
    }
}

/// The largest element of a non-empty sequence.
pub open spec fn max_of(s: Seq<u64>) -> nat
    recommends
        s.len() > 0,
    decreases s.len(),
{
    if s.len() <= 1 {
        s[0] as nat
    } else {
        let m = max_of(s.drop_last());
        if s.last() as nat > m {
            s.last() as nat
        } else {
            m
        }
    }
}

/// The width of an enumeration by the variant-count rule: `k` for `2^k`
/// variants with `k >= 1`; any other count is refused, since some bit patterns
/// would stand for no variant.
pub fn variant_count_bits(count: u64) -> (r: Result<usize, BitfieldError>)
    ensures
        r is Ok ==> r->Ok_0 >= 1 && pow2(r->Ok_0 as nat) == count,
        r is Err ==> r == Err::<usize, BitfieldError>(BitfieldError::InvalidVariantCount)
            && forall|k: nat| k >= 1 ==> #[trigger] pow2(k) != count,
{
    let mut c: u64 = count;
    let mut k: usize = 0;
    proof {
        lemma2_to64();
    }
    while c > 1 && c % 2 == 0
        invariant
            count == c * pow2(k as nat),
            k <= 64,
            c <= count,
            c > 0 ==> pow2(k as nat) <= count,
            count > 0 ==> c > 0,
        decreases c,
    {
        proof {
            lemma_pow2_unfold((k + 1) as nat);
            lemma_pow2_pos(k as nat);
            assert(count == (c / 2) * pow2((k + 1) as nat)) by (nonlinear_arith)
                requires
                    count == c * pow2(k as nat),
                    c % 2 == 0,
                    pow2((k + 1) as nat) == 2 * pow2(k as nat),
            ;
            assert(pow2((k + 1) as nat) <= count) by (nonlinear_arith)
                requires
                    count == (c / 2) * pow2((k + 1) as nat),
                    c / 2 >= 1,
                    pow2((k + 1) as nat) > 0,
            ;
            lemma2_to64();
            if k + 1 > 64 {
                lemma_pow2_strictly_increases(64, (k + 1) as nat);
            }
        }
        c = c / 2;
        k = k + 1;
    }
    if c == 1 && k >= 1 {
        Ok(k)
    } else {
        proof {
            assert forall|j: nat| j >= 1 implies #[trigger] pow2(j) != count by {
                lemma_pow2_pos(j);
                lemma_pow2_pos(k as nat);
                if pow2(j) == count {
                    if count == 0 {
                    } else if c == 1 {
                        // k == 0, so count == 1 < 2 <= pow2(j)
                        lemma_pow2_unfold(j);
                        lemma_pow2_pos((j - 1) as nat);
                    } else if j <= k {
                        if j < k {
                            lemma_pow2_strictly_increases(j, k as nat);
                        }
                        assert(c * pow2(k as nat) > pow2(k as nat)) by (nonlinear_arith)
                            requires
                                c > 1,
                                pow2(k as nat) > 0,
                        ;
                    } else {
                        // c is odd and above 1, yet would be a power of two
                        lemma_pow2_adds(k as nat, (j - k) as nat);
                        assert(k as nat + (j - k) as nat == j);
                        let d = pow2((j - k) as nat);
                        assert(c == d) by (nonlinear_arith)
                            requires
                                c * pow2(k as nat) == pow2(k as nat) * d,
                                pow2(k as nat) > 0,
                        ;
                        lemma_pow2_unfold((j - k) as nat);
                    }
                }
            }
        }
        Err(BitfieldError::InvalidVariantCount)
    }
}

proof fn lemma_bit_length_bound(x: nat, n: nat)
    requires
        x < pow2(n),
    ensures
        bit_length(x) <= n,
    decreases n,
{
    if x > 0 {
        if n == 0 {
            lemma2_to64();
        } else {
            lemma_pow2_unfold(n);
            lemma_bit_length_bound(x / 2, (n - 1) as nat);
        }
    }
}

/// The number of binary digits of `x`.
fn bit_length_of(x: u64) -> (r: usize)
    ensures
        r == bit_length(x as nat),
        r <= 64,
{
    let mut m: u64 = x;
    let mut bits: usize = 0;
    proof {
        lemma2_to64();
        lemma_bit_length_bound(x as nat, 64);
    }
    while m != 0
        invariant
            bits + bit_length(m as nat) == bit_length(x as nat),
            bits + bit_length(m as nat) <= 64,
        decreases m,
    {
        m = m / 2;
        bits = bits + 1;
    }
    bits
}

/// The width of an enumeration by the discriminant rule: the bit length of the
/// largest discriminant, and at least 1. An enumeration without variants is
/// refused.
pub fn discriminant_bits(discriminants: &[u64]) -> (r: Result<usize, BitfieldError>)
    ensures
        discriminants@.len() == 0 ==> r == Err::<usize, BitfieldError>(
            BitfieldError::InvalidVariantCount,
        ),
        discriminants@.len() > 0 ==> r == Ok::<usize, BitfieldError>(
            if bit_length(max_of(discriminants@)) == 0 {
                1
            } else {
                bit_length(max_of(discriminants@)) as usize
            },
        ),
{
    if discriminants.len() == 0 {
        return Err(BitfieldError::InvalidVariantCount);
    }
    let mut max: u64 = discriminants[0];
    let mut i: usize = 1;
    while i < discriminants.len()
        invariant
            1 <= i <= discriminants@.len(),
            max as nat == max_of(discriminants@.subrange(0, i as int)),
        decreases discriminants@.len() - i,
    {
        proof {
            let s = discriminants@.subrange(0, i + 1);
            assert(s.drop_last() =~= discriminants@.subrange(0, i as int));
        }
        if discriminants[i] > max {
            max = discriminants[i];
        }
        i = i + 1;
    }
    proof {
        assert(discriminants@.subrange(0, i as int) =~= discriminants@);
    }
    let bits = bit_length_of(max);
    if bits == 0 {
        Ok(1)
    } else {
        Ok(bits)
    }
}

/// The bit count of the narrowest container for a field of `bits` bits.
pub fn ty_for_bits(bits: usize) -> (r: Result<usize, BitfieldError>)
    ensures
        r == container_bits(bits as nat),
{
    if bits == 0 || bits > 64 {
        Err(BitfieldError::InvalidWidth)
    } else if bits <= 8 {
        Ok(8)
    } else if bits <= 16 {
        Ok(16)
    } else if bits <= 32 {
        Ok(32)
    } else {
        Ok(64)
    }
}

/// The container band of a width: 1-8, 9-16, 17-32 and 33-64 bits.
pub open spec fn container_bits(bits: nat) -> Result<usize, BitfieldError> {
    if bits == 0 || bits > 64 {
        Err(BitfieldError::InvalidWidth)
    } else if bits <= 8 {
        Ok(8)
    } else if bits <= 16 {
        Ok(16)
    } else if bits <= 32 {
        Ok(32)
    } else {
        Ok(64)
    }
}

/// Whether no two variants share a discriminant.
pub open spec fn distinct(s: Seq<u64>) -> bool {
    forall|a: int, b: int| 0 <= a < b < s.len() ==> s[a] != s[b]
}

/// The variant whose discriminant is `raw`: the first such index, or
/// `UnknownDiscriminant` when no variant has it. With distinct discriminants,
/// decoding a variant's own discriminant gives that variant back.
pub fn decode_discriminant(discriminants: &[u64], raw: u64) -> (r: Result<usize, BitfieldError>)
    ensures
        r is Ok ==> r->Ok_0 < discriminants@.len() && discriminants@[r->Ok_0 as int] == raw
            && forall|j: int| 0 <= j < r->Ok_0 ==> discriminants@[j] != raw,
        r is Err ==> r == Err::<usize, BitfieldError>(BitfieldError::UnknownDiscriminant)
            && forall|j: int| 0 <= j < discriminants@.len() ==> discriminants@[j] != raw,
        forall|v: int|
            0 <= v < discriminants@.len() && distinct(discriminants@) && #[trigger] discriminants@[v]
                == raw ==> r == Ok::<usize, BitfieldError>(v as usize),
{
    let mut i: usize = 0;
    while i < discriminants.len()
        invariant
            i <= discriminants@.len(),
            forall|j: int| 0 <= j < i ==> discriminants@[j] != raw,
        decreases discriminants@.len() - i,
    {
        if discriminants[i] == raw {
            return Ok(i);
        }
        i = i + 1;
    }
    Err(BitfieldError::UnknownDiscriminant)
}

/// The raw value of variant `variant` under the discriminant rule.
pub fn encode_discriminant(discriminants: &[u64], variant: usize) -> (r: u64)
    requires
        variant < discriminants@.len(),
    ensures
        r == discriminants@[variant as int],
{
    discriminants[variant]
}

} // verus!
