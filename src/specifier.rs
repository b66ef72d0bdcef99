//! Field types: how wide a field is and how its value maps to raw bits.
use vstd::prelude::*;
use vstd::arithmetic::power2::{pow2, lemma2_to64, lemma_pow2_pos, lemma_pow2_adds};
use vstd::arithmetic::div_mod::lemma_mod_mod;
use core::marker::PhantomData;
use crate::codec::{fits, field_value, stored, splice, le_value, lemma_field_value_bound};
use crate::container::{Load, Num, Store};
use crate::error::BitfieldError;

verus! {

/// A field type: its width in bits and the conversion between its values and
/// the raw numbers that the buffer holds.
pub trait Specifier {
    /// The type of the field's values.
    type Type;

    /// The field's width in bits.
    spec fn spec_bits() -> nat;

    /// The raw number that a value is stored as, before it is cut to the width.
    spec fn raw(v: Self::Type) -> nat;

    /// Whether a raw number stands for some value.
    spec fn decodes(r: nat) -> bool;

    /// Whether the field type is well formed: its width lies in `1 ..= 64` and its
    /// value type can hold every value it decodes.
    spec fn wf() -> bool;

    /// A well-formed field type is 1 to 64 bits wide.
    proof fn lemma_wf()
        requires
            Self::wf(),
        ensures
            1 <= Self::spec_bits() <= 64,
    ;

    /// The field's width in bits.
    fn bits() -> (r: usize)
        ensures
            r == Self::spec_bits(),
    ;

    /// Checks the field type when a schema is built.
    fn validate() -> (r: Result<(), BitfieldError>)
        ensures
            r is Ok <==> Self::wf(),
    ;

    /// The value that the raw number `v` stands for.
    fn from(v: u64) -> (r: Self::Type)
        requires
            Self::wf(),
            v < pow2(Self::spec_bits()),
            Self::decodes(v as nat),
        ensures
            Self::raw(r) == v,
    ;

    /// The raw number that `v` is stored as.
    fn to(v: Self::Type) -> (r: u64)
        requires
            Self::wf(),
        ensures
            r == Self::raw(v),
    ;

    /// Reads the field at bit offset `off`, through the narrowest container that
    /// holds its width.
    fn get(off: usize, data: &[u8]) -> (r: Self::Type)
        requires
            Self::wf(),
            fits(off as nat, Self::spec_bits(), data@.len()),
            Self::decodes(field_value(data@, off as nat, Self::spec_bits())),
        ensures
            Self::raw(r) == field_value(data@, off as nat, Self::spec_bits()),
    {
        proof {
            Self::lemma_wf();
            lemma_field_value_bound(data@, off as nat, Self::spec_bits());
        }
        let bits = Self::bits();
        if bits <= 8 {
            Self::from(<u8 as Load>::load(off, bits, data) as u64)
        } else if bits <= 16 {
            Self::from(<u16 as Load>::load(off, bits, data) as u64)
        } else if bits <= 32 {
            Self::from(<u32 as Load>::load(off, bits, data) as u64)
        } else {
            Self::from(<u64 as Load>::load(off, bits, data))
        }
    }

    /// Writes `val` into the field at bit offset `off`, cut to the field's width,
    /// through the narrowest container that holds that width.
    fn set(off: usize, data: &mut [u8], val: Self::Type)
        requires
            Self::wf(),
            fits(off as nat, Self::spec_bits(), old(data)@.len()),
        ensures
            final(data)@ == stored(old(data)@, off as nat, Self::spec_bits(), Self::raw(val)),
    {
        proof {
            Self::lemma_wf();
            lemma2_to64();
        }
        let bits = Self::bits();
        let raw = Self::to(val);
        if bits <= 8 {
            proof {
                lemma_cut_keeps_store(old(data)@, off as nat, bits as nat, raw as nat, 8);
            }
            <u8 as Store>::store(off, bits, data, (raw % 0x100) as u8)
        } else if bits <= 16 {
            proof {
                lemma_cut_keeps_store(old(data)@, off as nat, bits as nat, raw as nat, 16);
            }
            <u16 as Store>::store(off, bits, data, (raw % 0x1_0000) as u16)
        } else if bits <= 32 {
            proof {
                lemma_cut_keeps_store(old(data)@, off as nat, bits as nat, raw as nat, 32);
            }
            <u32 as Store>::store(off, bits, data, (raw % 0x1_0000_0000) as u32)
        } else {
            <u64 as Store>::store(off, bits, data, raw)
        }
    }
}

/// Cutting a value to `k >= len` bits before a store of `len` bits changes nothing.
proof fn lemma_cut_keeps_store(data: Seq<u8>, off: nat, len: nat, v: nat, k: nat)
    requires
        len <= k,
    ensures
        stored(data, off, len, v % pow2(k)) == stored(data, off, len, v),
{
    lemma_pow2_pos(len);
    lemma_pow2_pos((k - len) as nat);
    lemma_pow2_adds(len, (k - len) as nat);
    assert(len + (k - len) as nat == k);
    lemma_mod_mod(v as int, pow2(len) as int, pow2((k - len) as nat) as int);
    assert(splice(le_value(data), off, len, v % pow2(k)) == splice(
        le_value(data),
        off,
        len,
        v,
    ));
}

/// An unsigned field of `N` bits whose values have the type `I`.
///
/// A width beyond the bits of `I` is a schema error: `validate` reports it as
/// `ConversionOverflow` when the schema is built, and the accessors, which ask
/// for a well-formed type, never meet it.
pub struct Bn<I, const N: usize>(PhantomData<I>);

impl<I: Num, const N: usize> Specifier for Bn<I, N> {
    type Type = I;

    open spec fn spec_bits() -> nat {
        N as nat
    }

    open spec fn raw(v: I) -> nat {
        v.as_nat()
    }

    open spec fn decodes(r: nat) -> bool {
        r < pow2(I::max_bits())
    }

    open spec fn wf() -> bool {
        1 <= N <= I::max_bits()
    }

    proof fn lemma_wf() {
        I::lemma_band();
    }

    fn bits() -> (r: usize) {
        N
    }

    /// `InvalidWidth` for a width outside `1 ..= 64`, `ConversionOverflow` for one
    /// wider than `I`.
    fn validate() -> (r: Result<(), BitfieldError>)
        ensures
            !(1 <= N <= 64) ==> r == Err::<(), BitfieldError>(BitfieldError::InvalidWidth),
            1 <= N <= 64 && N > I::max_bits() ==> r == Err::<(), BitfieldError>(
                BitfieldError::ConversionOverflow,
            ),
    {
        proof {
            I::lemma_band();
        }
        let (_, widest) = I::bits_range();
        if N == 0 || N > 64 {
            Err(BitfieldError::InvalidWidth)
        } else if N > widest {
            Err(BitfieldError::ConversionOverflow)
        } else {
            Ok(())
        }
    }

    fn from(v: u64) -> (r: I) {
        I::from_raw(v)
    }

    fn to(v: I) -> (r: u64) {
        v.to_raw()
    }
}

impl Specifier for bool {
    type Type = bool;

    open spec fn spec_bits() -> nat {
        1
    }

    open spec fn raw(v: bool) -> nat {
        if v {
            1
        } else {
            0
        }
    }

    open spec fn decodes(r: nat) -> bool {
        r < 2
    }

    open spec fn wf() -> bool {
        true
    }

    proof fn lemma_wf() {
    }

    fn bits() -> (r: usize) {
        1
    }

    fn validate() -> (r: Result<(), BitfieldError>) {
        Ok(())
    }

    fn from(v: u64) -> (r: bool) {
        v == 1
    }

    fn to(v: bool) -> (r: u64) {
        if v {
            1
        } else {
            0
        }
    }
}

/// An unsigned field of 1 bits.
pub type B1 = Bn<u8, 1>;

/// An unsigned field of 2 bits.
pub type B2 = Bn<u8, 2>;

/// An unsigned field of 3 bits.
pub type B3 = Bn<u8, 3>;

/// An unsigned field of 4 bits.
pub type B4 = Bn<u8, 4>;

/// An unsigned field of 5 bits.
pub type B5 = Bn<u8, 5>;

/// An unsigned field of 6 bits.
pub type B6 = Bn<u8, 6>;

/// An unsigned field of 7 bits.
pub type B7 = Bn<u8, 7>;

/// An unsigned field of 8 bits.
pub type B8 = Bn<u8, 8>;

/// An unsigned field of 9 bits.
pub type B9 = Bn<u16, 9>;

/// An unsigned field of 10 bits.
pub type B10 = Bn<u16, 10>;

/// An unsigned field of 11 bits.
pub type B11 = Bn<u16, 11>;

/// An unsigned field of 12 bits.
pub type B12 = Bn<u16, 12>;

/// An unsigned field of 13 bits.
pub type B13 = Bn<u16, 13>;

/// An unsigned field of 14 bits.
pub type B14 = Bn<u16, 14>;

/// An unsigned field of 15 bits.
pub type B15 = Bn<u16, 15>;

/// An unsigned field of 16 bits.
pub type B16 = Bn<u16, 16>;

/// An unsigned field of 17 bits.
pub type B17 = Bn<u32, 17>;

/// An unsigned field of 18 bits.
pub type B18 = Bn<u32, 18>;

/// An unsigned field of 19 bits.
pub type B19 = Bn<u32, 19>;

/// An unsigned field of 20 bits.
pub type B20 = Bn<u32, 20>;

/// An unsigned field of 21 bits.
pub type B21 = Bn<u32, 21>;

/// An unsigned field of 22 bits.
pub type B22 = Bn<u32, 22>;

/// An unsigned field of 23 bits.
pub type B23 = Bn<u32, 23>;

/// An unsigned field of 24 bits.
pub type B24 = Bn<u32, 24>;

/// An unsigned field of 25 bits.
pub type B25 = Bn<u32, 25>;

/// An unsigned field of 26 bits.
pub type B26 = Bn<u32, 26>;

/// An unsigned field of 27 bits.
pub type B27 = Bn<u32, 27>;

/// An unsigned field of 28 bits.
pub type B28 = Bn<u32, 28>;

/// An unsigned field of 29 bits.
pub type B29 = Bn<u32, 29>;

/// An unsigned field of 30 bits.
pub type B30 = Bn<u32, 30>;

/// An unsigned field of 31 bits.
pub type B31 = Bn<u32, 31>;

/// An unsigned field of 32 bits.
pub type B32 = Bn<u32, 32>;

/// An unsigned field of 33 bits.
pub type B33 = Bn<u64, 33>;

/// An unsigned field of 34 bits.
pub type B34 = Bn<u64, 34>;

/// An unsigned field of 35 bits.
pub type B35 = Bn<u64, 35>;

/// An unsigned field of 36 bits.
pub type B36 = Bn<u64, 36>;

/// An unsigned field of 37 bits.
pub type B37 = Bn<u64, 37>;

/// An unsigned field of 38 bits.
pub type B38 = Bn<u64, 38>;

/// An unsigned field of 39 bits.
pub type B39 = Bn<u64, 39>;

/// An unsigned field of 40 bits.
pub type B40 = Bn<u64, 40>;

/// An unsigned field of 41 bits.
pub type B41 = Bn<u64, 41>;

/// An unsigned field of 42 bits.
pub type B42 = Bn<u64, 42>;

/// An unsigned field of 43 bits.
pub type B43 = Bn<u64, 43>;

/// An unsigned field of 44 bits.
pub type B44 = Bn<u64, 44>;

/// An unsigned field of 45 bits.
pub type B45 = Bn<u64, 45>;

/// An unsigned field of 46 bits.
pub type B46 = Bn<u64, 46>;

/// An unsigned field of 47 bits.
pub type B47 = Bn<u64, 47>;

/// An unsigned field of 48 bits.
pub type B48 = Bn<u64, 48>;

/// An unsigned field of 49 bits.
pub type B49 = Bn<u64, 49>;

/// An unsigned field of 50 bits.
pub type B50 = Bn<u64, 50>;

/// An unsigned field of 51 bits.
pub type B51 = Bn<u64, 51>;

/// An unsigned field of 52 bits.
pub type B52 = Bn<u64, 52>;

/// An unsigned field of 53 bits.
pub type B53 = Bn<u64, 53>;

/// An unsigned field of 54 bits.
pub type B54 = Bn<u64, 54>;

/// An unsigned field of 55 bits.
pub type B55 = Bn<u64, 55>;

/// An unsigned field of 56 bits.
pub type B56 = Bn<u64, 56>;

/// An unsigned field of 57 bits.
pub type B57 = Bn<u64, 57>;

/// An unsigned field of 58 bits.
pub type B58 = Bn<u64, 58>;

/// An unsigned field of 59 bits.
pub type B59 = Bn<u64, 59>;

/// An unsigned field of 60 bits.
pub type B60 = Bn<u64, 60>;

/// An unsigned field of 61 bits.
pub type B61 = Bn<u64, 61>;

/// An unsigned field of 62 bits.
pub type B62 = Bn<u64, 62>;

/// An unsigned field of 63 bits.
pub type B63 = Bn<u64, 63>;

/// An unsigned field of 64 bits.
pub type B64 = Bn<u64, 64>;

} // verus!
