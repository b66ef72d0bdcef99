//! The unsigned integer types that carry field values, one per width band.
use vstd::prelude::*;
use vstd::arithmetic::power2::{pow2, lemma2_to64};
use crate::codec::{
    fits, field_value, stored, load_bits, store_bits, lemma_field_value_bound, lemma_pow2_le,
};
use crate::error::BitfieldError;

verus! {

/// An unsigned integer type that carries fields of the widths in its band.
pub trait Num: Sized {
    /// The narrowest field width that this type carries.
    spec fn min_bits() -> nat;

    /// The widest field width that this type carries: its own bit count.
    spec fn max_bits() -> nat;

    /// The value as a number.
    spec fn as_nat(self) -> nat;

    /// The band is a non-empty part of `1 ..= 64`.
    proof fn lemma_band()
        ensures
            1 <= Self::min_bits() <= Self::max_bits() <= 64,
    ;

    /// The band of widths, as `(narrowest, widest)`.
    fn bits_range() -> (r: (usize, usize))
        ensures
            r.0 == Self::min_bits(),
            r.1 == Self::max_bits(),
    ;

    /// The value of this type that stands for `v`.
    fn from_raw(v: u64) -> (r: Self)
        requires
            v < pow2(Self::max_bits()),
        ensures
            r.as_nat() == v,
    ;

    /// The number that this value stands for.
    fn to_raw(self) -> (r: u64)
        ensures
            r == self.as_nat(),
    ;

    /// Checks that `len` lies in this type's band.
    fn assert_len(len: usize) -> (r: Result<(), BitfieldError>)
        ensures
            r is Ok <==> Self::min_bits() <= len <= Self::max_bits(),
            r is Err ==> r == Err::<(), BitfieldError>(BitfieldError::InvalidWidth),
    {
        let (lo, hi) = Self::bits_range();
        if lo <= len && len <= hi {
            Ok(())
        } else {
            Err(BitfieldError::InvalidWidth)
        }
    }

    /// Checks an access of `len` bits at `off` into a buffer of `n` bytes: the width
    /// first, then the bounds.
    fn check_access(off: usize, len: usize, n: usize) -> (r: Result<(), BitfieldError>)
        ensures
            r == access_result(Self::min_bits(), Self::max_bits(), off as nat, len as nat, n as nat),
    {
        Self::assert_len(len)?;
        proof {
            Self::lemma_band();
        }
        if off / 8 >= n || (off % 8 + len - 1) / 8 >= n - off / 8 {
            Err(BitfieldError::OutOfBounds)
        } else {
            Ok(())
        }
    }
}

/// What checking an access gives: `InvalidWidth` for a width outside
/// `lo ..= hi`, else `OutOfBounds` for bits past the end of `n` bytes.
pub open spec fn access_result(lo: nat, hi: nat, off: nat, len: nat, n: nat) -> Result<
    (),
    BitfieldError,
> {
    if !(lo <= len <= hi) {
        Err(BitfieldError::InvalidWidth)
    } else if !fits(off, len, n) {
        Err(BitfieldError::OutOfBounds)
    } else {
        Ok(())
    }
}

/// Reading a field into a container type.
pub trait Load: Num {
    /// Reads the field of `len` bits at bit offset `off`.
    fn load(off: usize, len: usize, data: &[u8]) -> (r: Self)
        requires
            Self::min_bits() <= len <= Self::max_bits(),
            fits(off as nat, len as nat, data@.len()),
        ensures
            r.as_nat() == field_value(data@, off as nat, len as nat),
    {
        proof {
            Self::lemma_band();
            lemma_field_value_bound(data@, off as nat, len as nat);
            lemma_pow2_le(len as nat, Self::max_bits());
        }
        Self::from_raw(load_bits(off, len, data))
    }

    /// Reads the field, or says why the access is refused.
    fn try_load(off: usize, len: usize, data: &[u8]) -> (r: Result<Self, BitfieldError>)
        ensures
            access_result(Self::min_bits(), Self::max_bits(), off as nat, len as nat, data@.len())
                is Err ==> r == Err::<Self, BitfieldError>(
                access_result(Self::min_bits(), Self::max_bits(), off as nat, len as nat, data@.len())->Err_0,
            ),
            access_result(Self::min_bits(), Self::max_bits(), off as nat, len as nat, data@.len())
                is Ok ==> r is Ok && r->Ok_0.as_nat() == field_value(data@, off as nat, len as nat),
    {
        Self::check_access(off, len, data.len())?;
        Ok(Self::load(off, len, data))
    }
}

/// Writing a field from a container type.
pub trait Store: Num {
    /// Writes the low `len` bits of `val` into the field at bit offset `off`.
    fn store(off: usize, len: usize, data: &mut [u8], val: Self)
        requires
            Self::min_bits() <= len <= Self::max_bits(),
            fits(off as nat, len as nat, old(data)@.len()),
        ensures
            final(data)@ == stored(old(data)@, off as nat, len as nat, val.as_nat()),
    {
        proof {
            Self::lemma_band();
        }
        store_bits(off, len, data, val.to_raw())
    }

    /// Writes the field, or says why the access is refused and leaves `data` as it was.
    fn try_store(off: usize, len: usize, data: &mut [u8], val: Self) -> (r: Result<
        (),
        BitfieldError,
    >)
        ensures
            r == access_result(Self::min_bits(), Self::max_bits(), off as nat, len as nat, old(data)@.len()),
            r is Ok ==> final(data)@ == stored(old(data)@, off as nat, len as nat, val.as_nat()),
            r is Err ==> final(data)@ == old(data)@,
    {
        Self::check_access(off, len, data.len())?;
        Self::store(off, len, data, val);
        Ok(())
    }
}

impl Num for u8 {
    open spec fn min_bits() -> nat {
        1
    }

    open spec fn max_bits() -> nat {
        8
    }

    open spec fn as_nat(self) -> nat {
        self as nat
    }

    proof fn lemma_band() {
    }

    fn bits_range() -> (r: (usize, usize)) {
        (1, 8)
    }

    fn from_raw(v: u64) -> (r: u8) {
        proof {
            lemma2_to64();
        }
        v as u8
    }

    fn to_raw(self) -> (r: u64) {
        self as u64
    }
}

impl Num for u16 {
    open spec fn min_bits() -> nat {
        9
    }

    open spec fn max_bits() -> nat {
        16
    }

    open spec fn as_nat(self) -> nat {
        self as nat
    }

    proof fn lemma_band() {
    }

    fn bits_range() -> (r: (usize, usize)) {
        (9, 16)
    }

    fn from_raw(v: u64) -> (r: u16) {
        proof {
            lemma2_to64();
        }
        v as u16
    }

    fn to_raw(self) -> (r: u64) {
        self as u64
    }
}

impl Num for u32 {
    open spec fn min_bits() -> nat {
        17
    }

    open spec fn max_bits() -> nat {
        32
    }

    open spec fn as_nat(self) -> nat {
        self as nat
    }

    proof fn lemma_band() {
    }

    fn bits_range() -> (r: (usize, usize)) {
        (17, 32)
    }

    fn from_raw(v: u64) -> (r: u32) {
        proof {
            lemma2_to64();
        }
        v as u32
    }

    fn to_raw(self) -> (r: u64) {
        self as u64
    }
}

impl Num for u64 {
    open spec fn min_bits() -> nat {
        33
    }

    open spec fn max_bits() -> nat {
        64
    }

    open spec fn as_nat(self) -> nat {
        self as nat
    }

    proof fn lemma_band() {
    }

    fn bits_range() -> (r: (usize, usize)) {
        (33, 64)
    }

    fn from_raw(v: u64) -> (r: u64) {
        v
    }

    fn to_raw(self) -> (r: u64) {
        self
    }
}

impl Load for u8 {}

impl Load for u16 {}

impl Load for u32 {}

impl Load for u64 {}

impl Store for u8 {}

impl Store for u16 {}

impl Store for u32 {}

impl Store for u64 {}

} // verus!
