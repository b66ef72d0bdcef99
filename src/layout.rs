//! The layout compiler and the packed record that it lays out.
use vstd::prelude::*;
use vstd::arithmetic::power2::lemma_pow2_pos;
use crate::codec::{field_value, stored, le_value, lemma_stored_len};
use crate::error::BitfieldError;
use crate::specifier::Specifier;

verus! {

/// The sum of the first `i` widths.
pub open spec fn prefix_sum(widths: Seq<usize>, i: int) -> nat
    decreases i,
{
    if i <= 0 {
        0
    } else {
        prefix_sum(widths, i - 1) + widths[i - 1] as nat
    }
}

/// The sum of all widths.
pub open spec fn total_bits(widths: Seq<usize>) -> nat {
    prefix_sum(widths, widths.len() as int)
}

/// Whether every width lies in `1 ..= 64`.
pub open spec fn widths_valid(widths: Seq<usize>) -> bool {
    forall|i: int| 0 <= i < widths.len() ==> 1 <= #[trigger] widths[i] <= 64
}

/// Where each field of a packed record sits, and how many bytes the record takes.
pub struct Layout {
    /// The width of each field in bits, in declaration order.
    pub widths: Vec<usize>,
    /// The bit offset of each field.
    pub offsets: Vec<usize>,
    /// The record's size in bytes.
    pub size: usize,
}

impl Layout {
    /// The fields are contiguous: each starts where the ones before it end, and
    /// together they fill `size` whole bytes.
    pub open spec fn wf(&self) -> bool {
        &&& self.offsets@.len() == self.widths@.len()
        &&& widths_valid(self.widths@)
        &&& forall|i: int|
            0 <= i < self.offsets@.len() ==> #[trigger] self.offsets@[i] == prefix_sum(
                self.widths@,
                i,
            )
        &&& total_bits(self.widths@) == 8 * self.size
    }

    /// Lays out fields of the given widths in order: `InvalidWidth` if a width
    /// lies outside `1 ..= 64`, else `LayoutError` if the widths do not add up
    /// to whole bytes.
    pub fn compile(widths: &[usize]) -> (r: Result<Layout, BitfieldError>)
        requires
            widths@.len() <= usize::MAX / 64,
        ensures
            !widths_valid(widths@) ==> r == Err::<Layout, BitfieldError>(
                BitfieldError::InvalidWidth,
            ),
            widths_valid(widths@) && total_bits(widths@) % 8 != 0 ==> r == Err::<
                Layout,
                BitfieldError,
            >(BitfieldError::LayoutError),
            widths_valid(widths@) && total_bits(widths@) % 8 == 0 ==> r is Ok,
            r is Ok ==> r->Ok_0.wf() && r->Ok_0.widths@ == widths@ && r->Ok_0.size == (
            total_bits(widths@) + 7) / 8,
    {
        let mut offsets: Vec<usize> = Vec::new();
        let mut owned: Vec<usize> = Vec::new();
        let mut total: usize = 0;
        let mut i: usize = 0;
        while i < widths.len()
            invariant
                i <= widths@.len() <= usize::MAX / 64,
                offsets@.len() == i,
                owned@ == widths@.subrange(0, i as int),
                total == prefix_sum(widths@, i as int),
                total <= 64 * i,
                forall|j: int| 0 <= j < i ==> 1 <= #[trigger] widths@[j] <= 64,
                forall|j: int| 0 <= j < i ==> #[trigger] offsets@[j] == prefix_sum(widths@, j),
            decreases widths@.len() - i,
        {
            let w = widths[i];
            if w == 0 || w > 64 {
                return Err(BitfieldError::InvalidWidth);
            }
            offsets.push(total);
            owned.push(w);
            total = total + w;
            i = i + 1;
        }
        proof {
            assert(owned@ =~= widths@);
            lemma_prefix_sum_same(owned@, widths@, widths@.len() as int);
            assert forall|j: int| 0 <= j < offsets@.len() implies #[trigger] offsets@[j]
                == prefix_sum(owned@, j) by {
                lemma_prefix_sum_same(owned@, widths@, j);
            }
        }
        if total % 8 != 0 {
            return Err(BitfieldError::LayoutError);
        }
        Ok(Layout { widths: owned, offsets, size: total / 8 })
    }
}

proof fn lemma_prefix_sum_same(a: Seq<usize>, b: Seq<usize>, i: int)
    requires
        a == b,
    ensures
        prefix_sum(a, i) == prefix_sum(b, i),
{
}

/// Field `i` ends where field `i + 1` begins, and no later than the record's end.
proof fn lemma_field_inside(widths: Seq<usize>, i: int)
    requires
        0 <= i < widths.len(),
    ensures
        prefix_sum(widths, i) + widths[i] as nat <= total_bits(widths),
    decreases widths.len() - i,
{
    lemma_prefix_sum_grows(widths, i + 1, widths.len() as int);
}

proof fn lemma_prefix_sum_grows(widths: Seq<usize>, i: int, j: int)
    requires
        0 <= i <= j <= widths.len(),
    ensures
        prefix_sum(widths, i) <= prefix_sum(widths, j),
    decreases j - i,
{
    if i < j {
        lemma_prefix_sum_grows(widths, i, j - 1);
    }
}

/// The layout law: each offset is the sum of the widths before it, and the
/// record takes the bytes that its bits round up to.
pub proof fn lemma_layout_contiguous(layout: Layout, i: int)
    requires
        layout.wf(),
        0 <= i < layout.widths@.len(),
    ensures
        layout.offsets@[i] == prefix_sum(layout.widths@, i),
        layout.offsets@[i] + layout.widths@[i] <= 8 * layout.size,
        layout.size == (total_bits(layout.widths@) + 7) / 8,
{
    lemma_field_inside(layout.widths@, i);
}

/// A packed record: a zero-filled buffer of the layout's size, read and written
/// one field at a time.
pub struct Record {
    /// Where the fields sit.
    pub layout: Layout,
    /// The packed bytes.
    pub data: Vec<u8>,
}

impl Record {
    /// The buffer has the size that the layout asks for.
    pub open spec fn wf(&self) -> bool {
        self.layout.wf() && self.data@.len() == self.layout.size
    }

    /// The raw number that field `i` holds.
    pub open spec fn field(&self, i: int) -> nat {
        field_value(self.data@, self.layout.offsets@[i] as nat, self.layout.widths@[i] as nat)
    }

    /// A record with every byte zero.
    pub fn new(layout: Layout) -> (r: Record)
        requires
            layout.wf(),
        ensures
            r.wf(),
            r.layout == layout,
            r.data@ == Seq::new(layout.size as nat, |k: int| 0u8),
            forall|i: int| 0 <= i < layout.widths@.len() ==> #[trigger] r.field(i) == 0,
    {
        let mut data: Vec<u8> = Vec::new();
        let mut k: usize = 0;
        while k < layout.size
            invariant
                k <= layout.size,
                data@ == Seq::new(k as nat, |j: int| 0u8),
            decreases layout.size - k,
        {
            data.push(0);
            k = k + 1;
            proof {
                assert(data@ =~= Seq::new(k as nat, |j: int| 0u8));
            }
        }
        let r = Record { layout, data };
        proof {
            lemma_zeros_value(r.data@);
            assert forall|i: int| 0 <= i < r.layout.widths@.len() implies #[trigger] r.field(i)
                == 0 by {
                lemma_pow2_pos(r.layout.offsets@[i] as nat);
                lemma_pow2_pos(r.layout.widths@[i] as nat);
            }
        }
        r
    }

    /// The number of fields.
    pub fn len(&self) -> (r: usize)
        requires
            self.wf(),
        ensures
            r == self.layout.widths@.len(),
    {
        self.layout.widths.len()
    }

    /// Reads field `i` as a value of the field type `S`.
    pub fn get<S: Specifier>(&self, i: usize) -> (r: S::Type)
        requires
            self.wf(),
            S::wf(),
            i < self.layout.widths@.len(),
            self.layout.widths@[i as int] == S::spec_bits(),
            S::decodes(self.field(i as int)),
        ensures
            S::raw(r) == self.field(i as int),
    {
        proof {
            lemma_layout_contiguous(self.layout, i as int);
        }
        S::get(self.layout.offsets[i], self.data.as_slice())
    }

    /// Writes `val` into field `i`, cut to the field's width; no other bit changes.
    pub fn set<S: Specifier>(&mut self, i: usize, val: S::Type)
        requires
            old(self).wf(),
            S::wf(),
            i < old(self).layout.widths@.len(),
            old(self).layout.widths@[i as int] == S::spec_bits(),
        ensures
            final(self).wf(),
            final(self).layout == old(self).layout,
            final(self).data@ == stored(
                old(self).data@,
                old(self).layout.offsets@[i as int] as nat,
                S::spec_bits(),
                S::raw(val),
            ),
    {
        proof {
            lemma_layout_contiguous(self.layout, i as int);
        }
        let off = self.layout.offsets[i];
        S::set(off, self.data.as_mut_slice(), val);
        proof {
            lemma_stored_len(old(self).data@, off as nat, S::spec_bits(), S::raw(val));
        }
    }
}

/// A buffer of zero bytes holds the number 0.
proof fn lemma_zeros_value(s: Seq<u8>)
    requires
        forall|k: int| 0 <= k < s.len() ==> s[k] == 0,
    ensures
        le_value(s) == 0,
    decreases s.len(),
{
    if s.len() > 0 {
        lemma_zeros_value(s.drop_last());
    }
}

} // verus!
