use bitfield::codec::{load_bits, store_bits};
use bitfield::enums::{
    decode_discriminant, discriminant_bits, encode_discriminant, ty_for_bits, variant_count_bits,
};
use bitfield::{split, BitfieldError, Bn, Layout, Load, Num, Record, Specifier, Store};
use bitfield::{B1, B13, B16, B3, B33, B4, B64, B8, B9};

#[test]
fn round_trip_across_nine_bytes() {
    let mut data = [0u8; 10];
    let v: u64 = 0xDEAD_BEEF_1234_5678;
    store_bits(5, 64, &mut data, v);
    assert_eq!(load_bits(5, 64, &data), v);
    let w: u64 = 0x1F_FFFF_FFFF;
    store_bits(13, 37, &mut data, w);
    assert_eq!(load_bits(13, 37, &data), w);
}

#[test]
fn store_cuts_value_to_width() {
    let mut data = [0u8; 2];
    store_bits(3, 5, &mut data, 0b1110_0101);
    assert_eq!(load_bits(3, 5, &data), 0b0_0101);
    assert_eq!(data, [0b0010_1000, 0]);
}

#[test]
fn store_leaves_other_bits_alone() {
    let mut data = [0xFFu8; 3];
    store_bits(6, 7, &mut data, 0);
    assert_eq!(data, [0b0011_1111, 0b1110_0000, 0xFF]);
    let mut data = [0u8; 3];
    store_bits(6, 7, &mut data, 0x7F);
    assert_eq!(data, [0b1100_0000, 0b0001_1111, 0]);
}

#[test]
fn store_ending_on_byte_boundary_clears_last_byte() {
    let mut data = [0xFFu8, 0xFF];
    B16::set(0, &mut data, 0);
    assert_eq!(data, [0, 0]);
    let mut data = [0xFFu8, 0xFF, 0xFF];
    store_bits(4, 12, &mut data, 0);
    assert_eq!(data, [0x0F, 0, 0xFF]);
}

#[test]
fn layout_offsets_are_prefix_sums() {
    let layout = Layout::compile(&[9, 6, 13, 4]).unwrap();
    assert_eq!(layout.offsets, vec![0, 9, 15, 28]);
    assert_eq!(layout.size, 4);
    let layout = Layout::compile(&[3, 4, 1]).unwrap();
    assert_eq!(layout.offsets, vec![0, 3, 7]);
    assert_eq!(layout.size, 1);
    let layout = Layout::compile(&[64, 64]).unwrap();
    assert_eq!(layout.offsets, vec![0, 64]);
    assert_eq!(layout.size, 16);
}

#[test]
fn layout_errors() {
    assert_eq!(Layout::compile(&[3, 4]).err(), Some(BitfieldError::LayoutError));
    assert_eq!(Layout::compile(&[0, 8]).err(), Some(BitfieldError::InvalidWidth));
    assert_eq!(Layout::compile(&[65, 7]).err(), Some(BitfieldError::InvalidWidth));
    let empty = Layout::compile(&[]).unwrap();
    assert_eq!(empty.size, 0);
}

#[test]
fn new_record_reads_zero() {
    let layout = Layout::compile(&[3, 4, 1, 16, 40]).unwrap();
    let rec = Record::new(layout);
    assert_eq!(rec.data, vec![0u8; 8]);
    assert_eq!(rec.get::<B3>(0), 0);
    assert_eq!(rec.get::<B4>(1), 0);
    assert_eq!(rec.get::<bool>(2), false);
    assert_eq!(rec.get::<B16>(3), 0);
    assert_eq!(rec.get::<Bn<u64, 40>>(4), 0);
    assert_eq!(rec.len(), 5);
}

#[test]
fn container_boundary_eight_and_nine() {
    let mut data = [0u8; 3];
    B8::set(3, &mut data, 0xA5);
    assert_eq!(B8::get(3, &data), 0xA5);
    assert_eq!(data, [0x28, 0x05, 0]);
    let mut data = [0u8; 3];
    B9::set(3, &mut data, 0x1A5);
    assert_eq!(B9::get(3, &data), 0x1A5);
    assert_eq!(data, [0x28, 0x0D, 0]);
}

#[test]
fn variant_count_rule() {
    assert_eq!(variant_count_bits(4), Ok(2));
    assert_eq!(variant_count_bits(2), Ok(1));
    assert_eq!(variant_count_bits(1u64 << 63), Ok(63));
    assert_eq!(variant_count_bits(3), Err(BitfieldError::InvalidVariantCount));
    assert_eq!(variant_count_bits(1), Err(BitfieldError::InvalidVariantCount));
    assert_eq!(variant_count_bits(0), Err(BitfieldError::InvalidVariantCount));
    assert_eq!(variant_count_bits(12), Err(BitfieldError::InvalidVariantCount));
}

#[test]
fn discriminant_rule() {
    let d = [0u64, 1, 5];
    assert_eq!(discriminant_bits(&d), Ok(3));
    let raw = encode_discriminant(&d, 2);
    assert_eq!(raw, 5);
    assert_eq!(decode_discriminant(&d, raw), Ok(2));
    assert_eq!(decode_discriminant(&d, 3), Err(BitfieldError::UnknownDiscriminant));
    assert_eq!(discriminant_bits(&[0]), Ok(1));
    assert_eq!(discriminant_bits(&[8, 2]), Ok(4));
    assert_eq!(discriminant_bits(&[u64::MAX]), Ok(64));
    assert_eq!(discriminant_bits(&[]), Err(BitfieldError::InvalidVariantCount));
}

#[test]
fn packed_byte() {
    let layout = Layout::compile(&[3, 4, 1]).unwrap();
    let mut rec = Record::new(layout);
    rec.set::<B3>(0, 5);
    rec.set::<B4>(1, 9);
    rec.set::<bool>(2, true);
    assert_eq!(rec.data, vec![0xCD]);
    assert_eq!(rec.get::<B3>(0), 5);
    assert_eq!(rec.get::<B4>(1), 9);
    assert_eq!(rec.get::<bool>(2), true);
    rec.set::<B1>(2, 0);
    assert_eq!(rec.data, vec![0x4D]);
}

#[test]
fn cross_byte_field() {
    let mut data = [0u8; 4];
    B13::set(15, &mut data, 0x1675);
    assert_eq!(B13::get(15, &data), 0x1675);
    let all = u32::from_le_bytes(data);
    assert_eq!(all & 0x7FFF, 0);
    assert_eq!(all >> 28, 0);
    assert_eq!(all, 0x1675 << 15);
}

#[test]
fn checked_access_errors() {
    let data = [0xFFu8; 2];
    assert_eq!(u8::try_load(0, 9, &data), Err(BitfieldError::InvalidWidth));
    assert_eq!(u16::try_load(0, 8, &data), Err(BitfieldError::InvalidWidth));
    assert_eq!(u8::try_load(9, 8, &data), Err(BitfieldError::OutOfBounds));
    assert_eq!(u8::try_load(0, 1, &[]), Err(BitfieldError::OutOfBounds));
    assert_eq!(u8::try_load(20, 1, &data), Err(BitfieldError::OutOfBounds));
    assert_eq!(u8::try_load(8, 8, &data), Ok(0xFF));
    let mut data = [0u8; 2];
    assert_eq!(u16::try_store(1, 16, &mut data, 0xFFFF), Err(BitfieldError::OutOfBounds));
    assert_eq!(data, [0, 0]);
    assert_eq!(u64::try_store(0, 16, &mut data, 1), Err(BitfieldError::InvalidWidth));
    assert_eq!(data, [0, 0]);
    assert_eq!(u16::try_store(0, 16, &mut data, 0xABCD), Ok(()));
    assert_eq!(data, [0xCD, 0xAB]);
}

#[test]
fn container_widths() {
    assert_eq!(ty_for_bits(1), Ok(8));
    assert_eq!(ty_for_bits(8), Ok(8));
    assert_eq!(ty_for_bits(9), Ok(16));
    assert_eq!(ty_for_bits(17), Ok(32));
    assert_eq!(ty_for_bits(33), Ok(64));
    assert_eq!(ty_for_bits(64), Ok(64));
    assert_eq!(ty_for_bits(0), Err(BitfieldError::InvalidWidth));
    assert_eq!(ty_for_bits(65), Err(BitfieldError::InvalidWidth));
    assert_eq!(u8::bits_range(), (1, 8));
    assert_eq!(u64::bits_range(), (33, 64));
}

#[test]
fn field_type_validation() {
    assert_eq!(B9::validate(), Ok(()));
    assert_eq!(B64::validate(), Ok(()));
    assert_eq!(<bool as Specifier>::validate(), Ok(()));
    assert_eq!(Bn::<u8, 9>::validate(), Err(BitfieldError::ConversionOverflow));
    assert_eq!(Bn::<u8, 0>::validate(), Err(BitfieldError::InvalidWidth));
    assert_eq!(Bn::<u64, 65>::validate(), Err(BitfieldError::InvalidWidth));
    assert_eq!(B33::bits(), 33);
}

#[test]
fn bool_field() {
    let mut data = [0b1010_1010u8];
    assert_eq!(<bool as Specifier>::get(1, &data), true);
    assert_eq!(<bool as Specifier>::get(2, &data), false);
    <bool as Specifier>::set(1, &mut data, false);
    assert_eq!(data, [0b1010_1000]);
    assert_eq!(<bool as Specifier>::to(true), 1);
    assert_eq!(<bool as Specifier>::from(0), false);
}

#[test]
fn split_head_middle_tail() {
    let data = [1u8, 2, 3, 4];
    let (h, m, t) = split(&data);
    assert_eq!(h, 1);
    assert_eq!(m, &[2, 3]);
    assert_eq!(t, 4);
    let (h, m, t) = split(&[7, 9]);
    assert_eq!((h, m.len(), t), (7, 0, 9));
}

#[test]
fn wide_container_loads() {
    let data = [0xFFu8; 9];
    assert_eq!(u64::load(7, 64, &data), u64::MAX);
    assert_eq!(u32::load(7, 17, &data), 0x1_FFFF);
    let mut data = [0u8; 9];
    u64::store(7, 64, &mut data, 1);
    assert_eq!(data, [0x80, 0, 0, 0, 0, 0, 0, 0, 0]);
}
