use bitfield::{Load, Specifier, Store, B1, B13, B17, B33, B9};

#[test]
fn test_load8() {
    let data = [0b0000_0000];
    let r = u8::load(0, 8, &data);
    assert_eq!(0, r);

    let data = [0b0000_0001];
    let r = u8::load(0, 8, &data);
    assert_eq!(1, r);

    let data = [0b0000_0010];
    let r = u8::load(1, 7, &data);
    assert_eq!(1, r);

    let data = [0b0000_0010, 0b0000_0001];
    let r = u8::load(1, 8, &data);
    assert_eq!(0b1000_0001, r);
}

#[test]
fn test_store8() {
    let mut data = [0b0000_0000];
    u8::store(0, 8, &mut data, 0b1111_1111);
    assert_eq!(&[0b1111_1111], &data);

    let mut data = [0b0000_0001];
    u8::store(1, 7, &mut data, 0b0111_1111);
    assert_eq!(&[0b1111_1111], &data);

    let mut data = [0b0000_0000, 0b0000_0000];
    u8::store(1, 8, &mut data, 0b1111_1111);
    assert_eq!(&[0b1111_1110, 0b0000_0001], &data);
}

#[test]
fn test_get1() {
    let data = [0b0000_0000];
    let r = B1::get(0, &data);
    assert_eq!(0, r);

    let data = [0b0000_0001];
    let r = B1::get(0, &data);
    assert_eq!(1, r);

    let data = [0b0000_0010];
    let r = B1::get(1, &data);
    assert_eq!(1, r);
}

#[test]
fn test_set1() {
    let mut data = [0b0000_0000];
    B1::set(0, &mut data, 1);
    assert_eq!(&[0b0000_0001][..], &data[..]);

    let mut data = [0b0000_0001];
    B1::set(0, &mut data, 0);
    assert_eq!(&[0b0000_0000][..], &data[..]);

    let mut data = [0b1111_1101];
    B1::set(1, &mut data, 1);
    assert_eq!(&[0b1111_1111][..], &data[..]);
}

#[test]
fn test_load16() {
    let data = [0b1111_1111, 0b1111_1111];
    let r = u16::load(0, 16, &data);
    assert_eq!(0b1111_1111_1111_1111, r);

    let data = [0b1111_1110, 0b1111_1111];
    let r = u16::load(1, 15, &data);
    assert_eq!(0b0111_1111_1111_1111, r);

    let data = [0b1111_1110, 0b1111_1111, 0b0000_0001];
    let r = u16::load(1, 16, &data);
    assert_eq!(0b1111_1111_1111_1111, r);
}

#[test]
fn test_store16() {
    let mut data = [0b0000_0000, 0b0000_0000];
    u16::store(0, 16, &mut data, 0b1111_1111_1111_1111);
    assert_eq!(&[0b1111_1111, 0b1111_1111], &data);

    let mut data = [0b0000_0001, 0b0000_0000];
    u16::store(1, 15, &mut data, 0b0111_1111_1111_1111);
    assert_eq!(&[0b1111_1111, 0b1111_1111], &data);

    let mut data = [0b0000_0000, 0b0000_0000, 0b0000_0000];
    u16::store(1, 16, &mut data, 0b1111_1111_1111_1111);
    assert_eq!(&[0b1111_1110, 0b1111_1111, 0b0000_0001], &data);
}

#[test]
fn test_get9() {
    let data = [0b1111_1111, 0b1111_1111];
    let r = B9::get(0, &data);
    assert_eq!(0b0000_0001_1111_1111, r);

    let data = [0b0000_0000, 0b1111_1110];
    let r = B9::get(0, &data);
    assert_eq!(0, r);

    let data = [0b1111_1110, 0b0000_0011];
    let r = B9::get(1, &data);
    assert_eq!(0b0000_0001_1111_1111, r);
}

#[test]
fn test_set9() {
    let mut data = [0b0000_0000, 0b0000_0000];
    B9::set(0, &mut data, 1);
    assert_eq!(&[0b0000_0001, 0b0000_0000][..], &data[..]);

    let mut data = [0b1111_1111, 0b1111_1111];
    B9::set(0, &mut data, 0);
    assert_eq!(&[0b0000_0000, 0b1111_1110][..], &data[..]);

    let mut data = [0b1111_1111, 0b1111_1111];
    B9::set(1, &mut data, 0);
    assert_eq!(&[0b0000_0001, 0b1111_1100][..], &data[..]);
}

#[test]
fn test_load32() {
    let data = [0b1111_1111, 0b1111_1111, 0b1111_1111, 0b1111_1111];
    let r = u32::load(0, 32, &data);
    assert_eq!(0b1111_1111_1111_1111_1111_1111_1111_1111, r);

    let data = [0b1111_1110, 0b1111_1111, 0b1111_1111, 0b1111_1111];
    let r = u32::load(1, 31, &data);
    assert_eq!(0b0111_1111_1111_1111_1111_1111_1111_1111, r);

    let data = [0b1111_1110, 0b1111_1111, 0b1111_1111, 0b1111_1111, 0b0000_0001];
    let r = u32::load(1, 32, &data);
    assert_eq!(0b1111_1111_1111_1111_1111_1111_1111_1111, r);
}

#[test]
fn test_store32() {
    let mut data = [0b0000_0000, 0b0000_0000, 0b0000_0000, 0b0000_0000];
    u32::store(0, 32, &mut data, 0b1111_1111_1111_1111_1111_1111_1111_1111);
    assert_eq!(&[0b1111_1111, 0b1111_1111, 0b1111_1111, 0b1111_1111], &data);

    let mut data = [0b0000_0001, 0b0000_0000, 0b0000_0000, 0b0000_0000];
    u32::store(1, 31, &mut data, 0b0111_1111_1111_1111_1111_1111_1111_1111);
    assert_eq!(&[0b1111_1111, 0b1111_1111, 0b1111_1111, 0b1111_1111], &data);

    let mut data = [0b0000_0000, 0b0000_0000, 0b0000_0000, 0b0000_0000, 0b0000_0000];
    u32::store(1, 32, &mut data, 0b1111_1111_1111_1111_1111_1111_1111_1111);
    assert_eq!(&[0b1111_1110, 0b1111_1111, 0b1111_1111, 0b1111_1111, 0b0000_0001], &data);
}

#[test]
fn test_get17() {
    let data = [0b1111_1111, 0b1111_1111, 0b1111_1111, 0b1111_1111];
    let r = B17::get(0, &data);
    assert_eq!(0b0000_0001_1111_1111_1111_1111, r);

    let data = [0b0000_0000, 0b0000_0000, 0b1111_1110, 0b1111_1111];
    let r = B17::get(0, &data);
    assert_eq!(0, r);

    let data = [0b1111_1110, 0b1111_1111, 0b1111_1111, 0b0000_0011];
    let r = B17::get(1, &data);
    assert_eq!(0b0000_0001_1111_1111_1111_1111, r);
}

#[test]
fn test_set17() {
    let mut data = [0b0000_0000, 0b0000_0000, 0b0000_0000, 0b0000_0000];
    B17::set(0, &mut data, 1);
    assert_eq!(&[0b0000_0001, 0b0000_0000, 0b0000_0000, 0b0000_0000][..], &data[..]);

    let mut data = [0b1111_1111, 0b1111_1111, 0b1111_1111, 0b1111_1111];
    B17::set(0, &mut data, 0);
    assert_eq!(&[0b0000_0000, 0b0000_0000, 0b1111_1110, 0b1111_1111][..], &data[..]);

    let mut data = [0b1111_1111, 0b1111_1111, 0b1111_1111, 0b1111_1111];
    B17::set(1, &mut data, 0);
    assert_eq!(&[0b0000_0001, 0b0000_0000, 0b1111_1100, 0b1111_1111][..], &data[..]);
}

#[test]
fn test_load64() {
    let data = [0b1111_1111, 0b1111_1111, 0b1111_1111, 0b1111_1111, 0b1111_1111, 0b1111_1111, 0b1111_1111, 0b1111_1111];
    let r = u64::load(0, 64, &data);
    assert_eq!(0b1111_1111_1111_1111_1111_1111_1111_1111_1111_1111_1111_1111_1111_1111_1111_1111, r);

    let data = [0b1111_1110, 0b1111_1111, 0b1111_1111, 0b1111_1111, 0b1111_1111, 0b1111_1111, 0b1111_1111, 0b1111_1111];
    let r = u64::load(1, 63, &data);
    assert_eq!(0b0111_1111_1111_1111_1111_1111_1111_1111_1111_1111_1111_1111_1111_1111_1111_1111, r);

    let data = [0b1111_1110, 0b1111_1111, 0b1111_1111, 0b1111_1111, 0b1111_1111, 0b1111_1111, 0b1111_1111, 0b1111_1111, 0b0000_0001];
    let r = u64::load(1, 64, &data);
    assert_eq!(0b1111_1111_1111_1111_1111_1111_1111_1111_1111_1111_1111_1111_1111_1111_1111_1111, r);
}

#[test]
fn test_store64() {
    let mut data = [0b0000_0000, 0b0000_0000, 0b0000_0000, 0b0000_0000, 0b0000_0000, 0b0000_0000, 0b0000_0000, 0b0000_0000];
    u64::store(0, 64, &mut data, 0b1111_1111_1111_1111_1111_1111_1111_1111_1111_1111_1111_1111_1111_1111_1111_1111);
    assert_eq!(&[0b1111_1111, 0b1111_1111, 0b1111_1111, 0b1111_1111, 0b1111_1111, 0b1111_1111, 0b1111_1111, 0b1111_1111], &data);

    let mut data = [0b0000_0001, 0b0000_0000, 0b0000_0000, 0b0000_0000, 0b0000_0000, 0b0000_0000, 0b0000_0000, 0b0000_0000];
    u64::store(1, 63, &mut data, 0b0111_1111_1111_1111_1111_1111_1111_1111_1111_1111_1111_1111_1111_1111_1111_1111);
    assert_eq!(&[0b1111_1111, 0b1111_1111, 0b1111_1111, 0b1111_1111, 0b1111_1111, 0b1111_1111, 0b1111_1111, 0b1111_1111], &data);

    let mut data = [0b0000_0000, 0b0000_0000, 0b0000_0000, 0b0000_0000, 0b0000_0000, 0b0000_0000, 0b0000_0000, 0b0000_0000, 0b0000_0000];
    u64::store(1, 64, &mut data, 0b1111_1111_1111_1111_1111_1111_1111_1111_1111_1111_1111_1111_1111_1111_1111_1111);
    assert_eq!(&[0b1111_1110, 0b1111_1111, 0b1111_1111, 0b1111_1111, 0b1111_1111, 0b1111_1111, 0b1111_1111, 0b1111_1111, 0b0000_0001], &data);
}

#[test]
fn test_get33() {
    let data = [0b1111_1111, 0b1111_1111, 0b1111_1111, 0b1111_1111, 0b1111_1111];
    let r = B33::get(0, &data);
    assert_eq!(0b0000_0001_1111_1111_1111_1111_1111_1111_1111_1111, r);

    let data = [0b0000_0000, 0b0000_0000, 0b0000_0000, 0b0000_0000, 0b1111_1110];
    let r = B33::get(0, &data);
    assert_eq!(0, r);

    let data = [0b1111_1110, 0b1111_1111, 0b1111_1111, 0b1111_1111, 0b0000_0011];
    let r = B33::get(1, &data);
    assert_eq!(0b0000_0001_1111_1111_1111_1111_1111_1111_1111_1111, r);
}

#[test]
fn test_set33() {
    let mut data = [0b0000_0000, 0b0000_0000, 0b0000_0000, 0b0000_0000, 0b0000_0000];
    B33::set(0, &mut data, 1);
    assert_eq!(&[0b0000_0001, 0b0000_0000, 0b0000_0000, 0b0000_0000, 0b0000_0000][..], &data[..]);

    let mut data = [0b1111_1111, 0b1111_1111, 0b1111_1111, 0b1111_1111, 0b1111_1111];
    B33::set(0, &mut data, 0);
    assert_eq!(&[0b0000_0000, 0b0000_0000, 0b0000_0000, 0b0000_0000, 0b1111_1110][..], &data[..]);

    let mut data = [0b1111_1111, 0b1111_1111, 0b1111_1111, 0b1111_1111, 0b1111_1111];
    B33::set(1, &mut data, 0);
    assert_eq!(&[0b0000_0001, 0b0000_0000, 0b0000_0000, 0b0000_0000, 0b1111_1100][..], &data[..]);
}

#[test]
fn test_edge() {
    let mut data = [0u8; 4];
    B13::set(9 + 6, &mut data, 0x1675);

    println!("{:?}", data);
    assert_eq!(B13::get(9 + 6, &data), 0x1675);
}
