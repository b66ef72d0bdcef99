//! Packing of sub-byte fields into byte buffers, with verified accessors.
//!
//! Bit 0 of a buffer is the least significant bit of byte 0; bit and byte
//! order are little-endian throughout. A buffer is modelled as the natural
//! number `le_value(bytes)`, and a field of `len` bits at offset `off` as the
//! digits `off .. off + len` of that number in base two.
use vstd::prelude::*;

pub mod checks;
pub mod codec;
pub mod container;
pub mod enums;
pub mod error;
pub mod layout;
pub mod specifier;

pub use checks::{TotalSizeIsMultipleOfEightBits, TotalSizeModEight};
pub use codec::split;
pub use container::{Load, Num, Store};
pub use error::BitfieldError;
pub use layout::{Layout, Record};
pub use specifier::{Bn, Specifier};
pub use specifier::{
    B1, B2, B3, B4, B5, B6, B7, B8, B9, B10, B11, B12, B13, B14, B15, B16, B17, B18, B19, B20, B21, B22, B23, B24, B25, B26, B27, B28, B29, B30, B31, B32, B33, B34, B35, B36, B37, B38, B39, B40, B41, B42, B43, B44, B45, B46, B47, B48, B49, B50, B51, B52, B53, B54, B55, B56, B57, B58, B59, B60, B61, B62, B63, B64,
};

