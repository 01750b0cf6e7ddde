//! Decimal floating-point arithmetic on the IEEE 754-2008 decimal128
//! format in its binary integer (BID) encoding.

#![allow(unused_imports)]

pub mod math;
pub mod bignum;
pub mod types;
pub mod consts;
pub mod model;
pub mod rounding;
pub mod finish;
pub mod from_int;
pub mod noncomp;
pub mod unpack;
pub mod add;
pub mod fma;
pub mod internal;
pub mod div;
pub mod div_parts;
pub mod round;
pub mod decimal_data;
pub mod fma_parts;
pub mod to_string;
pub mod laws;
pub mod from_string;
pub mod round_trip;
pub mod long_read;
pub mod hex_text;
