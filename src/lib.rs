//! Software conversions between fixed-width integers and IEEE-754 binary
//! floating-point values, handled as raw bit patterns.
//!
//! `format` describes a binary format's bit layout; `int_to_float` and
//! `float_to_int` hold the two conversion algorithms, generic over the layout;
//! `conv` instantiates them for the machine integer types and for `binary32`
//! and `binary64`; `laws` proves how the two directions relate.
pub mod format;
pub mod float_to_int;
pub mod int_to_float;
pub mod conv;
pub mod laws;
