//! A library for identifying and converting textual renderings of byte
//! sequences: numerals in any base from 2 to 16, backslash-escaped strings in
//! the C and Python dialects, fixed-width integers, timestamps, UUIDs,
//! base64/85/91 data, URL encodings, colours and more.  Every rendering is
//! converted to and from a common intermediate form: a plain byte sequence.

pub mod common;
pub mod endian;
pub mod escape;
pub mod ext;
pub mod fromir;
pub mod radix;
pub mod toir;
