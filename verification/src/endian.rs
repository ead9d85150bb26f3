//! Whether each codec's rendering is byte-order sensitive: a `Dual` codec
//! is also shown over the byte-reversed buffer as the other-endian reading.

use vstd::prelude::*;

verus! {

/// Whether a codec's rendering depends on byte order.
#[derive(Clone, Copy, Debug, PartialEq, Eq, Structural)]
pub enum Endianness {
    Default,
    Dual,
}

/// A codec's byte-order sensitivity.
pub trait Endian {
    /// Whether the rendering depends on byte order.
    spec fn endianness_spec() -> Endianness;

    /// Whether the rendering depends on byte order.
    fn endianness() -> (e: Endianness)
        ensures
            e == Self::endianness_spec(),
    ;
}

impl Endian for crate::common::UnicodeNames {
    open spec fn endianness_spec() -> Endianness {
        Endianness::Default
    }

    fn endianness() -> (e: Endianness) {
        Endianness::Default
    }
}

impl Endian for crate::common::Base2_16 {
    open spec fn endianness_spec() -> Endianness {
        Endianness::Default
    }

    fn endianness() -> (e: Endianness) {
        Endianness::Default
    }
}

impl Endian for crate::common::FixedFloat {
    open spec fn endianness_spec() -> Endianness {
        Endianness::Dual
    }

    fn endianness() -> (e: Endianness) {
        Endianness::Dual
    }
}

impl Endian for crate::common::FixedInt {
    open spec fn endianness_spec() -> Endianness {
        Endianness::Dual
    }

    fn endianness() -> (e: Endianness) {
        Endianness::Dual
    }
}

impl Endian for crate::common::DateTime {
    open spec fn endianness_spec() -> Endianness {
        Endianness::Dual
    }

    fn endianness() -> (e: Endianness) {
        Endianness::Dual
    }
}

impl Endian for crate::common::Unicode8 {
    open spec fn endianness_spec() -> Endianness {
        Endianness::Default
    }

    fn endianness() -> (e: Endianness) {
        Endianness::Default
    }
}

impl Endian for crate::common::IpV4 {
    open spec fn endianness_spec() -> Endianness {
        Endianness::Default
    }

    fn endianness() -> (e: Endianness) {
        Endianness::Default
    }
}

impl Endian for crate::common::IpV6 {
    open spec fn endianness_spec() -> Endianness {
        Endianness::Default
    }

    fn endianness() -> (e: Endianness) {
        Endianness::Default
    }
}

impl Endian for crate::common::Base91 {
    open spec fn endianness_spec() -> Endianness {
        Endianness::Default
    }

    fn endianness() -> (e: Endianness) {
        Endianness::Default
    }
}

impl Endian for crate::common::Base85 {
    open spec fn endianness_spec() -> Endianness {
        Endianness::Default
    }

    fn endianness() -> (e: Endianness) {
        Endianness::Default
    }
}

impl Endian for crate::common::Base64 {
    open spec fn endianness_spec() -> Endianness {
        Endianness::Default
    }

    fn endianness() -> (e: Endianness) {
        Endianness::Default
    }
}

impl Endian for crate::common::ByteList {
    open spec fn endianness_spec() -> Endianness {
        Endianness::Default
    }

    fn endianness() -> (e: Endianness) {
        Endianness::Default
    }
}

impl Endian for crate::common::UUID {
    open spec fn endianness_spec() -> Endianness {
        Endianness::Default
    }

    fn endianness() -> (e: Endianness) {
        Endianness::Default
    }
}

impl Endian for crate::common::EscapedString {
    open spec fn endianness_spec() -> Endianness {
        Endianness::Default
    }

    fn endianness() -> (e: Endianness) {
        Endianness::Default
    }
}

impl Endian for crate::common::UrlEncode {
    open spec fn endianness_spec() -> Endianness {
        Endianness::Default
    }

    fn endianness() -> (e: Endianness) {
        Endianness::Default
    }
}

impl Endian for crate::common::UrlDecode {
    open spec fn endianness_spec() -> Endianness {
        Endianness::Default
    }

    fn endianness() -> (e: Endianness) {
        Endianness::Default
    }
}

impl Endian for crate::common::Colour {
    open spec fn endianness_spec() -> Endianness {
        Endianness::Dual
    }

    fn endianness() -> (e: Endianness) {
        Endianness::Dual
    }
}

} // verus!
