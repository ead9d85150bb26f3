//! Shared vocabulary of the library: the codec marker types, the tagged
//! `Variant` values that select one rendering rule of a codec, the error
//! taxonomy, and the hexadecimal digit alphabet.

use vstd::prelude::*;
use vstd::string::StringExecFns;
use crate::radix::{val, pow_n};

verus! {

/// Numbers in any base from 2 to 16.
pub struct Base2_16;

/// 16, 32 and 64-bit floating point numbers.
pub struct FixedFloat;

/// 32 and 64-bit unix timestamps.
pub struct DateTime;

/// 8 to 128-bit signed and unsigned integers.
pub struct FixedInt;

/// UTF-8 text.
pub struct Unicode8;

/// IPv4 addresses, with or without a port.
pub struct IpV4;

/// IPv6 addresses, with or without a port.
pub struct IpV6;

/// Base64 data in several alphabets.
pub struct Base64;

/// Base85 data (z85 and ascii85 alphabets).
pub struct Base85;

/// basE91 data.
pub struct Base91;

/// A bracketed, comma-separated list of byte values.
pub struct ByteList;

/// UUIDs.
pub struct UUID;

/// Reserved for digest renderings.
pub struct Hash;

/// Backslash-escaped strings.
pub struct EscapedString;

/// Percent-encoding of bytes.
pub struct UrlEncode;

/// Percent-decoding of text.
pub struct UrlDecode;

/// Unicode character names.
pub struct UnicodeNames;

/// Colours in several bit widths.
pub struct Colour;

/// The base64 alphabets the `Base64` codec supports.
#[derive(Clone, Copy, Debug, PartialEq, Eq, Structural)]
pub enum B64Flavor {
    Bcrypt,
    BinHex,
    Crypt,
    ImapMutf7,
    Standard,
    StandardNoPad,
    UrlSafe,
    UrlSafeNoPad,
}

/// The textual date formats the `DateTime` codec supports.
#[derive(Clone, Copy, Debug, PartialEq, Eq, Structural)]
pub enum TimeFormat {
    Rfc2822,
    Rfc3339,
}

/// One specific rendering rule of a codec.  A variant is produced by a
/// codec's own identification step and selects the rule a later decode or
/// encode call applies; it carries no meaning across codecs.
#[derive(Clone, Copy, Debug, PartialEq, Eq, Structural)]
pub enum Variant {
    /// A numeral in the given base, 2 through 16.
    Base(u8),
    /// A float of the given width in bytes: 2, 4 or 8.
    FloatBits(u8),
    /// The mantissa/exponent rendering of a float of the given width.
    FloatParts(u8),
    /// A timestamp of the given width in bytes (4 or 8) and format.
    Time { bytes: u8, format: TimeFormat },
    /// An integer of the given width in bytes: 1, 2, 4, 8 or 16.
    Int { signed: bool, bytes: u8 },
    /// Text rendered literally.
    LiteralText,
    /// Text rendered as a list of Unicode character names.
    NamedChars,
    /// An address carrying a port.
    WithPort,
    /// An address without a port.
    WithoutPort,
    /// A base64 alphabet.
    B64(B64Flavor),
    /// The z85 form of base85.
    Z85Data,
    /// The ascii85 form of base85.
    Ascii85Data,
    /// The codec's single rendering rule.
    Plain,
    /// An escape dialect, for decoding escaped text.
    Escaped(crate::escape::Variant),
    /// Percent-decoding that keeps `+` as it is.
    Legacy,
    /// Percent-decoding that first turns `+` into `%20`.
    Rfc3986,
    /// A one-byte colour, rendered as a swatch.
    Colour8,
    /// A one-byte greyscale value.
    Grey8,
    /// A one-byte terminal palette index.
    Terminal8,
    /// A two-byte colour.
    Colour16,
    /// A three-byte colour, rendered as a swatch.
    Colour24,
    /// A three-byte colour, rendered as `rgb(..)` text.
    Rgb24,
    /// A three-byte colour, rendered as `hsl(..)` text.
    Hsl24,
    /// A four-byte colour; the low three bytes are rendered.
    Colour32,
}

/// The error taxonomy: a digit outside the stated base's alphabet, malformed
/// escaped or encoded text, or a variant tag that the matching identification
/// step did not produce.
#[derive(Clone, Copy, Debug, PartialEq, Eq, Structural)]
pub enum CodecError {
    InvalidDigit,
    Lex,
    VariantMismatch,
}

/// Whether the byte is an ASCII hexadecimal digit: `0-9`, `a-f` or `A-F`.
pub open spec fn is_hex_digit(b: u8) -> bool {
    (48 <= b && b <= 57) || (97 <= b && b <= 102) || (65 <= b && b <= 70)
}

/// Whether the byte is an ASCII octal digit: `0-7`.
pub open spec fn is_oct_digit(b: u8) -> bool {
    48 <= b && b <= 55
}

/// The numeric value of an ASCII hexadecimal digit.
pub open spec fn hex_digit_value(b: u8) -> u8 {
    if 48 <= b && b <= 57 {
        (b - 48) as u8
    } else if 97 <= b && b <= 102 {
        (b - 97 + 10) as u8
    } else {
        (b - 65 + 10) as u8
    }
}

/// The ASCII digit for a value below 16, in the chosen case.
pub open spec fn hex_digit_char(d: u8, capital: bool) -> u8 {
    if d <= 9 {
        (48 + d) as u8
    } else if capital {
        (65 + d - 10) as u8
    } else {
        (97 + d - 10) as u8
    }
}

/// A channel value of `total` levels scaled to the 0..=255 range: the
/// nearest multiple of `255 / (total - 1)`, rounded to the nearest whole
/// number, halves away from zero.
pub open spec fn scale_spec(value: u8, total: u8) -> int {
    (510 * value + (total - 1)) / (2 * (total - 1))
}

impl Colour {
    /// Scales up a channel of `total` levels to the full eight-bit range.
    pub fn scale(value: u8, total: u8) -> (r: u8)
        requires
            2 <= total <= 128,
            value < total,
        ensures
            r == scale_spec(value, total),
    {
        let num: u32 = 510 * value as u32 + (total as u32 - 1);
        let den: u32 = 2 * (total as u32 - 1);
        proof {
            assert(num / den <= 255) by (nonlinear_arith)
                requires
                    num == 510 * value + (total - 1),
                    den == 2 * (total - 1),
                    value < total,
                    2 <= total <= 128,
            ;
        }
        (num / den) as u8
    }

    /// Splits an eight-bit colour (three bits of red, three of green, two
    /// of blue) into full-range red, green and blue channels.
    pub fn _8_to_24(colour: u8) -> (r: (u8, u8, u8))
        ensures
            r.0 == scale_spec((colour / 32) as u8, 8),
            r.1 == scale_spec(((colour / 4) % 8) as u8, 8),
            r.2 == scale_spec((colour % 4) as u8, 4),
    {
        let blue = colour % 4;
        let green = (colour / 4) % 8;
        let red = colour / 32;
        (Colour::scale(red, 8), Colour::scale(green, 8), Colour::scale(blue, 4))
    }

    /// Splits a sixteen-bit colour (five bits of red, six of green, five
    /// of blue) into full-range red, green and blue channels.
    pub fn _16_to_24(colour: u16) -> (r: (u8, u8, u8))
        ensures
            r.0 == scale_spec((colour / 2048) as u8, 32),
            r.1 == scale_spec(((colour / 32) % 64) as u8, 64),
            r.2 == scale_spec((colour % 32) as u8, 32),
    {
        let blue = (colour % 32) as u8;
        let green = ((colour / 32) % 64) as u8;
        let red = (colour / 2048) as u8;
        (Colour::scale(red, 32), Colour::scale(green, 64), Colour::scale(blue, 32))
    }
}

/// The sign a float's byte pattern carries: -1 when the top bit is set,
/// else 1.
pub open spec fn float_sign(v: nat, bits: nat) -> int {
    if v / pow_n(2, (bits - 1) as nat) == 1 {
        -1
    } else {
        1
    }
}

/// The mantissa field of a float's byte pattern: its low bits.
pub open spec fn float_mantissa(v: nat, mantissa_bits: nat) -> nat {
    v % pow_n(2, mantissa_bits)
}

/// The exponent field of a float's byte pattern: the bits between the
/// mantissa and the sign.
pub open spec fn float_exponent(v: nat, bits: nat, mantissa_bits: nat) -> nat {
    (v % pow_n(2, (bits - 1) as nat)) / pow_n(2, mantissa_bits)
}

impl FixedFloat {
    /// Splits a little-endian float byte pattern of 2, 4 or 8 bytes into
    /// sign, mantissa field and exponent field.
    pub fn get_repr(bytes: &[u8]) -> (r: (i8, u64, i16))
        requires
            bytes@.len() == 2 || bytes@.len() == 4 || bytes@.len() == 8,
        ensures
            r.0 == float_sign(val(bytes@, 256), 8 * bytes@.len()),
            r.1 == float_mantissa(val(bytes@, 256), float_mantissa_bits(bytes@.len() as int)),
            r.2 == float_exponent(
                val(bytes@, 256),
                8 * bytes@.len(),
                float_mantissa_bits(bytes@.len() as int),
            ),
    {
        let v = crate::radix::le_val_u64(bytes);
        proof {
            crate::radix::lemma_val_bound(bytes@, 256);
            assert(pow_n(2, 10) == 0x400 && pow_n(2, 15) == 0x8000 && pow_n(2, 23) == 0x800000
                && pow_n(2, 31) == 0x80000000 && pow_n(2, 52) == 0x10000000000000 && pow_n(2, 63)
                == 0x8000000000000000) by {
                reveal_with_fuel(pow_n, 64);
            }
            assert(pow_n(256, 2) == 0x10000 && pow_n(256, 4) == 0x100000000 && pow_n(256, 8)
                == 0x10000000000000000) by {
                reveal_with_fuel(pow_n, 10);
            }
        }
        if bytes.len() == 2 {
            let sign: i8 = if v / 0x8000 == 1 {
                -1
            } else {
                1
            };
            (sign, v % 0x400, ((v % 0x8000) / 0x400) as i16)
        } else if bytes.len() == 4 {
            let sign: i8 = if v / 0x80000000 == 1 {
                -1
            } else {
                1
            };
            (sign, v % 0x800000, ((v % 0x80000000) / 0x800000) as i16)
        } else {
            let sign: i8 = if v / 0x8000000000000000 == 1 {
                -1
            } else {
                1
            };
            (sign, v % 0x10000000000000, ((v % 0x8000000000000000) / 0x10000000000000) as i16)
        }
    }

    /// Renders a split float representation: each of mantissa, exponent and
    /// sign in decimal and in binary.
    pub fn mantissa_exponent_to_string(repr: (i8, u64, i16)) -> (r: String)
        requires
            repr.0 == 1 || repr.0 == -1,
            repr.2 >= 0,
        ensures
            r@ == mes_text(repr),
    {
        let (sign, mantissa, exponent) = repr;
        proof {
            crate::radix::lemma_canonical_digits_ascii(mantissa as nat, 10);
            crate::radix::lemma_canonical_digits_ascii(mantissa as nat, 2);
            crate::radix::lemma_canonical_digits_ascii(exponent as nat, 10);
            crate::radix::lemma_canonical_digits_ascii(exponent as nat, 2);
        }
        proof {
            assert(pow_n(256, 8) == 0x10000000000000000) by {
                reveal_with_fuel(crate::radix::pow_n, 10);
            }
        }
        let m_bytes = crate::radix::le_width_u128(mantissa as u128, 8);
        let m_dec = crate::ext::ascii_string(crate::radix::magnitude_text(&m_bytes, 10));
        let m_bin = crate::ext::ascii_string(crate::radix::magnitude_text(&m_bytes, 2));
        let e_bytes = crate::radix::le_width_u128(exponent as u128, 8);
        let e_dec = crate::ext::ascii_string(crate::radix::magnitude_text(&e_bytes, 10));
        let e_bin = crate::ext::ascii_string(crate::radix::magnitude_text(&e_bytes, 2));
        let mut s = String::new();
        s.append("Mantissa: ");
        s.append(m_dec.as_str());
        s.append("(");
        s.append(m_bin.as_str());
        s.append("), exponent: ");
        s.append(e_dec.as_str());
        s.append("(");
        s.append(e_bin.as_str());
        s.append("), sign: ");
        if sign == 1 {
            s.append("1(1)");
        } else {
            s.append("-1(11111111)");
        }
        proof {
            assert(s@ =~= mes_text(repr));
        }
        s
    }

    /// The mantissa/exponent/sign rendering of a little-endian float byte
    /// pattern.
    pub fn to_mes_string(bytes: &[u8]) -> (r: String)
        requires
            bytes@.len() == 2 || bytes@.len() == 4 || bytes@.len() == 8,
        ensures
            r@ == mes_text(
                (
                    float_sign(val(bytes@, 256), 8 * bytes@.len()) as i8,
                    float_mantissa(
                        val(bytes@, 256),
                        float_mantissa_bits(bytes@.len() as int),
                    ) as u64,
                    float_exponent(
                        val(bytes@, 256),
                        8 * bytes@.len(),
                        float_mantissa_bits(bytes@.len() as int),
                    ) as i16,
                ),
            ),
    {
        let repr = Self::get_repr(bytes);
        Self::mantissa_exponent_to_string(repr)
    }
}

/// How many mantissa bits a float of the given byte width has.
pub open spec fn float_mantissa_bits(width: int) -> nat {
    if width == 2 {
        10
    } else if width == 4 {
        23
    } else {
        52
    }
}

/// The decimal text of a value, as characters.
pub open spec fn dec_chars(v: nat) -> Seq<char> {
    crate::ext::bytes_as_chars(crate::radix::canonical_digits(v, 10))
}

/// The binary text of a value, as characters.
pub open spec fn bin_chars(v: nat) -> Seq<char> {
    crate::ext::bytes_as_chars(crate::radix::canonical_digits(v, 2))
}

/// The mantissa/exponent/sign rendering of a split float representation.
pub open spec fn mes_text(repr: (i8, u64, i16)) -> Seq<char> {
    "Mantissa: "@ + dec_chars(repr.1 as nat) + "("@ + bin_chars(repr.1 as nat) + "), exponent: "@
        + dec_chars(repr.2 as nat) + "("@ + bin_chars(repr.2 as nat) + "), sign: "@ + (if repr.0
        == 1 {
        "1(1)"@
    } else {
        "-1(11111111)"@
    })
}

impl Base2_16 {
    /// The numeric value of an ASCII digit `0-9`, `a-f` or `A-F`.
    pub fn ascii_to_num(byte: u8) -> (r: u8)
        requires
            is_hex_digit(byte),
        ensures
            r == hex_digit_value(byte),
            r <= 15,
    {
        if byte >= 48 && byte <= 57 {
            byte - 48
        } else if byte >= 97 && byte <= 102 {
            byte - 97 + 10
        } else {
            byte - 65 + 10
        }
    }

    /// The ASCII digit for a value below 16, upper or lower case.
    pub fn num_to_ascii(byte: u8, is_capital: bool) -> (r: u8)
        requires
            byte <= 15,
        ensures
            r == hex_digit_char(byte, is_capital),
            is_hex_digit(r),
            hex_digit_value(r) == byte,
    {
        if byte <= 9 {
            byte + 48
        } else {
            if is_capital {
                byte - 10 + 65
            } else {
                byte - 10 + 97
            }
        }
    }

    /// Whether the byte is an ASCII hexadecimal digit.
    pub fn is_hex(byte: u8) -> (r: bool)
        ensures
            r == is_hex_digit(byte),
    {
        byte >= 48 && byte <= 57 || byte >= 97 && byte <= 102 || byte >= 65 && byte <= 70
    }

    /// Whether the byte is an ASCII octal digit.
    pub fn is_oct(byte: u8) -> (r: bool)
        ensures
            r == is_oct_digit(byte),
    {
        byte >= 48 && byte <= 55
    }

    /// The base a `Variant::Base` tag selects.
    pub fn get_base(variant: &Variant) -> (r: u64)
        requires
            variant matches Variant::Base(_),
        ensures
            r == variant->Base_0 as u64,
    {
        match variant {
            Variant::Base(b) => *b as u64,
            _ => 0,
        }
    }
}

} // verus!
