//! Decoding textual renderings into the intermediate byte form: each codec
//! identifies the variants under which a text can be read, and decodes the
//! text under a chosen variant.

use vstd::prelude::*;
use vstd::string::{StringSliceAdditionalSpecFns, StrSliceExecFns};
use vstd::utf8::encode_utf8;
use crate::common::{
    Variant, CodecError, B64Flavor, TimeFormat, Base2_16, DateTime, FixedInt, Unicode8, IpV4,
    Base64, Base85, Base91, ByteList, UUID, EscapedString, UnicodeNames, Colour, is_hex_digit,
    hex_digit_value,
};
use crate::radix::{val, pow_n, digits_to_bytes, nat_to_digits, minimal, digits_below};

verus! {

/// Decoding: from text to the intermediate byte form.  `identify` answers
/// which variants of this codec can read the text; `decode` reads it under
/// one of them.  A variant that `identify` would not produce for the text
/// decodes to an error, never to a made-up value.
pub trait ToIR {
    /// The variants under which the text can be read, if any.
    spec fn identify_spec(s: Seq<char>) -> Option<Seq<Variant>>;

    /// What decoding the text under the variant yields.
    spec fn decode_spec(s: Seq<char>, variant: Variant) -> Result<Seq<u8>, CodecError>;

    /// Identifies the variants under which this codec can read the text.
    fn identify(value: &str) -> (r: Option<Vec<Variant>>)
        ensures
            r is Some <==> Self::identify_spec(value@) is Some,
            r matches Some(v) ==> Self::identify_spec(value@) == Some(v@),
    ;

    /// Decodes the text under the chosen variant.
    fn decode(value: &str, variant: Variant) -> (r: Result<Vec<u8>, CodecError>)
        ensures
            match Self::decode_spec(value@, variant) {
                Ok(b) => r matches Ok(v) && v@ == b,
                Err(e) => r == Result::<Vec<u8>, CodecError>::Err(e),
            },
    ;
}

/// Whether every byte is an ASCII hexadecimal digit.
pub open spec fn all_hex(bs: Seq<u8>) -> bool {
    forall|i: int| 0 <= i < bs.len() ==> is_hex_digit(bs[i])
}

/// The largest digit value of a hexadecimal digit text; 0 when empty.
pub open spec fn largest_digit(bs: Seq<u8>) -> nat
    decreases bs.len(),
{
    if bs.len() == 0 {
        0
    } else if hex_digit_value(bs.last()) as nat > largest_digit(bs.drop_last()) {
        hex_digit_value(bs.last()) as nat
    } else {
        largest_digit(bs.drop_last())
    }
}

/// The bases of a contiguous range, low to 16, as variants.
pub open spec fn base_range(lo: nat) -> Seq<Variant> {
    Seq::new((17 - lo) as nat, |i: int| Variant::Base((lo + i) as u8))
}

/// Whether the text begins with a `0b`, `0o` or `0x` prefix.
pub open spec fn has_base_prefix(bs: Seq<u8>) -> bool {
    bs.len() >= 2 && bs[0] == 0x30 && (bs[1] == 0x62 || bs[1] == 0x6F || bs[1] == 0x78)
}

/// The digit values of a most-significant-first digit text, least
/// significant first.
pub open spec fn text_digits(bs: Seq<u8>) -> Seq<u8> {
    Seq::new(bs.len(), |i: int| hex_digit_value(bs[bs.len() - 1 - i]))
}

/// Which variants the base-2-to-16 codec reads a digit text under: a `0b`,
/// `0o` or `0x` prefix pins the base; otherwise every base from just above
/// the largest digit seen through 16 can read it, and a non-digit rules
/// them all out.
pub open spec fn b2_16_identify_spec(bs: Seq<u8>) -> Option<Seq<Variant>> {
    if bs.len() >= 2 && bs[0] == 0x30 && bs[1] == 0x62 {
        Some(seq![Variant::Base(2)])
    } else if bs.len() >= 2 && bs[0] == 0x30 && bs[1] == 0x6F {
        Some(seq![Variant::Base(8)])
    } else if bs.len() >= 2 && bs[0] == 0x30 && bs[1] == 0x78 {
        Some(seq![Variant::Base(16)])
    } else if !all_hex(bs) {
        None
    } else if largest_digit(bs) + 1 > 2 {
        Some(base_range(largest_digit(bs) + 1))
    } else {
        Some(base_range(2))
    }
}

/// What the base-2-to-16 codec decodes a digit text to under a base: the
/// shortest little-endian bytes of the magnitude the digits denote, any
/// `0b`/`0o`/`0x` prefix first stripped; a digit at or above the base is
/// an error, and so is a tag of another codec.
pub open spec fn b2_16_decode_spec(bs0: Seq<u8>, variant: Variant) -> Result<Seq<u8>, CodecError> {
    match variant {
        Variant::Base(b) => if 2 <= b <= 16 {
            let bs = if has_base_prefix(bs0) {
                bs0.skip(2)
            } else {
                bs0
            };
            if !all_hex(bs) {
                Err(CodecError::InvalidDigit)
            } else if !digits_below(text_digits(bs), b as nat) {
                Err(CodecError::InvalidDigit)
            } else {
                Ok(nat_to_digits(val(text_digits(bs), b as nat), 256))
            }
        } else {
            Err(CodecError::VariantMismatch)
        },
        _ => Err(CodecError::VariantMismatch),
    }
}

impl Base2_16 {
    /// `identify`, working on the UTF-8 bytes of the text.
    pub fn identify_bytes(bytes: &Vec<u8>) -> (r: Option<Vec<Variant>>)
        ensures
            r is Some <==> b2_16_identify_spec(bytes@) is Some,
            r matches Some(v) ==> b2_16_identify_spec(bytes@) == Some(v@),
    {
        if bytes.len() >= 2 && bytes[0] == 0x30 {
            let c = bytes[1];
            if c == 0x62 {
                let mut v: Vec<Variant> = Vec::new();
                v.push(Variant::Base(2));
                proof {
                    assert(v@ =~= seq![Variant::Base(2)]);
                }
                return Some(v);
            }
            if c == 0x6F {
                let mut v: Vec<Variant> = Vec::new();
                v.push(Variant::Base(8));
                proof {
                    assert(v@ =~= seq![Variant::Base(8)]);
                }
                return Some(v);
            }
            if c == 0x78 {
                let mut v: Vec<Variant> = Vec::new();
                v.push(Variant::Base(16));
                proof {
                    assert(v@ =~= seq![Variant::Base(16)]);
                }
                return Some(v);
            }
        }
        let n = bytes.len();
        let mut largest: u8 = 0;
        let mut i: usize = 0;
        proof {
            assert(bytes@.take(0) =~= Seq::<u8>::empty());
        }
        while i < n
            invariant
                0 <= i <= n == bytes@.len(),
                all_hex(bytes@.take(i as int)),
                largest == largest_digit(bytes@.take(i as int)),
                largest <= 15,
                !(bytes@.len() >= 2 && bytes@[0] == 0x30 && (bytes@[1] == 0x62 || bytes@[1] == 0x6F
                    || bytes@[1] == 0x78)),
            decreases n - i,
        {
            let b = bytes[i];
            if !Base2_16::is_hex(b) {
                proof {
                    assert(!all_hex(bytes@));
                }
                return None;
            }
            let d = Base2_16::ascii_to_num(b);
            proof {
                assert(bytes@.take(i + 1).drop_last() =~= bytes@.take(i as int));
                assert(bytes@.take(i + 1).last() == bytes@[i as int]);
            }
            if d > largest {
                largest = d;
            }
            i = i + 1;
        }
        proof {
            assert(bytes@.take(n as int) =~= bytes@);
        }
        let lo: u8 = if largest + 1 > 2 {
            largest + 1
        } else {
            2
        };
        let mut v: Vec<Variant> = Vec::new();
        let mut b: u8 = lo;
        while b <= 16
            invariant
                lo <= b <= 17,
                2 <= lo <= 16,
                v@.len() == b - lo,
                forall|j: int| 0 <= j < v@.len() ==> v@[j] == Variant::Base((lo + j) as u8),
            decreases 17 - b,
        {
            v.push(Variant::Base(b));
            b = b + 1;
        }
        proof {
            assert(v@ =~= base_range(lo as nat));
        }
        Some(v)
    }

    /// `decode`, working on the UTF-8 bytes of the text.
    pub fn decode_bytes(bytes: &Vec<u8>, variant: Variant) -> (r: Result<Vec<u8>, CodecError>)
        ensures
            match b2_16_decode_spec(bytes@, variant) {
                Ok(b) => r matches Ok(v) && v@ == b,
                Err(e) => r == Result::<Vec<u8>, CodecError>::Err(e),
            },
    {
        let b: u8 = match variant {
            Variant::Base(b) => b,
            _ => {
                return Err(CodecError::VariantMismatch);
            },
        };
        if b < 2 || b > 16 {
            return Err(CodecError::VariantMismatch);
        }
        let n = bytes.len();
        let start: usize = if n >= 2 && bytes[0] == 0x30 && (bytes[1] == 0x62 || bytes[1] == 0x6F
            || bytes[1] == 0x78) {
            2
        } else {
            0
        };
        let ghost bs = if has_base_prefix(bytes@) {
            bytes@.skip(2)
        } else {
            bytes@
        };
        proof {
            assert(bs =~= bytes@.skip(start as int));
        }
        let mut digits: Vec<u8> = Vec::new();
        let mut j: usize = 0;
        while j < n - start
            invariant
                0 <= j <= n - start,
                n == bytes@.len(),
                start <= n,
                start == (if has_base_prefix(bytes@) {
                    2int
                } else {
                    0int
                }),
                2 <= b <= 16,
                variant == Variant::Base(b),
                bs == bytes@.skip(start as int),
                digits@.len() == j,
                forall|m: int|
                    #![trigger bytes@[n - 1 - m]]
                    0 <= m < j ==> is_hex_digit(bytes@[n - 1 - m]) && digits@[m]
                        == hex_digit_value(bytes@[n - 1 - m]),
            decreases n - start - j,
        {
            let c = bytes[n - 1 - j];
            if !Base2_16::is_hex(c) {
                proof {
                    assert(bs[n - 1 - j - start] == bytes@[n - 1 - j]);
                    assert(!all_hex(bs));
                }
                return Err(CodecError::InvalidDigit);
            }
            digits.push(Base2_16::ascii_to_num(c));
            proof {
                assert(digits@[j as int] == hex_digit_value(bytes@[n - 1 - j]));
            }
            j = j + 1;
        }
        proof {
            assert forall|q: int| 0 <= q < bs.len() implies is_hex_digit(#[trigger] bs[q]) by {
                assert(bs[q] == bytes@[start + q]);
                let m = n - 1 - (start + q);
                assert(is_hex_digit(bytes@[n - 1 - m]));
            }
            assert(digits@ =~= text_digits(bs)) by {
                assert forall|m: int| 0 <= m < digits@.len() implies digits@[m] == text_digits(
                    bs,
                )[m] by {
                    assert(bs[bs.len() - 1 - m] == bytes@[n - 1 - m]);
                }
            }
        }
        match digits_to_bytes(&digits, b) {
            Ok(out) => {
                proof {
                    let v = val(text_digits(bs), b as nat);
                    crate::radix::lemma_nat_to_digits(v, 256);
                    assert(digits_below(out@, 256));
                    crate::radix::lemma_minimal_unique(out@, nat_to_digits(v, 256), 256);
                }
                Ok(out)
            },
            Err(e) => Err(e),
        }
    }
}

impl ToIR for Base2_16 {
    open spec fn identify_spec(s: Seq<char>) -> Option<Seq<Variant>> {
        b2_16_identify_spec(encode_utf8(s))
    }

    open spec fn decode_spec(s: Seq<char>, variant: Variant) -> Result<Seq<u8>, CodecError> {
        b2_16_decode_spec(encode_utf8(s), variant)
    }

    fn identify(value: &str) -> (r: Option<Vec<Variant>>) {
        let bytes = value.as_bytes_vec();
        Base2_16::identify_bytes(&bytes)
    }

    fn decode(value: &str, variant: Variant) -> (r: Result<Vec<u8>, CodecError>) {
        let bytes = value.as_bytes_vec();
        Base2_16::decode_bytes(&bytes, variant)
    }
}

impl ToIR for EscapedString {
    open spec fn identify_spec(s: Seq<char>) -> Option<Seq<Variant>> {
        let c_ok = crate::escape::esc_decode(encode_utf8(s), crate::escape::Variant::C) is Some;
        let p_ok = crate::escape::esc_decode(
            encode_utf8(s),
            crate::escape::Variant::Python,
        ) is Some;
        if c_ok && p_ok {
            Some(
                seq![
                    Variant::Escaped(crate::escape::Variant::C),
                    Variant::Escaped(crate::escape::Variant::Python),
                ],
            )
        } else if c_ok {
            Some(seq![Variant::Escaped(crate::escape::Variant::C)])
        } else if p_ok {
            Some(seq![Variant::Escaped(crate::escape::Variant::Python)])
        } else {
            None
        }
    }

    open spec fn decode_spec(s: Seq<char>, variant: Variant) -> Result<Seq<u8>, CodecError> {
        match variant {
            Variant::Escaped(d) => match crate::escape::esc_decode(encode_utf8(s), d) {
                Some(b) => Ok(b),
                None => Err(CodecError::Lex),
            },
            _ => Err(CodecError::VariantMismatch),
        }
    }

    fn identify(value: &str) -> (r: Option<Vec<Variant>>) {
        let c_ok = crate::escape::EscapeSequence::decode(value, crate::escape::Variant::C).is_ok();
        let p_ok = crate::escape::EscapeSequence::decode(
            value,
            crate::escape::Variant::Python,
        ).is_ok();
        let mut v: Vec<Variant> = Vec::new();
        if c_ok {
            v.push(Variant::Escaped(crate::escape::Variant::C));
        }
        if p_ok {
            v.push(Variant::Escaped(crate::escape::Variant::Python));
        }
        if v.len() == 0 {
            proof {
                assert(Self::identify_spec(value@) is None);
            }
            None
        } else {
            proof {
                assert(Self::identify_spec(value@) == Some(v@)) by {
                    assert(Self::identify_spec(value@)->Some_0 =~= v@);
                }
            }
            Some(v)
        }
    }

    fn decode(value: &str, variant: Variant) -> (r: Result<Vec<u8>, CodecError>) {
        match variant {
            Variant::Escaped(d) => crate::escape::EscapeSequence::decode(value, d),
            _ => Err(CodecError::VariantMismatch),
        }
    }
}

impl ToIR for Unicode8 {
    open spec fn identify_spec(s: Seq<char>) -> Option<Seq<Variant>> {
        Some(seq![Variant::Plain])
    }

    open spec fn decode_spec(s: Seq<char>, variant: Variant) -> Result<Seq<u8>, CodecError> {
        if variant == Variant::Plain {
            Ok(encode_utf8(s))
        } else {
            Err(CodecError::VariantMismatch)
        }
    }

    fn identify(value: &str) -> (r: Option<Vec<Variant>>) {
        let mut v: Vec<Variant> = Vec::new();
        v.push(Variant::Plain);
        proof {
            assert(v@ =~= seq![Variant::Plain]);
        }
        Some(v)
    }

    fn decode(value: &str, variant: Variant) -> (r: Result<Vec<u8>, CodecError>) {
        match variant {
            Variant::Plain => Ok(value.as_bytes_vec()),
            _ => Err(CodecError::VariantMismatch),
        }
    }
}

/// Whether the text begins with a hyphen.  No Unicode character's name
/// does, and the name lookup is kept away from such texts.
pub open spec fn leading_hyphen(s: Seq<char>) -> bool {
    encode_utf8(s).len() > 0 && encode_utf8(s)[0] == 0x2D
}

impl ToIR for UnicodeNames {
    open spec fn identify_spec(s: Seq<char>) -> Option<Seq<Variant>> {
        if !leading_hyphen(s) && crate::escape::unicode_char_of(s) is Some {
            Some(seq![Variant::Plain])
        } else {
            None
        }
    }

    open spec fn decode_spec(s: Seq<char>, variant: Variant) -> Result<Seq<u8>, CodecError> {
        if variant == Variant::Plain {
            if leading_hyphen(s) {
                Err(CodecError::Lex)
            } else {
                match crate::escape::unicode_char_of(s) {
                    Some(c) => Ok(vstd::utf8::encode_scalar(c as u32)),
                    None => Err(CodecError::Lex),
                }
            }
        } else {
            Err(CodecError::VariantMismatch)
        }
    }

    fn identify(value: &str) -> (r: Option<Vec<Variant>>) {
        let bytes = value.as_bytes_vec();
        if bytes.len() > 0 && bytes[0] == 0x2D {
            return None;
        }
        match crate::ext::char_for_name(value) {
            Some(_) => {
                let mut v: Vec<Variant> = Vec::new();
                v.push(Variant::Plain);
                proof {
                    assert(v@ =~= seq![Variant::Plain]);
                }
                Some(v)
            },
            None => None,
        }
    }

    fn decode(value: &str, variant: Variant) -> (r: Result<Vec<u8>, CodecError>) {
        match variant {
            Variant::Plain => {
                let bytes = value.as_bytes_vec();
                if bytes.len() > 0 && bytes[0] == 0x2D {
                    return Err(CodecError::Lex);
                }
                match crate::ext::char_for_name(value) {
                    Some(c) => {
                        let mut out: Vec<u8> = Vec::new();
                        crate::escape::push_utf8(&mut out, c);
                        proof {
                            assert(out@ =~= vstd::utf8::encode_scalar(c as u32));
                        }
                        Ok(out)
                    },
                    None => Err(CodecError::Lex),
                }
            },
            _ => Err(CodecError::VariantMismatch),
        }
    }
}

impl ToIR for UUID {
    open spec fn identify_spec(s: Seq<char>) -> Option<Seq<Variant>> {
        if crate::ext::uuid_u128_of(s) is Some {
            Some(seq![Variant::Plain])
        } else {
            None
        }
    }

    open spec fn decode_spec(s: Seq<char>, variant: Variant) -> Result<Seq<u8>, CodecError> {
        if variant == Variant::Plain {
            match crate::ext::uuid_u128_of(s) {
                Some(u) => Ok(crate::radix::le_bytes_pad(u as nat, 16)),
                None => Err(CodecError::Lex),
            }
        } else {
            Err(CodecError::VariantMismatch)
        }
    }

    fn identify(value: &str) -> (r: Option<Vec<Variant>>) {
        match crate::ext::uuid_parse(value) {
            Some(_) => {
                let mut v: Vec<Variant> = Vec::new();
                v.push(Variant::Plain);
                proof {
                    assert(v@ =~= seq![Variant::Plain]);
                }
                Some(v)
            },
            None => None,
        }
    }

    fn decode(value: &str, variant: Variant) -> (r: Result<Vec<u8>, CodecError>) {
        match variant {
            Variant::Plain => match crate::ext::uuid_parse(value) {
                Some(u) => {
                    proof {
                        assert(pow_n(256, 16) == 0x100000000000000000000000000000000) by {
                            reveal_with_fuel(pow_n, 18);
                        }
                    }
                    Ok(crate::radix::le_width_u128(u, 16))
                },
                None => Err(CodecError::Lex),
            },
            _ => Err(CodecError::VariantMismatch),
        }
    }
}

/// The base64 alphabets that can read a text, in the fixed order the codec
/// offers them.
pub open spec fn b64_flavor_list(s: Seq<char>) -> Seq<Variant> {
    (if crate::ext::b64_bytes_of(B64Flavor::Bcrypt, s) is Some {
        seq![Variant::B64(B64Flavor::Bcrypt)]
    } else {
        seq![]
    }) + (if crate::ext::b64_bytes_of(B64Flavor::BinHex, s) is Some {
        seq![Variant::B64(B64Flavor::BinHex)]
    } else {
        seq![]
    }) + (if crate::ext::b64_bytes_of(B64Flavor::Crypt, s) is Some {
        seq![Variant::B64(B64Flavor::Crypt)]
    } else {
        seq![]
    }) + (if crate::ext::b64_bytes_of(B64Flavor::ImapMutf7, s) is Some {
        seq![Variant::B64(B64Flavor::ImapMutf7)]
    } else {
        seq![]
    }) + (if crate::ext::b64_bytes_of(B64Flavor::Standard, s) is Some {
        seq![Variant::B64(B64Flavor::Standard)]
    } else {
        seq![]
    }) + (if crate::ext::b64_bytes_of(B64Flavor::StandardNoPad, s) is Some {
        seq![Variant::B64(B64Flavor::StandardNoPad)]
    } else {
        seq![]
    }) + (if crate::ext::b64_bytes_of(B64Flavor::UrlSafe, s) is Some {
        seq![Variant::B64(B64Flavor::UrlSafe)]
    } else {
        seq![]
    }) + (if crate::ext::b64_bytes_of(B64Flavor::UrlSafeNoPad, s) is Some {
        seq![Variant::B64(B64Flavor::UrlSafeNoPad)]
    } else {
        seq![]
    })
}

impl ToIR for Base64 {
    open spec fn identify_spec(s: Seq<char>) -> Option<Seq<Variant>> {
        if b64_flavor_list(s).len() == 0 {
            None
        } else {
            Some(b64_flavor_list(s))
        }
    }

    open spec fn decode_spec(s: Seq<char>, variant: Variant) -> Result<Seq<u8>, CodecError> {
        match variant {
            Variant::B64(f) => match crate::ext::b64_bytes_of(f, s) {
                Some(b) => Ok(b),
                None => Err(CodecError::Lex),
            },
            _ => Err(CodecError::VariantMismatch),
        }
    }

    #[verifier::rlimit(100)]
    fn identify(value: &str) -> (r: Option<Vec<Variant>>) {
        let mut v: Vec<Variant> = Vec::new();
        let ghost mut want: Seq<Variant> = Seq::empty();
        if crate::ext::b64_decode(value, B64Flavor::Bcrypt).is_some() {
            v.push(Variant::B64(B64Flavor::Bcrypt));
            proof {
                want = want + seq![Variant::B64(B64Flavor::Bcrypt)];
                assert(v@ =~= want);
            }
        } else {
            proof {
                want = want + Seq::<Variant>::empty();
                assert(v@ =~= want);
            }
        }
        if crate::ext::b64_decode(value, B64Flavor::BinHex).is_some() {
            v.push(Variant::B64(B64Flavor::BinHex));
            proof {
                want = want + seq![Variant::B64(B64Flavor::BinHex)];
                assert(v@ =~= want);
            }
        } else {
            proof {
                want = want + Seq::<Variant>::empty();
                assert(v@ =~= want);
            }
        }
        if crate::ext::b64_decode(value, B64Flavor::Crypt).is_some() {
            v.push(Variant::B64(B64Flavor::Crypt));
            proof {
                want = want + seq![Variant::B64(B64Flavor::Crypt)];
                assert(v@ =~= want);
            }
        } else {
            proof {
                want = want + Seq::<Variant>::empty();
                assert(v@ =~= want);
            }
        }
        if crate::ext::b64_decode(value, B64Flavor::ImapMutf7).is_some() {
            v.push(Variant::B64(B64Flavor::ImapMutf7));
            proof {
                want = want + seq![Variant::B64(B64Flavor::ImapMutf7)];
                assert(v@ =~= want);
            }
        } else {
            proof {
                want = want + Seq::<Variant>::empty();
                assert(v@ =~= want);
            }
        }
        if crate::ext::b64_decode(value, B64Flavor::Standard).is_some() {
            v.push(Variant::B64(B64Flavor::Standard));
            proof {
                want = want + seq![Variant::B64(B64Flavor::Standard)];
                assert(v@ =~= want);
            }
        } else {
            proof {
                want = want + Seq::<Variant>::empty();
                assert(v@ =~= want);
            }
        }
        if crate::ext::b64_decode(value, B64Flavor::StandardNoPad).is_some() {
            v.push(Variant::B64(B64Flavor::StandardNoPad));
            proof {
                want = want + seq![Variant::B64(B64Flavor::StandardNoPad)];
                assert(v@ =~= want);
            }
        } else {
            proof {
                want = want + Seq::<Variant>::empty();
                assert(v@ =~= want);
            }
        }
        if crate::ext::b64_decode(value, B64Flavor::UrlSafe).is_some() {
            v.push(Variant::B64(B64Flavor::UrlSafe));
            proof {
                want = want + seq![Variant::B64(B64Flavor::UrlSafe)];
                assert(v@ =~= want);
            }
        } else {
            proof {
                want = want + Seq::<Variant>::empty();
                assert(v@ =~= want);
            }
        }
        if crate::ext::b64_decode(value, B64Flavor::UrlSafeNoPad).is_some() {
            v.push(Variant::B64(B64Flavor::UrlSafeNoPad));
            proof {
                want = want + seq![Variant::B64(B64Flavor::UrlSafeNoPad)];
                assert(v@ =~= want);
            }
        } else {
            proof {
                want = want + Seq::<Variant>::empty();
                assert(v@ =~= want);
            }
        }
        proof {
            assert(v@ =~= b64_flavor_list(value@));
        }
        if v.len() == 0 {
            None
        } else {
            Some(v)
        }
    }

    fn decode(value: &str, variant: Variant) -> (r: Result<Vec<u8>, CodecError>) {
        match variant {
            Variant::B64(f) => match crate::ext::b64_decode(value, f) {
                Some(b) => Ok(b),
                None => Err(CodecError::Lex),
            },
            _ => Err(CodecError::VariantMismatch),
        }
    }
}

impl ToIR for Base85 {
    open spec fn identify_spec(s: Seq<char>) -> Option<Seq<Variant>> {
        if crate::ext::z85_bytes_of(s) is Some {
            Some(seq![Variant::Z85Data])
        } else {
            None
        }
    }

    open spec fn decode_spec(s: Seq<char>, variant: Variant) -> Result<Seq<u8>, CodecError> {
        match variant {
            Variant::Z85Data => match crate::ext::z85_bytes_of(s) {
                Some(b) => Ok(b),
                None => Err(CodecError::Lex),
            },
            _ => Err(CodecError::VariantMismatch),
        }
    }

    fn identify(value: &str) -> (r: Option<Vec<Variant>>) {
        match crate::ext::z85_decode(value) {
            Some(_) => {
                let mut v: Vec<Variant> = Vec::new();
                v.push(Variant::Z85Data);
                proof {
                    assert(v@ =~= seq![Variant::Z85Data]);
                }
                Some(v)
            },
            None => None,
        }
    }

    fn decode(value: &str, variant: Variant) -> (r: Result<Vec<u8>, CodecError>) {
        match variant {
            Variant::Z85Data => match crate::ext::z85_decode(value) {
                Some(b) => Ok(b),
                None => Err(CodecError::Lex),
            },
            _ => Err(CodecError::VariantMismatch),
        }
    }
}

impl ToIR for Base91 {
    open spec fn identify_spec(s: Seq<char>) -> Option<Seq<Variant>> {
        Some(seq![Variant::Plain])
    }

    open spec fn decode_spec(s: Seq<char>, variant: Variant) -> Result<Seq<u8>, CodecError> {
        if variant == Variant::Plain {
            Ok(crate::ext::b91_bytes_of(encode_utf8(s)))
        } else {
            Err(CodecError::VariantMismatch)
        }
    }

    fn identify(value: &str) -> (r: Option<Vec<Variant>>) {
        let mut v: Vec<Variant> = Vec::new();
        v.push(Variant::Plain);
        proof {
            assert(v@ =~= seq![Variant::Plain]);
        }
        Some(v)
    }

    fn decode(value: &str, variant: Variant) -> (r: Result<Vec<u8>, CodecError>) {
        match variant {
            Variant::Plain => Ok(crate::ext::b91_decode(value.as_bytes())),
            _ => Err(CodecError::VariantMismatch),
        }
    }
}

/// The timestamp variants that can read a text, in the fixed order the
/// codec offers them.
pub open spec fn dt_variant_list(s: Seq<char>) -> Seq<Variant> {
    (if crate::ext::rfc2822_ts_of(s) is Some {
        seq![
            Variant::Time { bytes: 4u8, format: TimeFormat::Rfc2822 },
            Variant::Time { bytes: 8u8, format: TimeFormat::Rfc2822 },
        ]
    } else {
        seq![]
    }) + (if crate::ext::rfc3339_ts_of(s) is Some {
        seq![
            Variant::Time { bytes: 4u8, format: TimeFormat::Rfc3339 },
            Variant::Time { bytes: 8u8, format: TimeFormat::Rfc3339 },
        ]
    } else {
        seq![]
    })
}

impl ToIR for DateTime {
    open spec fn identify_spec(s: Seq<char>) -> Option<Seq<Variant>> {
        if dt_variant_list(s).len() == 0 {
            None
        } else {
            Some(dt_variant_list(s))
        }
    }

    open spec fn decode_spec(s: Seq<char>, variant: Variant) -> Result<Seq<u8>, CodecError> {
        match variant {
            Variant::Time { bytes: w, format: f } => if w == 4 || w == 8 {
                let ts = if f == TimeFormat::Rfc2822 {
                    crate::ext::rfc2822_ts_of(s)
                } else {
                    crate::ext::rfc3339_ts_of(s)
                };
                match ts {
                    Some(t) => Ok(
                        crate::radix::le_bytes_pad(
                            ((t as int) % (pow_n(256, w as nat) as int)) as nat,
                            w as nat,
                        ),
                    ),
                    None => Err(CodecError::Lex),
                }
            } else {
                Err(CodecError::VariantMismatch)
            },
            _ => Err(CodecError::VariantMismatch),
        }
    }

    fn identify(value: &str) -> (r: Option<Vec<Variant>>) {
        let mut v: Vec<Variant> = Vec::new();
        if crate::ext::parse_rfc2822_ts(value).is_some() {
            v.push(Variant::Time { bytes: 4, format: TimeFormat::Rfc2822 });
            v.push(Variant::Time { bytes: 8, format: TimeFormat::Rfc2822 });
        }
        if crate::ext::parse_rfc3339_ts(value).is_some() {
            v.push(Variant::Time { bytes: 4, format: TimeFormat::Rfc3339 });
            v.push(Variant::Time { bytes: 8, format: TimeFormat::Rfc3339 });
        }
        proof {
            assert(v@ =~= dt_variant_list(value@));
        }
        if v.len() == 0 {
            None
        } else {
            Some(v)
        }
    }

    fn decode(value: &str, variant: Variant) -> (r: Result<Vec<u8>, CodecError>) {
        let (w, f): (u8, TimeFormat) = match variant {
            Variant::Time { bytes: w, format: f } => (w, f),
            _ => {
                return Err(CodecError::VariantMismatch);
            },
        };
        if w != 4 && w != 8 {
            return Err(CodecError::VariantMismatch);
        }
        let ts = match f {
            TimeFormat::Rfc2822 => crate::ext::parse_rfc2822_ts(value),
            TimeFormat::Rfc3339 => crate::ext::parse_rfc3339_ts(value),
        };
        let t: i64 = match ts {
            Some(t) => t,
            None => {
                return Err(CodecError::Lex);
            },
        };
        proof {
            assert(pow_n(256, 4) == 0x100000000 && pow_n(256, 8) == 0x10000000000000000) by {
                reveal_with_fuel(pow_n, 10);
            }
        }
        if w == 4 {
            let u = euclid_mod_i64(t, 0x100000000);
            Ok(crate::radix::le_width_u128(u, 4))
        } else {
            let u = euclid_mod_i64(t, 0x10000000000000000);
            Ok(crate::radix::le_width_u128(u, 8))
        }
    }
}

/// The Euclidean remainder of a 64-bit signed value by a positive modulus.
pub fn euclid_mod_i64(t: i64, m: u128) -> (r: u128)
    requires
        m >= 1,
    ensures
        r as int == (t as int) % (m as int),
        r < m,
{
    if t >= 0 {
        (t as u128) % m
    } else {
        let mag: u128 = (-(t as i128)) as u128;
        let rem: u128 = mag % m;
        proof {
            let mi = m as int;
            let x = t as int;
            vstd::arithmetic::div_mod::lemma_fundamental_div_mod(mag as int, mi);
            let q = mag as int / mi;
            if rem == 0 {
                assert(x == (-q) * mi + 0) by (nonlinear_arith)
                    requires
                        x == -(mag as int),
                        mag as int == q * mi + 0,
                ;
                vstd::arithmetic::div_mod::lemma_fundamental_div_mod_converse_mod(x, mi, -q, 0);
            } else {
                assert(x == (-q - 1) * mi + (mi - rem)) by (nonlinear_arith)
                    requires
                        x == -(mag as int),
                        mag as int == q * mi + rem,
                ;
                vstd::arithmetic::div_mod::lemma_fundamental_div_mod_converse_mod(
                    x,
                    mi,
                    -q - 1,
                    mi - rem,
                );
            }
        }
        if rem == 0 {
            0
        } else {
            m - rem
        }
    }
}

/// Whether the text is one or more ASCII decimal digits.
pub open spec fn all_dec(bs: Seq<u8>) -> bool {
    bs.len() > 0 && forall|i: int| 0 <= i < bs.len() ==> 0x30 <= #[trigger] bs[i] <= 0x39
}

/// The magnitude a decimal digit text denotes.
pub open spec fn dec_value(bs: Seq<u8>) -> nat {
    val(text_digits(bs), 10)
}

/// The shortest little-endian bytes of the magnitude a numeral text
/// denotes under its smallest inferred base, if it reads as one.
pub open spec fn fixedint_base_bytes(bs: Seq<u8>) -> Option<Seq<u8>> {
    match b2_16_identify_spec(bs) {
        Some(vs) => if vs.len() > 0 {
            match b2_16_decode_spec(bs, vs[0]) {
                Ok(m) => Some(m),
                Err(_) => None,
            }
        } else {
            None
        },
        None => None,
    }
}

/// What the fixed-width integer codec decodes a text to at a width of `w`
/// bytes: a decimal numeral in range is taken directly, a negative decimal
/// becomes its two's complement for signed variants, and any other text is
/// read under its smallest inferred base and zero-padded, an error when
/// nothing fits.
pub open spec fn fixedint_decode_spec(bs: Seq<u8>, signed: bool, w: nat) -> Result<
    Seq<u8>,
    CodecError,
>
    recommends
        w >= 1,
{
    if signed && bs.len() >= 1 && bs[0] == 0x2D && all_dec(bs.skip(1)) && dec_value(bs.skip(1))
        <= 128 * pow_n(256, (w - 1) as nat) {
        Ok(
            crate::radix::le_bytes_pad(
                (if dec_value(bs.skip(1)) == 0 {
                    0nat
                } else {
                    (pow_n(256, w) - dec_value(bs.skip(1))) as nat
                }),
                w,
            ),
        )
    } else if !signed && all_dec(bs) && dec_value(bs) < pow_n(256, w) {
        Ok(crate::radix::le_bytes_pad(dec_value(bs), w))
    } else if signed && all_dec(bs) && dec_value(bs) < 128 * pow_n(256, (w - 1) as nat) {
        Ok(crate::radix::le_bytes_pad(dec_value(bs), w))
    } else {
        match fixedint_base_bytes(bs) {
            Some(mag) => if mag.len() <= w {
                Ok(crate::radix::le_bytes_pad(val(mag, 256), w))
            } else {
                Err(CodecError::InvalidDigit)
            },
            None => Err(CodecError::InvalidDigit),
        }
    }
}

/// The integer variants whose width, in bytes, holds a magnitude of `n`
/// bytes, in the fixed order the codec offers them.
pub open spec fn int_variants_by_size(n: nat) -> Seq<Variant> {
    (if n <= 1 {
        seq![
            Variant::Int { signed: false, bytes: 1u8 },
            Variant::Int { signed: true, bytes: 1u8 },
        ]
    } else {
        seq![]
    }) + (if n <= 2 {
        seq![
            Variant::Int { signed: false, bytes: 2u8 },
            Variant::Int { signed: true, bytes: 2u8 },
        ]
    } else {
        seq![]
    }) + (if n <= 4 {
        seq![
            Variant::Int { signed: false, bytes: 4u8 },
            Variant::Int { signed: true, bytes: 4u8 },
        ]
    } else {
        seq![]
    }) + (if n <= 8 {
        seq![
            Variant::Int { signed: false, bytes: 8u8 },
            Variant::Int { signed: true, bytes: 8u8 },
        ]
    } else {
        seq![]
    }) + (if n <= 16 {
        seq![
            Variant::Int { signed: false, bytes: 16u8 },
            Variant::Int { signed: true, bytes: 16u8 },
        ]
    } else {
        seq![]
    })
}

/// The signed variants whose range holds a negated magnitude `m`, in the
/// fixed order the codec offers them.
pub open spec fn neg_variant_list(m: nat) -> Seq<Variant> {
    (if m <= 128 * pow_n(256, 0) {
        seq![Variant::Int { signed: true, bytes: 1u8 }]
    } else {
        seq![]
    }) + (if m <= 128 * pow_n(256, 1) {
        seq![Variant::Int { signed: true, bytes: 2u8 }]
    } else {
        seq![]
    }) + (if m <= 128 * pow_n(256, 3) {
        seq![Variant::Int { signed: true, bytes: 4u8 }]
    } else {
        seq![]
    }) + (if m <= 128 * pow_n(256, 7) {
        seq![Variant::Int { signed: true, bytes: 8u8 }]
    } else {
        seq![]
    }) + (if m <= 128 * pow_n(256, 15) {
        seq![Variant::Int { signed: true, bytes: 16u8 }]
    } else {
        seq![]
    })
}

/// Which variants the fixed-width integer codec reads a text under: the
/// widths that hold its magnitude under its smallest inferred base, and
/// for a negative decimal the signed widths whose range holds it.
pub open spec fn fixedint_identify_spec(bs: Seq<u8>) -> Option<Seq<Variant>> {
    let list = (match fixedint_base_bytes(bs) {
        Some(mag) => int_variants_by_size(mag.len()),
        None => seq![],
    }) + (if bs.len() >= 1 && bs[0] == 0x2D && all_dec(bs.skip(1)) {
        neg_variant_list(dec_value(bs.skip(1)))
    } else {
        seq![]
    });
    if list.len() == 0 {
        None
    } else {
        Some(list)
    }
}

/// Reads a decimal digit run from `start` on as its shortest little-endian
/// magnitude bytes, or nothing if any byte is not a decimal digit or none
/// follows.
fn dec_magnitude(bytes: &Vec<u8>, start: usize) -> (r: Option<Vec<u8>>)
    requires
        start <= bytes@.len(),
    ensures
        match r {
            Some(mag) => all_dec(bytes@.skip(start as int)) && val(mag@, 256) == dec_value(
                bytes@.skip(start as int),
            ) && minimal(mag@),
            None => !all_dec(bytes@.skip(start as int)),
        },
{
    let ghost bs = bytes@.skip(start as int);
    let n = bytes.len();
    if start == n {
        return None;
    }
    let mut digits: Vec<u8> = Vec::new();
    let mut j: usize = 0;
    while j < n - start
        invariant
            0 <= j <= n - start,
            n == bytes@.len(),
            start < n,
            bs == bytes@.skip(start as int),
            digits@.len() == j,
            forall|m: int|
                #![trigger bytes@[n - 1 - m]]
                0 <= m < j ==> 0x30 <= bytes@[n - 1 - m] <= 0x39 && digits@[m] == hex_digit_value(
                    bytes@[n - 1 - m],
                ),
        decreases n - start - j,
    {
        let c = bytes[n - 1 - j];
        if c < 0x30 || c > 0x39 {
            proof {
                assert(bs[n - 1 - j - start] == bytes@[n - 1 - j]);
                assert(!all_dec(bs));
            }
            return None;
        }
        digits.push(Base2_16::ascii_to_num(c));
        j = j + 1;
    }
    proof {
        assert forall|q: int| 0 <= q < bs.len() implies 0x30 <= #[trigger] bs[q] <= 0x39 by {
            assert(bs[q] == bytes@[start + q]);
            let m = n - 1 - (start + q);
            assert(0x30 <= bytes@[n - 1 - m] <= 0x39);
        }
        assert(digits@ =~= text_digits(bs)) by {
            assert forall|m: int| 0 <= m < digits@.len() implies digits@[m] == text_digits(
                bs,
            )[m] by {
                assert(bs[bs.len() - 1 - m] == bytes@[n - 1 - m]);
            }
        }
        assert(digits_below(digits@, 10)) by {
            assert forall|m: int| 0 <= m < digits@.len() implies (digits@[m] as nat) < 10 by {
                assert(0x30 <= bytes@[n - 1 - m] <= 0x39);
            }
        }
    }
    match digits_to_bytes(&digits, 10) {
        Ok(mag) => Some(mag),
        Err(_) => {
            proof {
                assert(false);
            }
            None
        },
    }
}

/// Reads the text as a numeral under its smallest inferred base, as its
/// shortest little-endian magnitude bytes.
fn base_magnitude(bytes: &Vec<u8>) -> (r: Option<Vec<u8>>)
    ensures
        match r {
            Some(mag) => fixedint_base_bytes(bytes@) == Some(mag@) && minimal(mag@),
            None => fixedint_base_bytes(bytes@) is None,
        },
{
    match Base2_16::identify_bytes(bytes) {
        Some(vs) => {
            if vs.len() == 0 {
                return None;
            }
            let first = vs[0];
            match Base2_16::decode_bytes(bytes, first) {
                Ok(mag) => {
                    proof {
                        let v = val(
                            text_digits(
                                if has_base_prefix(bytes@) {
                                    bytes@.skip(2)
                                } else {
                                    bytes@
                                },
                            ),
                            first->Base_0 as nat,
                        );
                        crate::radix::lemma_nat_to_digits(v, 256);
                    }
                    Some(mag)
                },
                Err(_) => None,
            }
        },
        None => None,
    }
}

/// Whether the magnitude held by shortest bytes fits `w` bytes.
fn fits_unsigned(mag: &Vec<u8>, w: usize) -> (r: bool)
    requires
        minimal(mag@),
        w >= 1,
    ensures
        r == (val(mag@, 256) < pow_n(256, w as nat)),
{
    proof {
        crate::radix::lemma_fits_unsigned(mag@, w as nat);
    }
    mag.len() <= w
}

/// Whether the magnitude held by shortest bytes is below `128 * 256^(w-1)`,
/// the bound of a positive signed value of `w` bytes.
fn fits_signed_pos(mag: &Vec<u8>, w: usize) -> (r: bool)
    requires
        minimal(mag@),
        w >= 1,
    ensures
        r == (val(mag@, 256) < 128 * pow_n(256, (w - 1) as nat)),
{
    proof {
        crate::radix::lemma_fits_signed(mag@, w as nat);
    }
    mag.len() < w || (mag.len() == w && mag[w - 1] < 128)
}

/// Whether the magnitude held by shortest bytes is at most
/// `128 * 256^(w-1)`, the bound of a negated signed value of `w` bytes.
fn fits_signed_neg(mag: &Vec<u8>, w: usize) -> (r: bool)
    requires
        minimal(mag@),
        w >= 1,
    ensures
        r == (val(mag@, 256) <= 128 * pow_n(256, (w - 1) as nat)),
{
    proof {
        crate::radix::lemma_fits_signed(mag@, w as nat);
    }
    if mag.len() < w || (mag.len() == w && mag[w - 1] < 128) {
        return true;
    }
    if mag.len() == w && mag[w - 1] == 128 {
        let mut i: usize = 0;
        let mut all_zero = true;
        while i < w - 1
            invariant
                0 <= i <= w - 1 < mag@.len(),
                all_zero == (forall|m: int| 0 <= m < i ==> #[trigger] mag@[m] == 0),
            decreases w - 1 - i,
        {
            if mag[i] != 0 {
                all_zero = false;
            }
            i = i + 1;
        }
        proof {
            crate::radix::lemma_val_zero(mag@.take(w - 1), 256);
            assert(forall|m: int| 0 <= m < w - 1 ==> mag@.take(w - 1)[m] == mag@[m]);
        }
        return all_zero;
    }
    false
}

impl ToIR for FixedInt {
    open spec fn identify_spec(s: Seq<char>) -> Option<Seq<Variant>> {
        fixedint_identify_spec(encode_utf8(s))
    }

    open spec fn decode_spec(s: Seq<char>, variant: Variant) -> Result<Seq<u8>, CodecError> {
        match variant {
            Variant::Int { signed, bytes: w } => if w == 1 || w == 2 || w == 4 || w == 8 || w
                == 16 {
                fixedint_decode_spec(encode_utf8(s), signed, w as nat)
            } else {
                Err(CodecError::VariantMismatch)
            },
            _ => Err(CodecError::VariantMismatch),
        }
    }

    fn identify(value: &str) -> (r: Option<Vec<Variant>>) {
        let bytes = value.as_bytes_vec();
        let ghost bs = bytes@;
        let mut v: Vec<Variant> = Vec::new();
        let ghost mut want: Seq<Variant> = Seq::empty();
        match base_magnitude(&bytes) {
            Some(mag) => {
                let n = mag.len();
                if n <= 1 {
                    v.push(Variant::Int { signed: false, bytes: 1 });
                    v.push(Variant::Int { signed: true, bytes: 1 });
                }
                if n <= 2 {
                    v.push(Variant::Int { signed: false, bytes: 2 });
                    v.push(Variant::Int { signed: true, bytes: 2 });
                }
                if n <= 4 {
                    v.push(Variant::Int { signed: false, bytes: 4 });
                    v.push(Variant::Int { signed: true, bytes: 4 });
                }
                if n <= 8 {
                    v.push(Variant::Int { signed: false, bytes: 8 });
                    v.push(Variant::Int { signed: true, bytes: 8 });
                }
                if n <= 16 {
                    v.push(Variant::Int { signed: false, bytes: 16 });
                    v.push(Variant::Int { signed: true, bytes: 16 });
                }
                proof {
                    want = int_variants_by_size(mag@.len());
                    assert(v@ =~= want);
                }
            },
            None => {
                proof {
                    want = Seq::empty();
                    assert(v@ =~= want);
                }
            },
        }
        let n0 = bytes.len();
        if n0 >= 1 && bytes[0] == 0x2D {
            match dec_magnitude(&bytes, 1) {
                Some(mag) => {
                    proof {
                        assert(pow_n(256, 0) == 1 && pow_n(256, 1) == 256) by {
                            reveal_with_fuel(pow_n, 3);
                        }
                    }
                    let ghost m = val(mag@, 256);
                    if fits_signed_neg(&mag, 1) {
                        v.push(Variant::Int { signed: true, bytes: 1 });
                    }
                    if fits_signed_neg(&mag, 2) {
                        v.push(Variant::Int { signed: true, bytes: 2 });
                    }
                    if fits_signed_neg(&mag, 4) {
                        v.push(Variant::Int { signed: true, bytes: 4 });
                    }
                    if fits_signed_neg(&mag, 8) {
                        v.push(Variant::Int { signed: true, bytes: 8 });
                    }
                    if fits_signed_neg(&mag, 16) {
                        v.push(Variant::Int { signed: true, bytes: 16 });
                    }
                    proof {
                        want = want + neg_variant_list(m);
                        assert(v@ =~= want);
                    }
                },
                None => {
                    proof {
                        want = want + Seq::<Variant>::empty();
                        assert(v@ =~= want);
                    }
                },
            }
        } else {
            proof {
                want = want + Seq::<Variant>::empty();
                assert(v@ =~= want);
            }
        }
        proof {
            assert(fixedint_identify_spec(bs) == (if want.len() == 0 {
                Option::<Seq<Variant>>::None
            } else {
                Some(want)
            }));
        }
        if v.len() == 0 {
            None
        } else {
            Some(v)
        }
    }

    fn decode(value: &str, variant: Variant) -> (r: Result<Vec<u8>, CodecError>) {
        let (signed, w): (bool, u8) = match variant {
            Variant::Int { signed, bytes } => (signed, bytes),
            _ => {
                return Err(CodecError::VariantMismatch);
            },
        };
        if !(w == 1 || w == 2 || w == 4 || w == 8 || w == 16) {
            return Err(CodecError::VariantMismatch);
        }
        let ww = w as usize;
        let bytes = value.as_bytes_vec();
        let ghost bs = bytes@;
        proof {
            assert(bytes@.skip(0) =~= bytes@);
        }
        let n = bytes.len();
        if signed && n >= 1 && bytes[0] == 0x2D {
            match dec_magnitude(&bytes, 1) {
                Some(mag) => {
                    if fits_signed_neg(&mag, ww) {
                        proof {
                            crate::radix::lemma_pow_n_pos(256, (ww - 1) as nat);
                            assert(pow_n(256, ww as nat) == 256 * pow_n(256, (ww - 1) as nat));
                            assert(128 * pow_n(256, (ww - 1) as nat) < 256 * pow_n(
                                256,
                                (ww - 1) as nat,
                            )) by (nonlinear_arith)
                                requires
                                    pow_n(256, (ww - 1) as nat) >= 1,
                            ;
                            crate::radix::lemma_fits_unsigned(mag@, ww as nat);
                        }
                        let out = crate::radix::twos_complement(&mag, ww);
                        proof {
                            crate::radix::lemma_le_pad_unique(out@, ww as nat);
                        }
                        return Ok(out);
                    }
                },
                None => {},
            }
        }
        if !signed || !(n >= 1 && bytes[0] == 0x2D) {
            match dec_magnitude(&bytes, 0) {
                Some(mag) => {
                    let ok = if signed {
                        fits_signed_pos(&mag, ww)
                    } else {
                        fits_unsigned(&mag, ww)
                    };
                    if ok {
                        proof {
                            if signed {
                                crate::radix::lemma_pow_n_pos(256, (ww - 1) as nat);
                                assert(pow_n(256, ww as nat) == 256 * pow_n(
                                    256,
                                    (ww - 1) as nat,
                                ));
                                assert(128 * pow_n(256, (ww - 1) as nat) <= 256 * pow_n(
                                    256,
                                    (ww - 1) as nat,
                                )) by (nonlinear_arith)
                                    requires
                                        pow_n(256, (ww - 1) as nat) >= 1,
                                ;
                            }
                            crate::radix::lemma_fits_unsigned(mag@, ww as nat);
                        }
                        let out = crate::radix::zero_pad(mag, ww);
                        proof {
                            crate::radix::lemma_le_pad_unique(out@, ww as nat);
                        }
                        return Ok(out);
                    }
                },
                None => {},
            }
        }
        // neither decimal form fits: read the text under its smallest
        // inferred base
        match base_magnitude(&bytes) {
            Some(mag) => {
                if mag.len() <= ww {
                    let ghost mv = val(mag@, 256);
                    proof {
                        crate::radix::lemma_fits_unsigned(mag@, ww as nat);
                    }
                    let out = crate::radix::zero_pad(mag, ww);
                    proof {
                        crate::radix::lemma_le_pad_unique(out@, ww as nat);
                    }
                    Ok(out)
                } else {
                    Err(CodecError::InvalidDigit)
                }
            },
            None => Err(CodecError::InvalidDigit),
        }
    }
}

/// ASCII whitespace, as the byte-list grammar ignores it.
pub open spec fn is_ws(b: u8) -> bool {
    b == 0x20 || b == 0x09 || b == 0x0A || b == 0x0D || b == 0x0C || b == 0x0B
}

/// The sequence with its whitespace removed.
pub open spec fn strip_ws(s: Seq<u8>) -> Seq<u8>
    decreases s.len(),
{
    if s.len() == 0 {
        seq![]
    } else if is_ws(s[0]) {
        strip_ws(s.drop_first())
    } else {
        seq![s[0]] + strip_ws(s.drop_first())
    }
}

/// Stripping distributes over appending one byte.
pub proof fn lemma_strip_ws_snoc(s: Seq<u8>, b: u8)
    ensures
        strip_ws(s.push(b)) == strip_ws(s) + (if is_ws(b) {
            Seq::<u8>::empty()
        } else {
            seq![b]
        }),
    decreases s.len(),
{
    let tail: Seq<u8> = if is_ws(b) {
        Seq::<u8>::empty()
    } else {
        seq![b]
    };
    if s.len() == 0 {
        assert(s.push(b).drop_first() =~= Seq::<u8>::empty());
        assert(s.push(b)[0] == b);
        if is_ws(b) {
            assert(strip_ws(s.push(b)) =~= Seq::<u8>::empty()) by {
                reveal_with_fuel(strip_ws, 3);
            }
        } else {
            assert(strip_ws(s.push(b)) =~= seq![b] + strip_ws(Seq::<u8>::empty()));
            assert(seq![b] + strip_ws(Seq::<u8>::empty()) =~= seq![b]);
        }
        assert(strip_ws(s) + tail =~= tail);
        assert(strip_ws(s.push(b)) =~= strip_ws(s) + tail);
    } else {
        assert(s.push(b).drop_first() =~= s.drop_first().push(b));
        assert(s.push(b)[0] == s[0]);
        lemma_strip_ws_snoc(s.drop_first(), b);
        if !is_ws(s[0]) {
            assert(seq![s[0]] + (strip_ws(s.drop_first()) + tail) =~= (seq![s[0]] + strip_ws(
                s.drop_first(),
            )) + tail);
        }
        assert(strip_ws(s.push(b)) =~= strip_ws(s) + tail);
    }
}

/// The value of a short most-significant-first decimal digit text.
pub open spec fn dec_seq_val(ds: Seq<u8>) -> nat
    decreases ds.len(),
{
    if ds.len() == 0 {
        0
    } else {
        (dec_seq_val(ds.drop_last()) * 10 + (ds.last() - 0x30)) as nat
    }
}

/// A byte literal of the list: one to three decimal digits, no leading
/// zero unless the single digit `0`, value at most 255.
pub open spec fn dec_byte_ok(t: Seq<u8>) -> bool {
    1 <= t.len() <= 3 && (forall|i: int| 0 <= i < t.len() ==> 0x30 <= #[trigger] t[i] <= 0x39) && (
    t.len() == 1 || t[0] != 0x30) && dec_seq_val(t) <= 255
}

/// The position of the first comma at or after `i`, or -1 if there is
/// none.
pub open spec fn comma_idx(s: Seq<u8>, i: int) -> int
    decreases s.len() - i
        when 0 <= i <= s.len()
{
    if i >= s.len() {
        -1
    } else if s[i] == 0x2C {
        i
    } else {
        comma_idx(s, i + 1)
    }
}

/// A found comma lies within the sequence and is the first one.
pub proof fn lemma_comma_idx(s: Seq<u8>, i: int)
    requires
        0 <= i <= s.len(),
    ensures
        comma_idx(s, i) == -1 || (i <= comma_idx(s, i) < s.len() && s[comma_idx(s, i)] == 0x2C),
        comma_idx(s, i) >= 0 ==> forall|m: int| i <= m < comma_idx(s, i) ==> s[m] != 0x2C,
        comma_idx(s, i) == -1 ==> forall|m: int| i <= m < s.len() ==> s[m] != 0x2C,
    decreases s.len() - i,
{
    if i < s.len() && s[i] != 0x2C {
        lemma_comma_idx(s, i + 1);
    }
}

/// Shifting the sequence shifts the position of the first comma.
pub proof fn lemma_comma_idx_shift(v: Seq<u8>, p: int, i: int)
    requires
        0 <= p,
        0 <= i,
        p + i <= v.len(),
    ensures
        comma_idx(v.skip(p), i) == -1 <==> comma_idx(v, p + i) == -1,
        comma_idx(v, p + i) != -1 ==> comma_idx(v.skip(p), i) == comma_idx(v, p + i) - p,
    decreases v.len() - (p + i),
{
    let s = v.skip(p);
    if p + i >= v.len() {
    } else {
        assert(s[i] == v[p + i]);
        if v[p + i] == 0x2C {
        } else {
            lemma_comma_idx_shift(v, p, i + 1);
        }
    }
}

/// The byte values a comma-separated list of byte literals denotes: every
/// segment must be a byte literal, and one trailing comma is allowed.
pub open spec fn parse_items(s: Seq<u8>) -> Option<Seq<u8>>
    decreases s.len(),
{
    let j = comma_idx(s, 0);
    if j == -1 {
        if dec_byte_ok(s) {
            Some(seq![dec_seq_val(s) as u8])
        } else {
            None
        }
    } else if 0 <= j < s.len() {
        let head = s.take(j);
        if !dec_byte_ok(head) {
            None
        } else if j + 1 == s.len() {
            Some(seq![dec_seq_val(head) as u8])
        } else {
            match parse_items(s.skip(j + 1)) {
                Some(r) => Some(seq![dec_seq_val(head) as u8] + r),
                None => None,
            }
        }
    } else {
        None
    }
}

/// The bytes a bracketed, comma-separated, whitespace-blind list of byte
/// values denotes, if the text is one.
pub open spec fn byte_list_spec(raw: Seq<u8>) -> Option<Seq<u8>> {
    let s = strip_ws(raw);
    if s.len() >= 2 && s[0] == 0x5B && s[s.len() - 1] == 0x5D {
        parse_items(s.subrange(1, s.len() - 1))
    } else {
        None
    }
}

/// Removes the ASCII whitespace of a byte sequence.
fn strip_ws_exec(bytes: &Vec<u8>) -> (r: Vec<u8>)
    ensures
        r@ == strip_ws(bytes@),
{
    let n = bytes.len();
    let mut out: Vec<u8> = Vec::new();
    let mut i: usize = 0;
    proof {
        assert(bytes@.take(0) =~= Seq::<u8>::empty());
    }
    while i < n
        invariant
            0 <= i <= n == bytes@.len(),
            out@ == strip_ws(bytes@.take(i as int)),
        decreases n - i,
    {
        let b = bytes[i];
        proof {
            lemma_strip_ws_snoc(bytes@.take(i as int), bytes@[i as int]);
            assert(bytes@.take(i + 1) =~= bytes@.take(i as int).push(bytes@[i as int]));
        }
        if !(b == 0x20 || b == 0x09 || b == 0x0A || b == 0x0D || b == 0x0C || b == 0x0B) {
            out.push(b);
            proof {
                assert(out@ =~= strip_ws(bytes@.take(i + 1)));
            }
        } else {
            proof {
                assert(out@ =~= strip_ws(bytes@.take(i + 1)));
            }
        }
        i = i + 1;
    }
    proof {
        assert(bytes@.take(n as int) =~= bytes@);
    }
    out
}

/// Finds the first comma at or after `start`.
fn find_comma(v: &Vec<u8>, start: usize) -> (r: Option<usize>)
    requires
        start <= v@.len(),
    ensures
        match r {
            Some(j) => start <= j < v@.len() && j == comma_idx(v@, start as int),
            None => comma_idx(v@, start as int) == -1,
        },
{
    let mut i = start;
    while i < v.len()
        invariant
            start <= i <= v@.len(),
            comma_idx(v@, start as int) == comma_idx(v@, i as int),
        decreases v@.len() - i,
    {
        if v[i] == 0x2C {
            proof {
                lemma_comma_idx(v@, start as int);
            }
            return Some(i);
        }
        i = i + 1;
    }
    None
}

/// Reads one byte literal of the list.
fn seg_value(v: &Vec<u8>, from: usize, to: usize) -> (r: Option<u8>)
    requires
        from <= to <= v@.len(),
    ensures
        match r {
            Some(b) => dec_byte_ok(v@.subrange(from as int, to as int)) && b == dec_seq_val(
                v@.subrange(from as int, to as int),
            ),
            None => !dec_byte_ok(v@.subrange(from as int, to as int)),
        },
{
    let ghost t = v@.subrange(from as int, to as int);
    let k = to - from;
    if k < 1 || k > 3 {
        return None;
    }
    let mut i: usize = 0;
    while i < k
        invariant
            0 <= i <= k,
            from + k == to <= v@.len(),
            t == v@.subrange(from as int, to as int),
            forall|m: int| 0 <= m < i ==> 0x30 <= #[trigger] t[m] <= 0x39,
        decreases k - i,
    {
        let c = v[from + i];
        proof {
            assert(t[i as int] == v@[from + i]);
        }
        if c < 0x30 || c > 0x39 {
            return None;
        }
        i = i + 1;
    }
    if k > 1 && v[from] == 0x30 {
        proof {
            assert(t[0] == v@[from as int]);
        }
        return None;
    }
    proof {
        assert(t.last() == v@[to - 1]);
        if k == 1 {
            assert(t.drop_last() =~= Seq::<u8>::empty());
        }
        if k == 2 {
            assert(t.drop_last() =~= v@.subrange(from as int, to - 1));
            assert(t.drop_last().last() == v@[to - 2]);
            assert(t.drop_last().drop_last() =~= Seq::<u8>::empty());
        }
        if k == 3 {
            assert(t.drop_last() =~= v@.subrange(from as int, to - 1));
            assert(t.drop_last().last() == v@[to - 2]);
            assert(t.drop_last().drop_last() =~= v@.subrange(from as int, to - 2));
            assert(t.drop_last().drop_last().last() == v@[to - 3]);
            assert(t.drop_last().drop_last().drop_last() =~= Seq::<u8>::empty());
        }
    }
    let value: u16 = if k == 1 {
        (v[from] - 0x30) as u16
    } else if k == 2 {
        (v[from] - 0x30) as u16 * 10 + (v[from + 1] - 0x30) as u16
    } else {
        (v[from] - 0x30) as u16 * 100 + (v[from + 1] - 0x30) as u16 * 10 + (v[from + 2]
            - 0x30) as u16
    };
    proof {
        assert(value == dec_seq_val(t)) by {
            reveal_with_fuel(dec_seq_val, 5);
        }
    }
    if value > 255 {
        return None;
    }
    Some(value as u8)
}

/// Reads a comma-separated list of byte literals.
fn parse_list_items(v: &Vec<u8>) -> (r: Option<Vec<u8>>)
    ensures
        match r {
            Some(out) => parse_items(v@) == Some(out@),
            None => parse_items(v@) is None,
        },
{
    let n = v.len();
    let mut out: Vec<u8> = Vec::new();
    let mut i: usize = 0;
    proof {
        assert(v@.skip(0) =~= v@);
        if parse_items(v@) is Some {
            assert(Seq::<u8>::empty() + parse_items(v@)->Some_0 =~= parse_items(v@)->Some_0);
        }
    }
    loop
        invariant
            0 <= i <= n == v@.len(),
            match parse_items(v@.skip(i as int)) {
                Some(rest) => parse_items(v@) == Some(out@ + rest),
                None => parse_items(v@) is None,
            },
        decreases n - i,
    {
        let ghost u = v@.skip(i as int);
        proof {
            lemma_comma_idx_shift(v@, i as int, 0);
        }
        match find_comma(v, i) {
            None => {
                match seg_value(v, i, n) {
                    Some(b) => {
                        proof {
                            assert(u =~= v@.subrange(i as int, n as int));
                            assert(comma_idx(u, 0) == -1);
                        }
                        out.push(b);
                        proof {
                            assert(out@ =~= out@.subrange(0, out@.len() - 1) + seq![b]);
                        }
                        return Some(out);
                    },
                    None => {
                        proof {
                            assert(u =~= v@.subrange(i as int, n as int));
                        }
                        return None;
                    },
                }
            },
            Some(j) => {
                proof {
                    assert(u.take(j - i) =~= v@.subrange(i as int, j as int));
                    assert(comma_idx(u, 0) == j - i);
                }
                match seg_value(v, i, j) {
                    Some(b) => {
                        out.push(b);
                        if j + 1 == n {
                            return Some(out);
                        }
                        proof {
                            assert(u.skip(j - i + 1) =~= v@.skip(j + 1));
                            match parse_items(v@.skip(j + 1)) {
                                Some(r2) => {
                                    assert(out@.subrange(0, out@.len() - 1) + (seq![b] + r2) =~= (
                                    out@.subrange(0, out@.len() - 1) + seq![b]) + r2);
                                    assert(out@ =~= out@.subrange(0, out@.len() - 1) + seq![b]);
                                },
                                None => {},
                            }
                        }
                        i = j + 1;
                    },
                    None => {
                        return None;
                    },
                }
            },
        }
    }
}

impl ToIR for ByteList {
    open spec fn identify_spec(s: Seq<char>) -> Option<Seq<Variant>> {
        if byte_list_spec(encode_utf8(s)) is Some {
            Some(seq![Variant::Plain])
        } else {
            None
        }
    }

    open spec fn decode_spec(s: Seq<char>, variant: Variant) -> Result<Seq<u8>, CodecError> {
        if variant == Variant::Plain {
            match byte_list_spec(encode_utf8(s)) {
                Some(b) => Ok(b),
                None => Err(CodecError::Lex),
            }
        } else {
            Err(CodecError::VariantMismatch)
        }
    }

    fn identify(value: &str) -> (r: Option<Vec<Variant>>) {
        let bytes = value.as_bytes_vec();
        match ByteList::parse_list(&bytes) {
            Some(_) => {
                let mut v: Vec<Variant> = Vec::new();
                v.push(Variant::Plain);
                proof {
                    assert(v@ =~= seq![Variant::Plain]);
                }
                Some(v)
            },
            None => None,
        }
    }

    fn decode(value: &str, variant: Variant) -> (r: Result<Vec<u8>, CodecError>) {
        match variant {
            Variant::Plain => {
                let bytes = value.as_bytes_vec();
                match ByteList::parse_list(&bytes) {
                    Some(out) => Ok(out),
                    None => Err(CodecError::Lex),
                }
            },
            _ => Err(CodecError::VariantMismatch),
        }
    }
}

impl ByteList {
    /// Reads a bracketed, comma-separated, whitespace-blind list of byte
    /// values.
    pub fn parse_list(bytes: &Vec<u8>) -> (r: Option<Vec<u8>>)
        ensures
            match r {
                Some(out) => byte_list_spec(bytes@) == Some(out@),
                None => byte_list_spec(bytes@) is None,
            },
    {
        let s = strip_ws_exec(bytes);
        let n = s.len();
        if n < 2 {
            return None;
        }
        if s[0] != 0x5B || s[n - 1] != 0x5D {
            return None;
        }
        let inner = crate::escape::bytes_range(&s, 1, n - 1);
        proof {
            assert(inner@ =~= strip_ws(bytes@).subrange(1, strip_ws(bytes@).len() - 1));
        }
        parse_list_items(&inner)
    }
}

/// The position of the first `t` at or after `i`, or -1 if there is none.
pub open spec fn find_byte(s: Seq<u8>, i: int, t: u8) -> int
    decreases s.len() - i
        when 0 <= i <= s.len()
{
    if i >= s.len() {
        -1
    } else if s[i] == t {
        i
    } else {
        find_byte(s, i + 1, t)
    }
}

/// A found byte lies within the sequence and is the first of its kind.
pub proof fn lemma_find_byte(s: Seq<u8>, i: int, t: u8)
    requires
        0 <= i <= s.len(),
    ensures
        find_byte(s, i, t) == -1 || (i <= find_byte(s, i, t) < s.len() && s[find_byte(s, i, t)]
            == t),
        find_byte(s, i, t) >= 0 ==> forall|m: int| i <= m < find_byte(s, i, t) ==> s[m] != t,
        find_byte(s, i, t) == -1 ==> forall|m: int| i <= m < s.len() ==> s[m] != t,
    decreases s.len() - i,
{
    if i < s.len() && s[i] != t {
        lemma_find_byte(s, i + 1, t);
    }
}

/// Shifting the sequence shifts the position of the first found byte.
pub proof fn lemma_find_byte_shift(v: Seq<u8>, p: int, i: int, t: u8)
    requires
        0 <= p,
        0 <= i,
        p + i <= v.len(),
    ensures
        find_byte(v.skip(p), i, t) == -1 <==> find_byte(v, p + i, t) == -1,
        find_byte(v, p + i, t) != -1 ==> find_byte(v.skip(p), i, t) == find_byte(v, p + i, t) - p,
    decreases v.len() - (p + i),
{
    let s = v.skip(p);
    if p + i >= v.len() {
    } else {
        assert(s[i] == v[p + i]);
        if v[p + i] == t {
        } else {
            lemma_find_byte_shift(v, p, i + 1, t);
        }
    }
}

/// Finds the first `t` at or after `start`.
fn find_byte_exec(v: &Vec<u8>, start: usize, t: u8) -> (r: Option<usize>)
    requires
        start <= v@.len(),
    ensures
        match r {
            Some(j) => start <= j < v@.len() && j == find_byte(v@, start as int, t),
            None => find_byte(v@, start as int, t) == -1,
        },
{
    let mut i = start;
    while i < v.len()
        invariant
            start <= i <= v@.len(),
            find_byte(v@, start as int, t) == find_byte(v@, i as int, t),
        decreases v@.len() - i,
    {
        if v[i] == t {
            proof {
                lemma_find_byte(v@, start as int, t);
            }
            return Some(i);
        }
        i = i + 1;
    }
    None
}

/// The octet values of a text of `count` dot-separated byte literals.
pub open spec fn parse_octets(s: Seq<u8>, count: nat) -> Option<Seq<u8>>
    decreases count,
{
    if count <= 1 {
        if dec_byte_ok(s) {
            Some(seq![dec_seq_val(s) as u8])
        } else {
            None
        }
    } else {
        let j = find_byte(s, 0, 0x2E);
        if 0 <= j < s.len() && dec_byte_ok(s.take(j)) {
            match parse_octets(s.skip(j + 1), (count - 1) as nat) {
                Some(r) => Some(seq![dec_seq_val(s.take(j)) as u8] + r),
                None => None,
            }
        } else {
            None
        }
    }
}

/// A port literal: one to five decimal digits denoting at most 65535.
pub open spec fn port_ok(s: Seq<u8>) -> bool {
    1 <= s.len() <= 5 && (forall|i: int| 0 <= i < s.len() ==> 0x30 <= #[trigger] s[i] <= 0x39)
        && dec_seq_val(s) <= 65535
}

/// The intermediate bytes of a dotted-quad address: its octets, least
/// significant first.
pub open spec fn ipv4_addr_bytes(bs: Seq<u8>) -> Option<Seq<u8>> {
    match parse_octets(bs, 4) {
        Some(o) => Some(seq![o[3], o[2], o[1], o[0]]),
        None => None,
    }
}

/// The intermediate bytes of a dotted-quad address with a port: the
/// reversed octets, then the port, least significant byte first.
pub open spec fn ipv4_socket_bytes(bs: Seq<u8>) -> Option<Seq<u8>> {
    let j = find_byte(bs, 0, 0x3A);
    if 0 <= j < bs.len() {
        match ipv4_addr_bytes(bs.take(j)) {
            Some(ab) => if port_ok(bs.skip(j + 1)) {
                Some(
                    ab + seq![
                        (dec_seq_val(bs.skip(j + 1)) % 256) as u8,
                        (dec_seq_val(bs.skip(j + 1)) / 256) as u8,
                    ],
                )
            } else {
                None
            },
            None => None,
        }
    } else {
        None
    }
}

/// Reads four dot-separated byte literals.
fn parse_octets4(v: &Vec<u8>) -> (r: Option<Vec<u8>>)
    ensures
        match r {
            Some(o) => parse_octets(v@, 4) == Some(o@),
            None => parse_octets(v@, 4) is None,
        },
{
    let n = v.len();
    let mut out: Vec<u8> = Vec::new();
    let mut i: usize = 0;
    let mut remaining: usize = 4;
    proof {
        assert(v@.skip(0) =~= v@);
        if parse_octets(v@, 4) is Some {
            assert(Seq::<u8>::empty() + parse_octets(v@, 4)->Some_0 =~= parse_octets(
                v@,
                4,
            )->Some_0);
        }
    }
    loop
        invariant
            0 <= i <= n == v@.len(),
            1 <= remaining <= 4,
            match parse_octets(v@.skip(i as int), remaining as nat) {
                Some(rest) => parse_octets(v@, 4) == Some(out@ + rest),
                None => parse_octets(v@, 4) is None,
            },
        decreases remaining,
    {
        let ghost u = v@.skip(i as int);
        if remaining == 1 {
            proof {
                assert(u =~= v@.subrange(i as int, n as int));
            }
            match seg_value(v, i, n) {
                Some(b) => {
                    out.push(b);
                    proof {
                        assert(out@ =~= out@.subrange(0, out@.len() - 1) + seq![b]);
                    }
                    return Some(out);
                },
                None => {
                    return None;
                },
            }
        } else {
            proof {
                lemma_find_byte_shift(v@, i as int, 0, 0x2E);
            }
            match find_byte_exec(v, i, 0x2E) {
                None => {
                    return None;
                },
                Some(j) => {
                    proof {
                        assert(u.take(j - i) =~= v@.subrange(i as int, j as int));
                        assert(find_byte(u, 0, 0x2E) == j - i);
                    }
                    match seg_value(v, i, j) {
                        Some(b) => {
                            out.push(b);
                            proof {
                                assert(u.skip(j - i + 1) =~= v@.skip(j + 1));
                                match parse_octets(v@.skip(j + 1), (remaining - 1) as nat) {
                                    Some(r2) => {
                                        assert(out@.subrange(0, out@.len() - 1) + (seq![b] + r2)
                                            =~= (out@.subrange(0, out@.len() - 1) + seq![b]) + r2);
                                        assert(out@ =~= out@.subrange(0, out@.len() - 1) + seq![
                                            b,
                                        ]);
                                    },
                                    None => {},
                                }
                            }
                            i = j + 1;
                            remaining = remaining - 1;
                        },
                        None => {
                            return None;
                        },
                    }
                },
            }
        }
    }
}

/// Reads a port literal.
fn port_value(v: &Vec<u8>, from: usize) -> (r: Option<u16>)
    requires
        from <= v@.len(),
    ensures
        match r {
            Some(p) => port_ok(v@.skip(from as int)) && p == dec_seq_val(v@.skip(from as int)),
            None => !port_ok(v@.skip(from as int)),
        },
{
    let ghost t = v@.skip(from as int);
    let n = v.len();
    let k = n - from;
    if k < 1 || k > 5 {
        return None;
    }
    let mut value: u32 = 0;
    let mut i: usize = 0;
    proof {
        assert(t.take(0) =~= Seq::<u8>::empty());
        assert(pow_n(10, 5) == 100000) by {
            reveal_with_fuel(pow_n, 7);
        }
    }
    while i < k
        invariant
            0 <= i <= k <= 5,
            from + k == n == v@.len(),
            t == v@.skip(from as int),
            value == dec_seq_val(t.take(i as int)),
            value < pow_n(10, i as nat),
            forall|m: int| 0 <= m < i ==> 0x30 <= #[trigger] t[m] <= 0x39,
        decreases k - i,
    {
        proof {
            crate::radix::lemma_pow_n_le(10, i as nat, 4);
            assert(pow_n(10, 4) == 10000 && pow_n(10, 5) == 100000) by {
                reveal_with_fuel(pow_n, 7);
            }
            assert(pow_n(10, (i + 1) as nat) == 10 * pow_n(10, i as nat));
        }
        let c = v[from + i];
        proof {
            assert(t[i as int] == v@[from + i]);
        }
        if c < 0x30 || c > 0x39 {
            return None;
        }
        value = value * 10 + (c - 0x30) as u32;
        proof {
            assert(t.take(i + 1).drop_last() =~= t.take(i as int));
            assert(t.take(i + 1).last() == t[i as int]);
        }
        i = i + 1;
    }
    proof {
        assert(t.take(k as int) =~= t);
    }
    if value > 65535 {
        return None;
    }
    Some(value as u16)
}

impl ToIR for IpV4 {
    open spec fn identify_spec(s: Seq<char>) -> Option<Seq<Variant>> {
        let bs = encode_utf8(s);
        if ipv4_socket_bytes(bs) is Some {
            Some(seq![Variant::WithPort])
        } else if ipv4_addr_bytes(bs) is Some {
            Some(seq![Variant::WithoutPort])
        } else {
            None
        }
    }

    open spec fn decode_spec(s: Seq<char>, variant: Variant) -> Result<Seq<u8>, CodecError> {
        let bs = encode_utf8(s);
        match variant {
            Variant::WithPort => match ipv4_socket_bytes(bs) {
                Some(b) => Ok(b),
                None => Err(CodecError::Lex),
            },
            Variant::WithoutPort => match ipv4_addr_bytes(bs) {
                Some(b) => Ok(b),
                None => Err(CodecError::Lex),
            },
            _ => Err(CodecError::VariantMismatch),
        }
    }

    fn identify(value: &str) -> (r: Option<Vec<Variant>>) {
        let bytes = value.as_bytes_vec();
        match IpV4::socket_bytes(&bytes) {
            Some(_) => {
                let mut v: Vec<Variant> = Vec::new();
                v.push(Variant::WithPort);
                proof {
                    assert(v@ =~= seq![Variant::WithPort]);
                }
                Some(v)
            },
            None => {
                match IpV4::addr_bytes(&bytes) {
                    Some(_) => {
                        let mut v: Vec<Variant> = Vec::new();
                        v.push(Variant::WithoutPort);
                        proof {
                            assert(v@ =~= seq![Variant::WithoutPort]);
                        }
                        Some(v)
                    },
                    None => None,
                }
            },
        }
    }

    fn decode(value: &str, variant: Variant) -> (r: Result<Vec<u8>, CodecError>) {
        let bytes = value.as_bytes_vec();
        match variant {
            Variant::WithPort => match IpV4::socket_bytes(&bytes) {
                Some(b) => Ok(b),
                None => Err(CodecError::Lex),
            },
            Variant::WithoutPort => match IpV4::addr_bytes(&bytes) {
                Some(b) => Ok(b),
                None => Err(CodecError::Lex),
            },
            _ => Err(CodecError::VariantMismatch),
        }
    }
}

impl IpV4 {
    /// Reads a dotted-quad address as its intermediate bytes.
    pub fn addr_bytes(bytes: &Vec<u8>) -> (r: Option<Vec<u8>>)
        ensures
            match r {
                Some(b) => ipv4_addr_bytes(bytes@) == Some(b@),
                None => ipv4_addr_bytes(bytes@) is None,
            },
    {
        match parse_octets4(bytes) {
            Some(o) => {
                let mut out: Vec<u8> = Vec::new();
                proof {
                    assert(parse_octets(bytes@, 4)->Some_0.len() == 4) by {
                        lemma_parse_octets_len(bytes@, 4);
                    }
                }
                out.push(o[3]);
                out.push(o[2]);
                out.push(o[1]);
                out.push(o[0]);
                proof {
                    assert(out@ =~= seq![o@[3], o@[2], o@[1], o@[0]]);
                }
                Some(out)
            },
            None => None,
        }
    }

    /// Reads a dotted-quad address with a port as its intermediate bytes.
    pub fn socket_bytes(bytes: &Vec<u8>) -> (r: Option<Vec<u8>>)
        ensures
            match r {
                Some(b) => ipv4_socket_bytes(bytes@) == Some(b@),
                None => ipv4_socket_bytes(bytes@) is None,
            },
    {
        let nn = bytes.len();
        match find_byte_exec(bytes, 0, 0x3A) {
            None => None,
            Some(j) => {
                proof {
                    assert(j < nn);
                }
                let addr = crate::escape::bytes_range(bytes, 0, j);
                proof {
                    assert(addr@ =~= bytes@.take(j as int));
                }
                match IpV4::addr_bytes(&addr) {
                    Some(ab) => {
                        match port_value(bytes, j + 1) {
                            Some(p) => {
                                let mut out = ab;
                                out.push((p % 256) as u8);
                                out.push((p / 256) as u8);
                                proof {
                                    let ghost pb = ipv4_addr_bytes(bytes@.take(j as int))->Some_0;
                                    assert(out@ =~= pb + seq![
                                        (dec_seq_val(bytes@.skip(j + 1)) % 256) as u8,
                                        (dec_seq_val(bytes@.skip(j + 1)) / 256) as u8,
                                    ]);
                                }
                                Some(out)
                            },
                            None => None,
                        }
                    },
                    None => None,
                }
            },
        }
    }
}

/// A group of an IPv6 address: one to four hexadecimal digits.
pub open spec fn hex_group_ok(t: Seq<u8>) -> bool {
    1 <= t.len() <= 4 && forall|i: int| 0 <= i < t.len() ==> is_hex_digit(#[trigger] t[i])
}

/// The position of the first `::` at or after `i`, or -1 if there is
/// none.
pub open spec fn double_colon_idx(s: Seq<u8>, i: int) -> int
    decreases s.len() - i
        when 0 <= i <= s.len()
{
    if i + 1 >= s.len() {
        -1
    } else if s[i] == 0x3A && s[i + 1] == 0x3A {
        i
    } else {
        double_colon_idx(s, i + 1)
    }
}

/// The group values of a colon-separated group list, possibly ending in an
/// embedded dotted quad, which stands for two groups; the empty text is
/// the empty list.
pub open spec fn parse_groups(s: Seq<u8>) -> Option<Seq<u16>>
    decreases s.len(),
{
    if s.len() == 0 {
        Some(seq![])
    } else {
        let j = find_byte(s, 0, 0x3A);
        if 0 <= j < s.len() {
            if hex_group_ok(s.take(j)) {
                match parse_groups(s.skip(j + 1)) {
                    Some(r) => if r.len() >= 1 {
                        Some(seq![crate::escape::hex_seq_val(s.take(j)) as u16] + r)
                    } else {
                        None
                    },
                    None => None,
                }
            } else {
                None
            }
        } else {
            if find_byte(s, 0, 0x2E) >= 0 {
                match parse_octets(s, 4) {
                    Some(o) => Some(
                        seq![(o[0] * 256 + o[1]) as u16, (o[2] * 256 + o[3]) as u16],
                    ),
                    None => None,
                }
            } else if hex_group_ok(s) {
                Some(seq![crate::escape::hex_seq_val(s) as u16])
            } else {
                None
            }
        }
    }
}

/// The eight group values of an IPv6 address text: either eight groups
/// outright, or the two sides of one `::`, which stands for the elided
/// zero groups.
pub open spec fn ipv6_groups(bs: Seq<u8>) -> Option<Seq<u16>> {
    let d = double_colon_idx(bs, 0);
    if d == -1 {
        match parse_groups(bs) {
            Some(g) => if g.len() == 8 {
                Some(g)
            } else {
                None
            },
            None => None,
        }
    } else {
        match (parse_groups(bs.take(d)), parse_groups(bs.skip(d + 2))) {
            (Some(gl), Some(gr)) => if gl.len() + gr.len() <= 7 {
                Some(gl + Seq::new((8 - gl.len() - gr.len()) as nat, |i: int| 0u16) + gr)
            } else {
                None
            },
            _ => None,
        }
    }
}

/// The intermediate bytes of eight groups: the group bytes, least
/// significant group and byte first.
pub open spec fn groups_ir(gs: Seq<u16>) -> Seq<u8>
    recommends
        gs.len() == 8,
{
    Seq::new(
        16,
        |k: int|
            if k % 2 == 0 {
                (gs[7 - k / 2] % 256) as u8
            } else {
                (gs[7 - k / 2] / 256) as u8
            },
    )
}

/// The intermediate bytes of an IPv6 address text.
pub open spec fn ipv6_addr_ir(bs: Seq<u8>) -> Option<Seq<u8>> {
    match ipv6_groups(bs) {
        Some(gs) => Some(groups_ir(gs)),
        None => None,
    }
}

/// The intermediate bytes of a bracketed IPv6 address with a port.
pub open spec fn ipv6_socket_ir(bs: Seq<u8>) -> Option<Seq<u8>> {
    let j = find_byte(bs, 0, 0x5D);
    if bs.len() >= 1 && bs[0] == 0x5B && 0 <= j < bs.len() && j + 1 < bs.len() && bs[j + 1]
        == 0x3A && port_ok(bs.skip(j + 2)) {
        match ipv6_addr_ir(bs.subrange(1, j)) {
            Some(ab) => Some(
                ab + seq![
                    (dec_seq_val(bs.skip(j + 2)) % 256) as u8,
                    (dec_seq_val(bs.skip(j + 2)) / 256) as u8,
                ],
            ),
            None => None,
        }
    } else {
        None
    }
}

/// Reads one address group.
fn hex_group_val16(v: &Vec<u8>, from: usize, to: usize) -> (r: Option<u16>)
    requires
        from <= to <= v@.len(),
    ensures
        match r {
            Some(g) => hex_group_ok(v@.subrange(from as int, to as int)) && g
                == crate::escape::hex_seq_val(v@.subrange(from as int, to as int)),
            None => !hex_group_ok(v@.subrange(from as int, to as int)),
        },
{
    let ghost t = v@.subrange(from as int, to as int);
    let k = to - from;
    if k < 1 || k > 4 {
        return None;
    }
    let mut i: usize = 0;
    while i < k
        invariant
            0 <= i <= k,
            from + k == to <= v@.len(),
            t == v@.subrange(from as int, to as int),
            forall|m: int| 0 <= m < i ==> is_hex_digit(#[trigger] t[m]),
        decreases k - i,
    {
        let c = v[from + i];
        proof {
            assert(t[i as int] == v@[from + i]);
        }
        if !Base2_16::is_hex(c) {
            return None;
        }
        i = i + 1;
    }
    proof {
        crate::escape::lemma_hex_seq_val_bound(t);
        crate::radix::lemma_pow_n_le(16, t.len(), 4);
        assert(pow_n(16, 4) == 0x10000) by {
            reveal_with_fuel(pow_n, 6);
        }
        assert(forall|m: int| from <= m < from + k ==> is_hex_digit(v@[m])) by {
            assert forall|m: int| from <= m < from + k implies is_hex_digit(v@[m]) by {
                assert(t[m - from] == v@[m]);
            }
        }
    }
    let value = crate::escape::hex_range_value(v, from, k);
    proof {
        assert(v@.subrange(from as int, from + k) == t);
    }
    Some(value as u16)
}

/// Reads a colon-separated group list, possibly ending in an embedded
/// dotted quad.
fn parse_groups_exec(v: &Vec<u8>) -> (r: Option<Vec<u16>>)
    ensures
        match r {
            Some(out) => parse_groups(v@) == Some(out@),
            None => parse_groups(v@) is None,
        },
{
    let n = v.len();
    let mut out: Vec<u16> = Vec::new();
    let mut i: usize = 0;
    proof {
        assert(v@.skip(0) =~= v@);
        if parse_groups(v@) is Some {
            assert(Seq::<u16>::empty() + parse_groups(v@)->Some_0 =~= parse_groups(v@)->Some_0);
        }
    }
    loop
        invariant
            0 <= i <= n == v@.len(),
            out@.len() == 0 <==> i == 0,
            match parse_groups(v@.skip(i as int)) {
                Some(r) => if i == 0 || r.len() >= 1 {
                    parse_groups(v@) == Some(out@ + r)
                } else {
                    parse_groups(v@) is None
                },
                None => parse_groups(v@) is None,
            },
        decreases n - i,
    {
        let ghost u = v@.skip(i as int);
        if i >= n {
            proof {
                assert(u =~= Seq::<u8>::empty());
                assert(out@ + Seq::<u16>::empty() =~= out@);
            }
            if i == 0 {
                return Some(out);
            }
            return None;
        }
        proof {
            lemma_find_byte_shift(v@, i as int, 0, 0x3A);
            lemma_find_byte_shift(v@, i as int, 0, 0x2E);
        }
        match find_byte_exec(v, i, 0x3A) {
            Some(j) => {
                proof {
                    assert(u.take(j - i) =~= v@.subrange(i as int, j as int));
                    assert(find_byte(u, 0, 0x3A) == j - i);
                }
                match hex_group_val16(v, i, j) {
                    Some(g) => {
                        out.push(g);
                        proof {
                            assert(u.skip(j - i + 1) =~= v@.skip(j + 1));
                            match parse_groups(v@.skip(j + 1)) {
                                Some(r2) => {
                                    assert(out@.subrange(0, out@.len() - 1) + (seq![g] + r2) =~= (
                                    out@.subrange(0, out@.len() - 1) + seq![g]) + r2);
                                    assert(out@ =~= out@.subrange(0, out@.len() - 1) + seq![g]);
                                },
                                None => {},
                            }
                        }
                        i = j + 1;
                    },
                    None => {
                        return None;
                    },
                }
            },
            None => {
                proof {
                    assert(find_byte(u, 0, 0x3A) == -1);
                    assert(u =~= v@.subrange(i as int, n as int));
                }
                match find_byte_exec(v, i, 0x2E) {
                    Some(_) => {
                        let tail = crate::escape::bytes_range(v, i, n);
                        proof {
                            assert(tail@ =~= u);
                        }
                        match parse_octets4(&tail) {
                            Some(o) => {
                                proof {
                                    lemma_parse_octets_len(tail@, 4);
                                }
                                let g1: u16 = o[0] as u16 * 256 + o[1] as u16;
                                let g2: u16 = o[2] as u16 * 256 + o[3] as u16;
                                out.push(g1);
                                out.push(g2);
                                proof {
                                    assert(out@ =~= out@.subrange(0, out@.len() - 2) + seq![
                                        g1,
                                        g2,
                                    ]);
                                }
                                return Some(out);
                            },
                            None => {
                                return None;
                            },
                        }
                    },
                    None => {
                        match hex_group_val16(v, i, n) {
                            Some(g) => {
                                out.push(g);
                                proof {
                                    assert(out@ =~= out@.subrange(0, out@.len() - 1) + seq![g]);
                                }
                                return Some(out);
                            },
                            None => {
                                return None;
                            },
                        }
                    },
                }
            },
        }
    }
}

/// Finds the first `::`.
fn find_double_colon(v: &Vec<u8>) -> (r: Option<usize>)
    ensures
        match r {
            Some(d) => d + 1 < v@.len() && d == double_colon_idx(v@, 0),
            None => double_colon_idx(v@, 0) == -1,
        },
{
    let n = v.len();
    if n < 2 {
        return None;
    }
    let mut i: usize = 0;
    while i + 1 < n
        invariant
            0 <= i,
            i + 1 <= n == v@.len(),
            double_colon_idx(v@, 0) == double_colon_idx(v@, i as int),
        decreases n - i,
    {
        if v[i] == 0x3A && v[i + 1] == 0x3A {
            return Some(i);
        }
        i = i + 1;
    }
    None
}

impl crate::common::IpV6 {
    /// Reads an IPv6 address text as its eight groups.
    pub fn groups(bytes: &Vec<u8>) -> (r: Option<Vec<u16>>)
        ensures
            match r {
                Some(g) => ipv6_groups(bytes@) == Some(g@) && g@.len() == 8,
                None => ipv6_groups(bytes@) is None,
            },
    {
        match find_double_colon(bytes) {
            None => {
                match parse_groups_exec(bytes) {
                    Some(g) => {
                        if g.len() == 8 {
                            Some(g)
                        } else {
                            None
                        }
                    },
                    None => None,
                }
            },
            Some(d) => {
                let n = bytes.len();
                let left = crate::escape::bytes_range(bytes, 0, d);
                let right = crate::escape::bytes_range(bytes, d + 2, n);
                proof {
                    assert(left@ =~= bytes@.take(d as int));
                    assert(right@ =~= bytes@.skip(d + 2));
                }
                match (parse_groups_exec(&left), parse_groups_exec(&right)) {
                    (Some(gl), Some(gr)) => {
                        if gl.len() <= 7 && gr.len() <= 7 - gl.len() {
                            let zeros = 8 - gl.len() - gr.len();
                            let mut g = gl;
                            let ghost gl_view = g@;
                            let mut z: usize = 0;
                            while z < zeros
                                invariant
                                    0 <= z <= zeros,
                                    g@.len() == gl_view.len() + z,
                                    g@ == gl_view + Seq::new(z as nat, |i: int| 0u16),
                                decreases zeros - z,
                            {
                                g.push(0);
                                proof {
                                    assert(g@ =~= gl_view + Seq::new((z + 1) as nat, |i: int| 0u16));
                                }
                                z = z + 1;
                            }
                            let mut t: usize = 0;
                            let ghost mid_view = g@;
                            while t < gr.len()
                                invariant
                                    0 <= t <= gr@.len(),
                                    g@ == mid_view + gr@.take(t as int),
                                decreases gr@.len() - t,
                            {
                                g.push(gr[t]);
                                proof {
                                    assert(gr@.take(t + 1) =~= gr@.take(t as int).push(
                                        gr@[t as int],
                                    ));
                                    assert(g@ =~= mid_view + gr@.take(t + 1));
                                }
                                t = t + 1;
                            }
                            proof {
                                assert(gr@.take(gr@.len() as int) =~= gr@);
                                assert(g@ =~= (gl_view + Seq::new(
                                    (8 - gl_view.len() - gr@.len()) as nat,
                                    |i: int| 0u16,
                                )) + gr@);
                            }
                            Some(g)
                        } else {
                            None
                        }
                    },
                    _ => None,
                }
            },
        }
    }

    /// Reads an IPv6 address text as its intermediate bytes.
    pub fn addr_bytes(bytes: &Vec<u8>) -> (r: Option<Vec<u8>>)
        ensures
            match r {
                Some(b) => ipv6_addr_ir(bytes@) == Some(b@),
                None => ipv6_addr_ir(bytes@) is None,
            },
    {
        match Self::groups(bytes) {
            Some(g) => {
                let mut out: Vec<u8> = Vec::new();
                let mut k: usize = 0;
                while k < 16
                    invariant
                        0 <= k <= 16,
                        g@.len() == 8,
                        out@.len() == k,
                        forall|m: int| 0 <= m < k ==> out@[m] == groups_ir(g@)[m],
                    decreases 16 - k,
                {
                    let gi = 7 - k / 2;
                    let b: u8 = if k % 2 == 0 {
                        (g[gi] % 256) as u8
                    } else {
                        (g[gi] / 256) as u8
                    };
                    out.push(b);
                    k = k + 1;
                }
                proof {
                    assert(out@ =~= groups_ir(g@));
                }
                Some(out)
            },
            None => None,
        }
    }

    /// Reads a bracketed IPv6 address with a port as its intermediate
    /// bytes.
    pub fn socket_bytes(bytes: &Vec<u8>) -> (r: Option<Vec<u8>>)
        ensures
            match r {
                Some(b) => ipv6_socket_ir(bytes@) == Some(b@),
                None => ipv6_socket_ir(bytes@) is None,
            },
    {
        let n = bytes.len();
        if n < 1 || bytes[0] != 0x5B {
            return None;
        }
        match find_byte_exec(bytes, 0, 0x5D) {
            None => None,
            Some(j) => {
                if j + 1 >= n || bytes[j + 1] != 0x3A {
                    return None;
                }
                proof {
                    lemma_find_byte(bytes@, 0, 0x5D);
                    assert(bytes@[j as int] == 0x5D);
                    assert(j >= 1);
                }
                match port_value(bytes, j + 2) {
                    None => None,
                    Some(p) => {
                        let addr = crate::escape::bytes_range(bytes, 1, j);
                        proof {
                            assert(addr@ =~= bytes@.subrange(1, j as int));
                        }
                        match Self::addr_bytes(&addr) {
                            Some(ab) => {
                                let mut out = ab;
                                out.push((p % 256) as u8);
                                out.push((p / 256) as u8);
                                proof {
                                    let ghost pb = ipv6_addr_ir(
                                        bytes@.subrange(1, j as int),
                                    )->Some_0;
                                    assert(out@ =~= pb + seq![
                                        (dec_seq_val(bytes@.skip(j + 2)) % 256) as u8,
                                        (dec_seq_val(bytes@.skip(j + 2)) / 256) as u8,
                                    ]);
                                }
                                Some(out)
                            },
                            None => None,
                        }
                    },
                }
            },
        }
    }
}

impl ToIR for crate::common::IpV6 {
    open spec fn identify_spec(s: Seq<char>) -> Option<Seq<Variant>> {
        let bs = encode_utf8(s);
        if ipv6_socket_ir(bs) is Some {
            Some(seq![Variant::WithPort])
        } else if ipv6_addr_ir(bs) is Some {
            Some(seq![Variant::WithoutPort])
        } else {
            None
        }
    }

    open spec fn decode_spec(s: Seq<char>, variant: Variant) -> Result<Seq<u8>, CodecError> {
        let bs = encode_utf8(s);
        match variant {
            Variant::WithPort => match ipv6_socket_ir(bs) {
                Some(b) => Ok(b),
                None => Err(CodecError::Lex),
            },
            Variant::WithoutPort => match ipv6_addr_ir(bs) {
                Some(b) => Ok(b),
                None => Err(CodecError::Lex),
            },
            _ => Err(CodecError::VariantMismatch),
        }
    }

    fn identify(value: &str) -> (r: Option<Vec<Variant>>) {
        let bytes = value.as_bytes_vec();
        match crate::common::IpV6::socket_bytes(&bytes) {
            Some(_) => {
                let mut v: Vec<Variant> = Vec::new();
                v.push(Variant::WithPort);
                proof {
                    assert(v@ =~= seq![Variant::WithPort]);
                }
                Some(v)
            },
            None => {
                match crate::common::IpV6::addr_bytes(&bytes) {
                    Some(_) => {
                        let mut v: Vec<Variant> = Vec::new();
                        v.push(Variant::WithoutPort);
                        proof {
                            assert(v@ =~= seq![Variant::WithoutPort]);
                        }
                        Some(v)
                    },
                    None => None,
                }
            },
        }
    }

    fn decode(value: &str, variant: Variant) -> (r: Result<Vec<u8>, CodecError>) {
        let bytes = value.as_bytes_vec();
        match variant {
            Variant::WithPort => match crate::common::IpV6::socket_bytes(&bytes) {
                Some(b) => Ok(b),
                None => Err(CodecError::Lex),
            },
            Variant::WithoutPort => match crate::common::IpV6::addr_bytes(&bytes) {
                Some(b) => Ok(b),
                None => Err(CodecError::Lex),
            },
            _ => Err(CodecError::VariantMismatch),
        }
    }
}

/// A parsed octet list has as many entries as were asked for.
pub proof fn lemma_parse_octets_len(s: Seq<u8>, count: nat)
    requires
        count >= 1,
        parse_octets(s, count) is Some,
    ensures
        parse_octets(s, count)->Some_0.len() == count,
    decreases count,
{
    if count > 1 {
        let j = find_byte(s, 0, 0x2E);
        lemma_parse_octets_len(s.skip(j + 1), (count - 1) as nat);
    }
}

impl ToIR for Colour {
    open spec fn identify_spec(s: Seq<char>) -> Option<Seq<Variant>> {
        let bs = encode_utf8(s);
        if bs.len() == 7 && bs[0] == 0x23 && b2_16_identify_spec(bs.skip(1)) is Some {
            Some(seq![Variant::Plain])
        } else {
            None
        }
    }

    open spec fn decode_spec(s: Seq<char>, variant: Variant) -> Result<Seq<u8>, CodecError> {
        let bs = encode_utf8(s);
        if variant == Variant::Plain {
            if bs.len() >= 1 {
                b2_16_decode_spec(bs.skip(1), Variant::Base(16))
            } else {
                Err(CodecError::Lex)
            }
        } else {
            Err(CodecError::VariantMismatch)
        }
    }

    fn identify(value: &str) -> (r: Option<Vec<Variant>>) {
        let bytes = value.as_bytes_vec();
        if bytes.len() == 7 && bytes[0] == 0x23 {
            let rest = crate::escape::bytes_range(&bytes, 1, 7);
            proof {
                assert(rest@ =~= bytes@.skip(1));
            }
            if Base2_16::identify_bytes(&rest).is_some() {
                let mut v: Vec<Variant> = Vec::new();
                v.push(Variant::Plain);
                proof {
                    assert(v@ =~= seq![Variant::Plain]);
                }
                return Some(v);
            }
        }
        None
    }

    fn decode(value: &str, variant: Variant) -> (r: Result<Vec<u8>, CodecError>) {
        match variant {
            Variant::Plain => {
                let bytes = value.as_bytes_vec();
                let n = bytes.len();
                if n == 0 {
                    return Err(CodecError::Lex);
                }
                let rest = crate::escape::bytes_range(&bytes, 1, n);
                proof {
                    assert(rest@ =~= bytes@.skip(1));
                }
                Base2_16::decode_bytes(&rest, Variant::Base(16))
            },
            _ => Err(CodecError::VariantMismatch),
        }
    }
}

} // verus!
