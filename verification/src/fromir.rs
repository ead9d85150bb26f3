//! Encoding the intermediate byte form back into textual renderings: each
//! codec answers which variants can render a byte buffer, renders it under a
//! chosen variant, and declares whether its rendering is byte-order
//! sensitive.

use vstd::prelude::*;
use vstd::string::{StringSliceAdditionalSpecFns, StrSliceExecFns, StringExecFns};
use vstd::utf8::{encode_utf8, decode_utf8, valid_utf8, encode_scalar};
use crate::common::{
    Variant, CodecError, B64Flavor, TimeFormat, Base2_16, DateTime, FixedFloat, FixedInt,
    Unicode8, Base64, Base85, Base91, ByteList, UUID, EscapedString, UrlEncode, UrlDecode,
    Colour, dec_chars, mes_text, float_sign, float_mantissa, float_exponent, float_mantissa_bits,
    scale_spec,
};
use crate::radix::{val, pow_n, canonical_digits, magnitude_text};
use crate::ext::bytes_as_chars;

verus! {

/// Whether a codec's rendering depends on byte order: a `Dual` codec is
/// also shown over the byte-reversed buffer as the other-endian reading.
#[derive(Clone, Copy, Debug, PartialEq, Eq, Structural)]
pub enum Endianness {
    Default,
    Dual,
}

/// Encoding: from the intermediate byte form to text.  `variants` answers
/// which variants of this codec can render the buffer; `encode` renders it
/// under one of them.  A variant that `variants` would not produce for the
/// buffer encodes to an error, never to a made-up rendering.
pub trait FromIR {
    /// The variants under which the buffer can be rendered, if any.
    spec fn variants_spec(ir: Seq<u8>) -> Option<Seq<Variant>>;

    /// What rendering the buffer under the variant yields.
    spec fn encode_spec(ir: Seq<u8>, variant: Variant) -> Result<Seq<char>, CodecError>;

    /// Whether this codec's rendering is byte-order sensitive.
    spec fn endianness_spec() -> Endianness;

    /// The variants under which this codec can render the buffer.
    fn variants(ir: &[u8]) -> (r: Option<Vec<Variant>>)
        ensures
            r is Some <==> Self::variants_spec(ir@) is Some,
            r matches Some(v) ==> Self::variants_spec(ir@) == Some(v@),
    ;

    /// Renders the buffer under the chosen variant.
    fn encode(ir: &[u8], variant: Variant) -> (r: Result<String, CodecError>)
        ensures
            match Self::encode_spec(ir@, variant) {
                Ok(t) => r matches Ok(s) && s@ == t,
                Err(e) => r matches Err(e2) && e2 == e,
            },
    ;

    /// Whether this codec's rendering is byte-order sensitive.
    fn endianness() -> (e: Endianness)
        ensures
            e == Self::endianness_spec(),
    ;
}

/// Renders a magnitude as text in a base, through the conversion engine.
fn magnitude_string(ir: &[u8], radix: u8) -> (r: String)
    requires
        2 <= radix <= 16,
    ensures
        r@ == bytes_as_chars(canonical_digits(val(ir@, 256), radix as nat)),
{
    let bytes: Vec<u8> = vstd::slice::slice_to_vec(ir);
    proof {
        crate::radix::lemma_canonical_digits_ascii(val(ir@, 256), radix as nat);
    }
    crate::ext::ascii_string(magnitude_text(&bytes, radix))
}

impl FromIR for Base2_16 {
    open spec fn variants_spec(ir: Seq<u8>) -> Option<Seq<Variant>> {
        Some(
            seq![
                Variant::Base(2),
                Variant::Base(8),
                Variant::Base(10),
                Variant::Base(16),
            ],
        )
    }

    open spec fn encode_spec(ir: Seq<u8>, variant: Variant) -> Result<Seq<char>, CodecError> {
        match variant {
            Variant::Base(b) => if 2 <= b <= 16 {
                Ok(bytes_as_chars(canonical_digits(val(ir, 256), b as nat)))
            } else {
                Err(CodecError::VariantMismatch)
            },
            _ => Err(CodecError::VariantMismatch),
        }
    }

    open spec fn endianness_spec() -> Endianness {
        Endianness::Default
    }

    fn variants(ir: &[u8]) -> (r: Option<Vec<Variant>>) {
        let mut v: Vec<Variant> = Vec::new();
        v.push(Variant::Base(2));
        v.push(Variant::Base(8));
        v.push(Variant::Base(10));
        v.push(Variant::Base(16));
        proof {
            assert(v@ =~= Self::variants_spec(ir@)->Some_0);
        }
        Some(v)
    }

    fn encode(ir: &[u8], variant: Variant) -> (r: Result<String, CodecError>) {
        match variant {
            Variant::Base(b) => {
                if 2 <= b && b <= 16 {
                    Ok(magnitude_string(ir, b))
                } else {
                    Err(CodecError::VariantMismatch)
                }
            },
            _ => Err(CodecError::VariantMismatch),
        }
    }

    fn endianness() -> (e: Endianness) {
        Endianness::Default
    }
}

impl FromIR for FixedFloat {
    open spec fn variants_spec(ir: Seq<u8>) -> Option<Seq<Variant>> {
        if ir.len() == 2 || ir.len() == 4 || ir.len() == 8 {
            Some(seq![Variant::FloatParts(ir.len() as u8)])
        } else {
            None
        }
    }

    open spec fn encode_spec(ir: Seq<u8>, variant: Variant) -> Result<Seq<char>, CodecError> {
        match variant {
            Variant::FloatParts(w) => if ir.len() == w && (w == 2 || w == 4 || w == 8) {
                Ok(
                    mes_text(
                        (
                            float_sign(val(ir, 256), 8 * ir.len()) as i8,
                            float_mantissa(val(ir, 256), float_mantissa_bits(ir.len() as int)) as u64,
                            float_exponent(
                                val(ir, 256),
                                8 * ir.len(),
                                float_mantissa_bits(ir.len() as int),
                            ) as i16,
                        ),
                    ),
                )
            } else {
                Err(CodecError::VariantMismatch)
            },
            _ => Err(CodecError::VariantMismatch),
        }
    }

    open spec fn endianness_spec() -> Endianness {
        Endianness::Dual
    }

    fn variants(ir: &[u8]) -> (r: Option<Vec<Variant>>) {
        let n = ir.len();
        if n == 2 || n == 4 || n == 8 {
            let mut v: Vec<Variant> = Vec::new();
            v.push(Variant::FloatParts(n as u8));
            proof {
                assert(v@ =~= Self::variants_spec(ir@)->Some_0);
            }
            Some(v)
        } else {
            None
        }
    }

    fn encode(ir: &[u8], variant: Variant) -> (r: Result<String, CodecError>) {
        match variant {
            Variant::FloatParts(w) => {
                let n = ir.len();
                if n == w as usize && (w == 2 || w == 4 || w == 8) {
                    Ok(FixedFloat::to_mes_string(ir))
                } else {
                    Err(CodecError::VariantMismatch)
                }
            },
            _ => Err(CodecError::VariantMismatch),
        }
    }

    fn endianness() -> (e: Endianness) {
        Endianness::Dual
    }
}

/// The integer variant pairs offered for a buffer of a given length.
pub open spec fn int_pairs(n: nat) -> Option<Seq<Variant>> {
    if n == 1 || n == 2 || n == 4 || n == 8 || n == 16 {
        Some(
            seq![
                Variant::Int { signed: false, bytes: n as u8 },
                Variant::Int { signed: true, bytes: n as u8 },
            ],
        )
    } else {
        None
    }
}

impl FromIR for FixedInt {
    open spec fn variants_spec(ir: Seq<u8>) -> Option<Seq<Variant>> {
        int_pairs(ir.len())
    }

    open spec fn encode_spec(ir: Seq<u8>, variant: Variant) -> Result<Seq<char>, CodecError> {
        match variant {
            Variant::Int { signed, bytes: w } => if ir.len() == w && w >= 1 {
                if !signed || ir[ir.len() - 1] < 128 {
                    Ok(bytes_as_chars(canonical_digits(val(ir, 256), 10)))
                } else {
                    Ok(
                        seq!['-'] + bytes_as_chars(
                            canonical_digits((pow_n(256, ir.len()) - val(ir, 256)) as nat, 10),
                        ),
                    )
                }
            } else {
                Err(CodecError::VariantMismatch)
            },
            _ => Err(CodecError::VariantMismatch),
        }
    }

    open spec fn endianness_spec() -> Endianness {
        Endianness::Dual
    }

    fn variants(ir: &[u8]) -> (r: Option<Vec<Variant>>) {
        let n = ir.len();
        if n == 1 || n == 2 || n == 4 || n == 8 || n == 16 {
            let mut v: Vec<Variant> = Vec::new();
            v.push(Variant::Int { signed: false, bytes: n as u8 });
            v.push(Variant::Int { signed: true, bytes: n as u8 });
            proof {
                assert(v@ =~= Self::variants_spec(ir@)->Some_0);
            }
            Some(v)
        } else {
            None
        }
    }

    fn encode(ir: &[u8], variant: Variant) -> (r: Result<String, CodecError>) {
        let (signed, w): (bool, u8) = match variant {
            Variant::Int { signed, bytes } => (signed, bytes),
            _ => {
                return Err(CodecError::VariantMismatch);
            },
        };
        let n = ir.len();
        if n != w as usize || w < 1 {
            return Err(CodecError::VariantMismatch);
        }
        if !signed || ir[n - 1] < 128 {
            return Ok(magnitude_string(ir, 10));
        }
        // negative: render the two's complement magnitude behind a sign
        let bytes: Vec<u8> = vstd::slice::slice_to_vec(ir);
        proof {
            crate::radix::lemma_val_bound(ir@, 256);
        }
        let mag = crate::radix::twos_complement(&bytes, n);
        let ghost m = (pow_n(256, ir@.len()) - val(ir@, 256)) as nat;
        proof {
            assert(val(ir@, 256) > 0) by {
                if val(ir@, 256) == 0 {
                    crate::radix::lemma_val_zero(ir@, 256);
                }
            }
            crate::radix::lemma_canonical_digits_ascii(m, 10);
        }
        let text = crate::ext::ascii_string(magnitude_text(&mag, 10));
        let mut s = String::new();
        s.append("-");
        s.append(text.as_str());
        proof {
            assert("-"@ =~= seq!['-']) by {
                reveal_strlit("-");
            }
            assert(s@ =~= seq!['-'] + bytes_as_chars(canonical_digits(m, 10)));
        }
        Ok(s)
    }

    fn endianness() -> (e: Endianness) {
        Endianness::Dual
    }
}

impl FromIR for DateTime {
    open spec fn variants_spec(ir: Seq<u8>) -> Option<Seq<Variant>> {
        if ir.len() == 4 {
            Some(
                seq![
                    Variant::Time { bytes: 4u8, format: TimeFormat::Rfc2822 },
                    Variant::Time { bytes: 4u8, format: TimeFormat::Rfc3339 },
                ],
            )
        } else if ir.len() == 8 && crate::ext::chrono_in_range(le_signed(ir)) {
            Some(
                seq![
                    Variant::Time { bytes: 8u8, format: TimeFormat::Rfc2822 },
                    Variant::Time { bytes: 8u8, format: TimeFormat::Rfc3339 },
                ],
            )
        } else {
            None
        }
    }

    open spec fn encode_spec(ir: Seq<u8>, variant: Variant) -> Result<Seq<char>, CodecError> {
        match variant {
            Variant::Time { bytes: w, format: f } => if ir.len() == w && (w == 4 || w == 8) {
                let ts = le_signed(ir);
                if f == TimeFormat::Rfc2822 {
                    if crate::ext::chrono_rfc2822_ok(ts) {
                        Ok(crate::ext::rfc2822_text_of(ts))
                    } else {
                        Err(CodecError::Lex)
                    }
                } else {
                    if crate::ext::chrono_in_range(ts) {
                        Ok(crate::ext::rfc3339_text_of(ts))
                    } else {
                        Err(CodecError::Lex)
                    }
                }
            } else {
                Err(CodecError::VariantMismatch)
            },
            _ => Err(CodecError::VariantMismatch),
        }
    }

    open spec fn endianness_spec() -> Endianness {
        Endianness::Dual
    }

    fn variants(ir: &[u8]) -> (r: Option<Vec<Variant>>) {
        let n = ir.len();
        if n == 4 {
            let mut v: Vec<Variant> = Vec::new();
            v.push(Variant::Time { bytes: 4, format: TimeFormat::Rfc2822 });
            v.push(Variant::Time { bytes: 4, format: TimeFormat::Rfc3339 });
            proof {
                assert(v@ =~= Self::variants_spec(ir@)->Some_0);
            }
            Some(v)
        } else if n == 8 {
            let ts = le_signed_exec(ir);
            if crate::ext::ts_in_range(ts) {
                let mut v: Vec<Variant> = Vec::new();
                v.push(Variant::Time { bytes: 8, format: TimeFormat::Rfc2822 });
                v.push(Variant::Time { bytes: 8, format: TimeFormat::Rfc3339 });
                proof {
                    assert(v@ =~= Self::variants_spec(ir@)->Some_0);
                }
                Some(v)
            } else {
                None
            }
        } else {
            None
        }
    }

    fn encode(ir: &[u8], variant: Variant) -> (r: Result<String, CodecError>) {
        let (w, f): (u8, TimeFormat) = match variant {
            Variant::Time { bytes: w, format: f } => (w, f),
            _ => {
                return Err(CodecError::VariantMismatch);
            },
        };
        let n = ir.len();
        if n != w as usize || !(w == 4 || w == 8) {
            return Err(CodecError::VariantMismatch);
        }
        let ts = le_signed_exec(ir);
        match f {
            TimeFormat::Rfc2822 => {
                if crate::ext::rfc2822_ok(ts) {
                    Ok(crate::ext::fmt_rfc2822(ts))
                } else {
                    Err(CodecError::Lex)
                }
            },
            TimeFormat::Rfc3339 => {
                if crate::ext::ts_in_range(ts) {
                    Ok(crate::ext::fmt_rfc3339(ts))
                } else {
                    Err(CodecError::Lex)
                }
            },
        }
    }

    fn endianness() -> (e: Endianness) {
        Endianness::Dual
    }
}

/// The signed value a little-endian buffer of at most eight bytes denotes,
/// in two's complement at its own width.
pub open spec fn le_signed(ir: Seq<u8>) -> i64 {
    if val(ir, 256) >= pow_n(256, ir.len()) / 2 {
        (val(ir, 256) - pow_n(256, ir.len())) as i64
    } else {
        val(ir, 256) as i64
    }
}

/// Reads a little-endian buffer of four or eight bytes as a signed value.
fn le_signed_exec(ir: &[u8]) -> (r: i64)
    requires
        ir@.len() == 4 || ir@.len() == 8,
    ensures
        r == le_signed(ir@),
{
    let n = ir.len();
    let bytes: Vec<u8> = vstd::slice::slice_to_vec(ir);
    let u = crate::radix::le_val_u128(&bytes);
    proof {
        crate::radix::lemma_val_bound(ir@, 256);
        assert(pow_n(256, 4) == 0x100000000 && pow_n(256, 8) == 0x10000000000000000) by {
            reveal_with_fuel(pow_n, 10);
        }
    }
    if n == 4 {
        if u >= 0x80000000 {
            (u as i64) - 0x100000000
        } else {
            u as i64
        }
    } else {
        if u >= 0x8000000000000000 {
            if u == 0x8000000000000000 {
                i64::MIN
            } else {
                let m: u128 = 0x10000000000000000 - u;
                -(m as i64)
            }
        } else {
            u as i64
        }
    }
}

impl FromIR for Base64 {
    open spec fn variants_spec(ir: Seq<u8>) -> Option<Seq<Variant>> {
        Some(
            seq![
                Variant::B64(B64Flavor::Bcrypt),
                Variant::B64(B64Flavor::BinHex),
                Variant::B64(B64Flavor::Crypt),
                Variant::B64(B64Flavor::ImapMutf7),
                Variant::B64(B64Flavor::Standard),
                Variant::B64(B64Flavor::StandardNoPad),
                Variant::B64(B64Flavor::UrlSafe),
                Variant::B64(B64Flavor::UrlSafeNoPad),
            ],
        )
    }

    open spec fn encode_spec(ir: Seq<u8>, variant: Variant) -> Result<Seq<char>, CodecError> {
        match variant {
            Variant::B64(f) => Ok(crate::ext::b64_text_of(f, ir)),
            _ => Err(CodecError::VariantMismatch),
        }
    }

    open spec fn endianness_spec() -> Endianness {
        Endianness::Default
    }

    fn variants(ir: &[u8]) -> (r: Option<Vec<Variant>>) {
        let mut v: Vec<Variant> = Vec::new();
        v.push(Variant::B64(B64Flavor::Bcrypt));
        v.push(Variant::B64(B64Flavor::BinHex));
        v.push(Variant::B64(B64Flavor::Crypt));
        v.push(Variant::B64(B64Flavor::ImapMutf7));
        v.push(Variant::B64(B64Flavor::Standard));
        v.push(Variant::B64(B64Flavor::StandardNoPad));
        v.push(Variant::B64(B64Flavor::UrlSafe));
        v.push(Variant::B64(B64Flavor::UrlSafeNoPad));
        proof {
            assert(v@ =~= Self::variants_spec(ir@)->Some_0);
        }
        Some(v)
    }

    fn encode(ir: &[u8], variant: Variant) -> (r: Result<String, CodecError>) {
        match variant {
            Variant::B64(f) => Ok(crate::ext::b64_encode(ir, f)),
            _ => Err(CodecError::VariantMismatch),
        }
    }

    fn endianness() -> (e: Endianness) {
        Endianness::Default
    }
}

impl FromIR for Base85 {
    open spec fn variants_spec(ir: Seq<u8>) -> Option<Seq<Variant>> {
        Some(seq![Variant::Z85Data, Variant::Ascii85Data])
    }

    open spec fn encode_spec(ir: Seq<u8>, variant: Variant) -> Result<Seq<char>, CodecError> {
        match variant {
            Variant::Z85Data => Ok(crate::ext::z85_text_of(ir)),
            Variant::Ascii85Data => Ok(crate::ext::ascii85_text_of(ir)),
            _ => Err(CodecError::VariantMismatch),
        }
    }

    open spec fn endianness_spec() -> Endianness {
        Endianness::Default
    }

    fn variants(ir: &[u8]) -> (r: Option<Vec<Variant>>) {
        let mut v: Vec<Variant> = Vec::new();
        v.push(Variant::Z85Data);
        v.push(Variant::Ascii85Data);
        proof {
            assert(v@ =~= Self::variants_spec(ir@)->Some_0);
        }
        Some(v)
    }

    fn encode(ir: &[u8], variant: Variant) -> (r: Result<String, CodecError>) {
        match variant {
            Variant::Z85Data => Ok(crate::ext::z85_encode(ir)),
            Variant::Ascii85Data => Ok(crate::ext::ascii85_encode(ir)),
            _ => Err(CodecError::VariantMismatch),
        }
    }

    fn endianness() -> (e: Endianness) {
        Endianness::Default
    }
}

impl FromIR for Base91 {
    open spec fn variants_spec(ir: Seq<u8>) -> Option<Seq<Variant>> {
        Some(seq![Variant::Plain])
    }

    open spec fn encode_spec(ir: Seq<u8>, variant: Variant) -> Result<Seq<char>, CodecError> {
        if variant == Variant::Plain {
            Ok(bytes_as_chars(crate::ext::b91_text_of(ir)))
        } else {
            Err(CodecError::VariantMismatch)
        }
    }

    open spec fn endianness_spec() -> Endianness {
        Endianness::Default
    }

    fn variants(ir: &[u8]) -> (r: Option<Vec<Variant>>) {
        let mut v: Vec<Variant> = Vec::new();
        v.push(Variant::Plain);
        proof {
            assert(v@ =~= Self::variants_spec(ir@)->Some_0);
        }
        Some(v)
    }

    fn encode(ir: &[u8], variant: Variant) -> (r: Result<String, CodecError>) {
        match variant {
            Variant::Plain => {
                let bytes = crate::ext::b91_encode(ir);
                Ok(crate::ext::ascii_string(bytes))
            },
            _ => Err(CodecError::VariantMismatch),
        }
    }

    fn endianness() -> (e: Endianness) {
        Endianness::Default
    }
}

impl FromIR for UUID {
    open spec fn variants_spec(ir: Seq<u8>) -> Option<Seq<Variant>> {
        if ir.len() == 16 {
            Some(seq![Variant::Plain])
        } else {
            None
        }
    }

    open spec fn encode_spec(ir: Seq<u8>, variant: Variant) -> Result<Seq<char>, CodecError> {
        if variant == Variant::Plain {
            if ir.len() == 16 {
                Ok(crate::ext::uuid_text(ir))
            } else {
                Err(CodecError::Lex)
            }
        } else {
            Err(CodecError::VariantMismatch)
        }
    }

    open spec fn endianness_spec() -> Endianness {
        Endianness::Default
    }

    fn variants(ir: &[u8]) -> (r: Option<Vec<Variant>>) {
        if ir.len() == 16 {
            let mut v: Vec<Variant> = Vec::new();
            v.push(Variant::Plain);
            proof {
                assert(v@ =~= Self::variants_spec(ir@)->Some_0);
            }
            Some(v)
        } else {
            None
        }
    }

    fn encode(ir: &[u8], variant: Variant) -> (r: Result<String, CodecError>) {
        match variant {
            Variant::Plain => match crate::ext::uuid_string(ir) {
                Some(s) => Ok(s),
                None => Err(CodecError::Lex),
            },
            _ => Err(CodecError::VariantMismatch),
        }
    }

    fn endianness() -> (e: Endianness) {
        Endianness::Default
    }
}

impl FromIR for EscapedString {
    open spec fn variants_spec(ir: Seq<u8>) -> Option<Seq<Variant>> {
        Some(seq![Variant::Plain])
    }

    open spec fn encode_spec(ir: Seq<u8>, variant: Variant) -> Result<Seq<char>, CodecError> {
        if variant == Variant::Plain {
            Ok(bytes_as_chars(crate::escape::esc_encode(ir)))
        } else {
            Err(CodecError::VariantMismatch)
        }
    }

    open spec fn endianness_spec() -> Endianness {
        Endianness::Default
    }

    fn variants(ir: &[u8]) -> (r: Option<Vec<Variant>>) {
        let mut v: Vec<Variant> = Vec::new();
        v.push(Variant::Plain);
        proof {
            assert(v@ =~= Self::variants_spec(ir@)->Some_0);
        }
        Some(v)
    }

    fn encode(ir: &[u8], variant: Variant) -> (r: Result<String, CodecError>) {
        match variant {
            Variant::Plain => Ok(crate::escape::EscapeSequence::encode(ir)),
            _ => Err(CodecError::VariantMismatch),
        }
    }

    fn endianness() -> (e: Endianness) {
        Endianness::Default
    }
}

impl FromIR for UrlEncode {
    open spec fn variants_spec(ir: Seq<u8>) -> Option<Seq<Variant>> {
        Some(seq![Variant::Plain])
    }

    open spec fn encode_spec(ir: Seq<u8>, variant: Variant) -> Result<Seq<char>, CodecError> {
        if variant == Variant::Plain {
            Ok(bytes_as_chars(crate::ext::url_enc_spec(ir)))
        } else {
            Err(CodecError::VariantMismatch)
        }
    }

    open spec fn endianness_spec() -> Endianness {
        Endianness::Default
    }

    fn variants(ir: &[u8]) -> (r: Option<Vec<Variant>>) {
        let mut v: Vec<Variant> = Vec::new();
        v.push(Variant::Plain);
        proof {
            assert(v@ =~= Self::variants_spec(ir@)->Some_0);
        }
        Some(v)
    }

    fn encode(ir: &[u8], variant: Variant) -> (r: Result<String, CodecError>) {
        match variant {
            Variant::Plain => Ok(crate::ext::url_encode(ir)),
            _ => Err(CodecError::VariantMismatch),
        }
    }

    fn endianness() -> (e: Endianness) {
        Endianness::Default
    }
}

/// A byte sequence with every `+` replaced by `%20`.
pub open spec fn plus_to_pct20(bs: Seq<u8>) -> Seq<u8>
    decreases bs.len(),
{
    if bs.len() == 0 {
        seq![]
    } else if bs[0] == 0x2B {
        seq![0x25u8, 0x32u8, 0x30u8] + plus_to_pct20(bs.drop_first())
    } else {
        seq![bs[0]] + plus_to_pct20(bs.drop_first())
    }
}

/// Replacing distributes over appending one byte.
proof fn lemma_plus_to_pct20_snoc(s: Seq<u8>, b: u8)
    ensures
        plus_to_pct20(s.push(b)) == plus_to_pct20(s) + (if b == 0x2B {
            seq![0x25u8, 0x32u8, 0x30u8]
        } else {
            seq![b]
        }),
    decreases s.len(),
{
    let tail: Seq<u8> = if b == 0x2B {
        seq![0x25u8, 0x32u8, 0x30u8]
    } else {
        seq![b]
    };
    if s.len() == 0 {
        assert(s.push(b).drop_first() =~= Seq::<u8>::empty());
        assert(s.push(b)[0] == b);
        assert(plus_to_pct20(s.push(b)) =~= tail) by {
            reveal_with_fuel(plus_to_pct20, 3);
        }
        assert(plus_to_pct20(s) + tail =~= tail);
    } else {
        assert(s.push(b).drop_first() =~= s.drop_first().push(b));
        assert(s.push(b)[0] == s[0]);
        lemma_plus_to_pct20_snoc(s.drop_first(), b);
        let head: Seq<u8> = if s[0] == 0x2B {
            seq![0x25u8, 0x32u8, 0x30u8]
        } else {
            seq![s[0]]
        };
        assert(head + (plus_to_pct20(s.drop_first()) + tail) =~= (head + plus_to_pct20(
            s.drop_first(),
        )) + tail);
        assert(plus_to_pct20(s.push(b)) =~= plus_to_pct20(s) + tail);
    }
}

/// Replaces every `+` with `%20`.
fn plus_to_pct20_exec(ir: &[u8]) -> (r: Vec<u8>)
    ensures
        r@ == plus_to_pct20(ir@),
{
    let n = ir.len();
    let mut out: Vec<u8> = Vec::new();
    let mut i: usize = 0;
    proof {
        assert(ir@.take(0) =~= Seq::<u8>::empty());
    }
    while i < n
        invariant
            0 <= i <= n == ir@.len(),
            out@ == plus_to_pct20(ir@.take(i as int)),
        decreases n - i,
    {
        let b = ir[i];
        proof {
            lemma_plus_to_pct20_snoc(ir@.take(i as int), ir@[i as int]);
            assert(ir@.take(i + 1) =~= ir@.take(i as int).push(ir@[i as int]));
        }
        if b == 0x2B {
            out.push(0x25);
            out.push(0x32);
            out.push(0x30);
        } else {
            out.push(b);
        }
        proof {
            assert(out@ =~= plus_to_pct20(ir@.take(i + 1)));
        }
        i = i + 1;
    }
    proof {
        assert(ir@.take(n as int) =~= ir@);
    }
    out
}

impl FromIR for UrlDecode {
    open spec fn variants_spec(ir: Seq<u8>) -> Option<Seq<Variant>> {
        if valid_utf8(ir) {
            Some(seq![Variant::Legacy, Variant::Rfc3986])
        } else {
            None
        }
    }

    open spec fn encode_spec(ir: Seq<u8>, variant: Variant) -> Result<Seq<char>, CodecError> {
        match variant {
            Variant::Legacy => if valid_utf8(ir) && valid_utf8(crate::ext::url_dec_spec(ir)) {
                Ok(decode_utf8(crate::ext::url_dec_spec(ir)))
            } else {
                Err(CodecError::Lex)
            },
            Variant::Rfc3986 => {
                let rb = plus_to_pct20(ir);
                if valid_utf8(ir) && valid_utf8(rb) && valid_utf8(crate::ext::url_dec_spec(rb)) {
                    Ok(decode_utf8(crate::ext::url_dec_spec(rb)))
                } else {
                    Err(CodecError::Lex)
                }
            },
            _ => Err(CodecError::VariantMismatch),
        }
    }

    open spec fn endianness_spec() -> Endianness {
        Endianness::Default
    }

    fn variants(ir: &[u8]) -> (r: Option<Vec<Variant>>) {
        let bytes = vstd::slice::slice_to_vec(ir);
        match crate::ext::utf8_string(bytes) {
            Some(_) => {
                let mut v: Vec<Variant> = Vec::new();
                v.push(Variant::Legacy);
                v.push(Variant::Rfc3986);
                proof {
                    assert(v@ =~= Self::variants_spec(ir@)->Some_0);
                }
                Some(v)
            },
            None => None,
        }
    }

    fn encode(ir: &[u8], variant: Variant) -> (r: Result<String, CodecError>) {
        match variant {
            Variant::Legacy => {
                let bytes = vstd::slice::slice_to_vec(ir);
                match crate::ext::utf8_string(bytes) {
                    Some(s) => {
                        proof {
                            vstd::utf8::decode_utf8_encode_utf8(ir@);
                        }
                        match crate::ext::url_decode(s.as_str()) {
                            Some(out) => Ok(out),
                            None => Err(CodecError::Lex),
                        }
                    },
                    None => Err(CodecError::Lex),
                }
            },
            Variant::Rfc3986 => {
                let bytes = vstd::slice::slice_to_vec(ir);
                match crate::ext::utf8_string(bytes) {
                    Some(_) => {
                        let replaced = plus_to_pct20_exec(ir);
                        match crate::ext::utf8_string(replaced) {
                            Some(rs) => {
                                proof {
                                    vstd::utf8::decode_utf8_encode_utf8(plus_to_pct20(ir@));
                                }
                                match crate::ext::url_decode(rs.as_str()) {
                                    Some(out) => Ok(out),
                                    None => Err(CodecError::Lex),
                                }
                            },
                            None => Err(CodecError::Lex),
                        }
                    },
                    None => Err(CodecError::Lex),
                }
            },
            _ => Err(CodecError::VariantMismatch),
        }
    }

    fn endianness() -> (e: Endianness) {
        Endianness::Default
    }
}

/// The decimal text of one value, as characters.
fn dec_string_u8(b: u8) -> (r: String)
    ensures
        r@ == dec_chars(b as nat),
{
    let mut v: Vec<u8> = Vec::new();
    v.push(b);
    proof {
        assert(val(v@, 256) == b + 256 * val(v@.drop_first(), 256));
        assert(v@.drop_first() =~= Seq::<u8>::empty());
        crate::radix::lemma_canonical_digits_ascii(b as nat, 10);
    }
    crate::ext::ascii_string(magnitude_text(&v, 10))
}

/// The decimal text of a length, as characters.
fn dec_string_usize(n: usize) -> (r: String)
    ensures
        r@ == dec_chars(n as nat),
{
    proof {
        assert(pow_n(256, 16) == 0x100000000000000000000000000000000) by {
            reveal_with_fuel(pow_n, 18);
        }
        crate::radix::lemma_canonical_digits_ascii(n as nat, 10);
    }
    let bytes = crate::radix::le_width_u128(n as u128, 16);
    crate::ext::ascii_string(magnitude_text(&bytes, 10))
}

/// A one-character string.
fn char_string(c: char) -> (r: String)
    ensures
        r@ == seq![c],
{
    let mut bytes: Vec<u8> = Vec::new();
    crate::escape::push_utf8(&mut bytes, c);
    proof {
        assert(seq![c].drop_first() =~= Seq::<char>::empty());
        assert(seq![c][0] == c);
        assert(encode_utf8(seq![c]) =~= encode_scalar(c as u32) + encode_utf8(
            Seq::<char>::empty(),
        )) by {
            reveal_with_fuel(vstd::utf8::encode_utf8, 3);
        }
        assert(encode_scalar(c as u32) + encode_utf8(Seq::<char>::empty()) =~= encode_scalar(
            c as u32,
        ));
        assert(bytes@ == encode_utf8(seq![c]));
        vstd::utf8::encode_utf8_valid_utf8(seq![c]);
        vstd::utf8::encode_utf8_decode_utf8(seq![c]);
    }
    match crate::ext::utf8_string(bytes) {
        Some(s) => s,
        None => {
            proof {
                assert(false);
            }
            String::new()
        },
    }
}

/// Whether every character has a Unicode name.
pub open spec fn all_named(chars: Seq<char>) -> bool {
    forall|i: int| 0 <= i < chars.len() ==> crate::ext::unicode_name_of(#[trigger] chars[i]) is Some
}

/// The name listing of a character sequence: for each character its name,
/// then the character between single quotes, comma-separated throughout.
pub open spec fn names_text(chars: Seq<char>) -> Seq<char>
    decreases chars.len(),
{
    if chars.len() == 0 {
        Seq::empty()
    } else {
        crate::ext::unicode_name_of(chars[0])->Some_0 + " '"@ + seq![chars[0]] + "', "@
            + names_text(chars.drop_first())
    }
}

impl FromIR for Unicode8 {
    open spec fn variants_spec(ir: Seq<u8>) -> Option<Seq<Variant>> {
        if valid_utf8(ir) {
            if all_named(decode_utf8(ir)) {
                Some(seq![Variant::LiteralText, Variant::NamedChars])
            } else {
                Some(seq![Variant::LiteralText])
            }
        } else {
            None
        }
    }

    open spec fn encode_spec(ir: Seq<u8>, variant: Variant) -> Result<Seq<char>, CodecError> {
        match variant {
            Variant::LiteralText => if valid_utf8(ir) {
                Ok(decode_utf8(ir))
            } else {
                Err(CodecError::Lex)
            },
            Variant::NamedChars => if valid_utf8(ir) && all_named(decode_utf8(ir)) {
                Ok("["@ + names_text(decode_utf8(ir)))
            } else {
                Err(CodecError::Lex)
            },
            _ => Err(CodecError::VariantMismatch),
        }
    }

    open spec fn endianness_spec() -> Endianness {
        Endianness::Default
    }

    fn variants(ir: &[u8]) -> (r: Option<Vec<Variant>>) {
        let bytes = vstd::slice::slice_to_vec(ir);
        match crate::ext::utf8_string(bytes) {
            Some(s) => {
                let ghost chars = decode_utf8(ir@);
                let n = s.as_str().unicode_len();
                let mut named = true;
                let mut i: usize = 0;
                while i < n
                    invariant
                        0 <= i <= n == chars.len(),
                        s@ == chars,
                        named == (forall|m: int|
                            0 <= m < i ==> crate::ext::unicode_name_of(
                                #[trigger] chars[m],
                            ) is Some),
                    decreases n - i,
                {
                    let c = s.as_str().get_char(i);
                    if crate::ext::char_name(c).is_none() {
                        named = false;
                    }
                    i = i + 1;
                }
                let mut v: Vec<Variant> = Vec::new();
                v.push(Variant::LiteralText);
                if named {
                    v.push(Variant::NamedChars);
                    proof {
                        assert(v@ =~= seq![Variant::LiteralText, Variant::NamedChars]);
                    }
                } else {
                    proof {
                        assert(v@ =~= seq![Variant::LiteralText]);
                    }
                }
                Some(v)
            },
            None => None,
        }
    }

    fn encode(ir: &[u8], variant: Variant) -> (r: Result<String, CodecError>) {
        match variant {
            Variant::LiteralText => {
                let bytes = vstd::slice::slice_to_vec(ir);
                match crate::ext::utf8_string(bytes) {
                    Some(s) => Ok(s),
                    None => Err(CodecError::Lex),
                }
            },
            Variant::NamedChars => {
                let bytes = vstd::slice::slice_to_vec(ir);
                match crate::ext::utf8_string(bytes) {
                    Some(text) => {
                        let ghost chars = decode_utf8(ir@);
                        let n = text.as_str().unicode_len();
                        let mut s = String::new();
                        s.append("[");
                        let mut i: usize = 0;
                        proof {
                            assert(chars.skip(0) =~= chars);
                            assert(s@ =~= "["@);
                        }
                        while i < n
                            invariant
                                variant == Variant::NamedChars,
                                chars == decode_utf8(ir@),
                                valid_utf8(ir@),
                                0 <= i <= n == chars.len(),
                                text@ == chars,
                                forall|m: int|
                                    0 <= m < i ==> crate::ext::unicode_name_of(
                                        #[trigger] chars[m],
                                    ) is Some,
                                s@ + names_text(chars.skip(i as int)) == "["@ + names_text(chars),
                            decreases n - i,
                        {
                            let c = text.as_str().get_char(i);
                            match crate::ext::char_name(c) {
                                None => {
                                    proof {
                                        assert(crate::ext::unicode_name_of(
                                            chars[i as int],
                                        ) is None);
                                        assert(!all_named(chars));
                                    }
                                    return Err(CodecError::Lex);
                                },
                                Some(name) => {
                                    let ghost pre = s@;
                                    let ghost u = chars.skip(i as int);
                                    s.append(name.as_str());
                                    s.append(" '");
                                    let cs = char_string(c);
                                    s.append(cs.as_str());
                                    s.append("', ");
                                    proof {
                                        assert(u[0] == chars[i as int]);
                                        assert(u.drop_first() =~= chars.skip(i + 1));
                                        assert(names_text(u) == crate::ext::unicode_name_of(
                                            u[0],
                                        )->Some_0 + " '"@ + seq![u[0]] + "', "@ + names_text(
                                            u.drop_first(),
                                        ));
                                        assert(s@ =~= pre + crate::ext::unicode_name_of(
                                            u[0],
                                        )->Some_0 + " '"@ + seq![u[0]] + "', "@);
                                        assert(s@ + names_text(chars.skip(i + 1)) =~= pre
                                            + names_text(u));
                                    }
                                    i = i + 1;
                                },
                            }
                        }
                        proof {
                            assert(chars.skip(n as int) =~= Seq::<char>::empty());
                            assert(s@ + Seq::<char>::empty() =~= s@);
                            assert(all_named(chars));
                        }
                        Ok(s)
                    },
                    None => Err(CodecError::Lex),
                }
            },
            _ => Err(CodecError::VariantMismatch),
        }
    }

    fn endianness() -> (e: Endianness) {
        Endianness::Default
    }
}

/// The continuation of a byte listing: a comma and space before each
/// further value.
pub open spec fn items_rest_text(bs: Seq<u8>) -> Seq<char>
    decreases bs.len(),
{
    if bs.len() == 0 {
        Seq::empty()
    } else {
        ", "@ + dec_chars(bs[0] as nat) + items_rest_text(bs.drop_first())
    }
}

/// The bracketed listing of byte values.
pub open spec fn items_text(bs: Seq<u8>) -> Seq<char> {
    if bs.len() == 0 {
        Seq::empty()
    } else {
        dec_chars(bs[0] as nat) + items_rest_text(bs.drop_first())
    }
}

/// The rendering of a byte buffer as a counted list of byte values.
pub open spec fn byte_list_text(bs: Seq<u8>) -> Seq<char> {
    "("@ + dec_chars(bs.len()) + " byte(s)) ["@ + items_text(bs) + "]"@
}

impl FromIR for ByteList {
    open spec fn variants_spec(ir: Seq<u8>) -> Option<Seq<Variant>> {
        Some(seq![Variant::Plain])
    }

    open spec fn encode_spec(ir: Seq<u8>, variant: Variant) -> Result<Seq<char>, CodecError> {
        if variant == Variant::Plain {
            Ok(byte_list_text(ir))
        } else {
            Err(CodecError::VariantMismatch)
        }
    }

    open spec fn endianness_spec() -> Endianness {
        Endianness::Default
    }

    fn variants(ir: &[u8]) -> (r: Option<Vec<Variant>>) {
        let mut v: Vec<Variant> = Vec::new();
        v.push(Variant::Plain);
        proof {
            assert(v@ =~= seq![Variant::Plain]);
        }
        Some(v)
    }

    fn encode(ir: &[u8], variant: Variant) -> (r: Result<String, CodecError>) {
        match variant {
            Variant::Plain => {
                let n = ir.len();
                let mut s = String::new();
                s.append("(");
                let count = dec_string_usize(n);
                s.append(count.as_str());
                s.append(" byte(s)) [");
                let ghost header = "("@ + dec_chars(ir@.len()) + " byte(s)) ["@;
                proof {
                    assert(s@ =~= header);
                }
                if n == 0 {
                    s.append("]");
                    proof {
                        assert(items_text(ir@) =~= Seq::<char>::empty());
                        assert(s@ =~= byte_list_text(ir@));
                    }
                    return Ok(s);
                }
                let first = dec_string_u8(ir[0]);
                s.append(first.as_str());
                let mut i: usize = 1;
                proof {
                    assert(ir@.skip(0).drop_first() =~= ir@.skip(1));
                    assert(ir@.skip(0) =~= ir@);
                    assert(s@ + items_rest_text(ir@.skip(1)) =~= (header + dec_chars(
                        ir@[0] as nat,
                    )) + items_rest_text(ir@.skip(1)));
                    assert(header + items_text(ir@) =~= (header + dec_chars(ir@[0] as nat))
                        + items_rest_text(ir@.skip(1)));
                }
                while i < n
                    invariant
                        1 <= i <= n == ir@.len(),
                        s@ + items_rest_text(ir@.skip(i as int)) == header + items_text(ir@),
                    decreases n - i,
                {
                    let ghost pre = s@;
                    let ghost u = ir@.skip(i as int);
                    s.append(", ");
                    let piece = dec_string_u8(ir[i]);
                    s.append(piece.as_str());
                    proof {
                        assert(u[0] == ir@[i as int]);
                        assert(u.drop_first() =~= ir@.skip(i + 1));
                        assert(items_rest_text(u) == ", "@ + dec_chars(u[0] as nat)
                            + items_rest_text(u.drop_first()));
                        assert(s@ =~= pre + ", "@ + dec_chars(u[0] as nat));
                        assert(s@ + items_rest_text(ir@.skip(i + 1)) =~= pre + items_rest_text(u));
                    }
                    i = i + 1;
                }
                proof {
                    assert(ir@.skip(n as int) =~= Seq::<u8>::empty());
                    assert(s@ + Seq::<char>::empty() =~= s@);
                }
                s.append("]");
                proof {
                    assert(s@ =~= byte_list_text(ir@));
                }
                Ok(s)
            },
            _ => Err(CodecError::VariantMismatch),
        }
    }

    fn endianness() -> (e: Endianness) {
        Endianness::Default
    }
}

/// The dotted-quad rendering of a four-byte address buffer, least
/// significant octet first in the buffer.
pub open spec fn ipv4_text(ir: Seq<u8>) -> Seq<char> {
    dec_chars(ir[3] as nat) + "."@ + dec_chars(ir[2] as nat) + "."@ + dec_chars(ir[1] as nat)
        + "."@ + dec_chars(ir[0] as nat)
}

impl FromIR for crate::common::IpV4 {
    open spec fn variants_spec(ir: Seq<u8>) -> Option<Seq<Variant>> {
        if ir.len() == 4 {
            Some(seq![Variant::WithoutPort])
        } else if ir.len() == 6 {
            Some(seq![Variant::WithPort])
        } else {
            None
        }
    }

    open spec fn encode_spec(ir: Seq<u8>, variant: Variant) -> Result<Seq<char>, CodecError> {
        match variant {
            Variant::WithoutPort => if ir.len() == 4 {
                Ok(ipv4_text(ir))
            } else {
                Err(CodecError::VariantMismatch)
            },
            Variant::WithPort => if ir.len() == 6 {
                Ok(ipv4_text(ir.take(4)) + ":"@ + dec_chars((ir[4] + 256 * ir[5]) as nat))
            } else {
                Err(CodecError::VariantMismatch)
            },
            _ => Err(CodecError::VariantMismatch),
        }
    }

    open spec fn endianness_spec() -> Endianness {
        Endianness::Default
    }

    fn variants(ir: &[u8]) -> (r: Option<Vec<Variant>>) {
        let n = ir.len();
        if n == 4 {
            let mut v: Vec<Variant> = Vec::new();
            v.push(Variant::WithoutPort);
            proof {
                assert(v@ =~= seq![Variant::WithoutPort]);
            }
            Some(v)
        } else if n == 6 {
            let mut v: Vec<Variant> = Vec::new();
            v.push(Variant::WithPort);
            proof {
                assert(v@ =~= seq![Variant::WithPort]);
            }
            Some(v)
        } else {
            None
        }
    }

    fn encode(ir: &[u8], variant: Variant) -> (r: Result<String, CodecError>) {
        let n = ir.len();
        match variant {
            Variant::WithoutPort => {
                if n == 4 {
                    Ok(ipv4_string(ir))
                } else {
                    Err(CodecError::VariantMismatch)
                }
            },
            Variant::WithPort => {
                if n == 6 {
                    let addr = vstd::slice::slice_subrange(ir, 0, 4);
                    let mut s = ipv4_string(addr);
                    s.append(":");
                    let port: u16 = ir[4] as u16 + 256 * ir[5] as u16;
                    let ps = dec_string_usize(port as usize);
                    s.append(ps.as_str());
                    proof {
                        assert(s@ =~= ipv4_text(ir@.take(4)) + ":"@ + dec_chars(
                            (ir@[4] + 256 * ir@[5]) as nat,
                        ));
                    }
                    Ok(s)
                } else {
                    Err(CodecError::VariantMismatch)
                }
            },
            _ => Err(CodecError::VariantMismatch),
        }
    }

    fn endianness() -> (e: Endianness) {
        Endianness::Default
    }
}

/// Renders a four-byte address buffer as a dotted quad.
fn ipv4_string(ir: &[u8]) -> (r: String)
    requires
        ir@.len() == 4,
    ensures
        r@ == ipv4_text(ir@),
{
    let mut s = String::new();
    let a = dec_string_u8(ir[3]);
    s.append(a.as_str());
    s.append(".");
    let b = dec_string_u8(ir[2]);
    s.append(b.as_str());
    s.append(".");
    let c = dec_string_u8(ir[1]);
    s.append(c.as_str());
    s.append(".");
    let d = dec_string_u8(ir[0]);
    s.append(d.as_str());
    proof {
        assert(s@ =~= ipv4_text(ir@));
    }
    s
}

/// The eight group values a sixteen-byte address buffer holds, least
/// significant group and byte first in the buffer.
pub open spec fn ir_groups(ir: Seq<u8>) -> Seq<u16>
    recommends
        ir.len() >= 16,
{
    Seq::new(8, |i: int| (ir[14 - 2 * i] + 256 * ir[15 - 2 * i]) as u16)
}

/// The length of the zero-group run starting at `i`.
pub open spec fn zero_run(gs: Seq<u16>, i: int) -> int
    decreases gs.len() - i
        when 0 <= i <= gs.len()
{
    if i >= gs.len() || gs[i] != 0 {
        0
    } else {
        1 + zero_run(gs, i + 1)
    }
}

/// The leftmost longest zero-group run at or after `i`: its start and its
/// length, or (-1, 0) past the end.
pub open spec fn best_zero_run(gs: Seq<u16>, i: int) -> (int, int)
    decreases gs.len() - i
        when 0 <= i <= gs.len()
{
    if i >= gs.len() {
        (-1, 0)
    } else {
        let rest = best_zero_run(gs, i + 1);
        if zero_run(gs, i) >= rest.1 {
            (i, zero_run(gs, i))
        } else {
            rest
        }
    }
}

/// The lower-case hexadecimal text of one group.
pub open spec fn group_chars(g: u16) -> Seq<char> {
    bytes_as_chars(crate::radix::canonical_digits_lower(g as nat, 16))
}

/// The remaining groups of a listing, each behind a colon.
pub open spec fn groups_rest_text(gs: Seq<u16>) -> Seq<char>
    decreases gs.len(),
{
    if gs.len() == 0 {
        Seq::empty()
    } else {
        ":"@ + group_chars(gs[0]) + groups_rest_text(gs.drop_first())
    }
}

/// Colon-separated group texts.
pub open spec fn groups_text(gs: Seq<u16>) -> Seq<char> {
    if gs.len() == 0 {
        Seq::empty()
    } else {
        group_chars(gs[0]) + groups_rest_text(gs.drop_first())
    }
}

/// The address text of a sixteen-byte buffer: the groups in lower-case
/// hexadecimal, the leftmost longest run of two or more zero groups
/// elided as `::`.
pub open spec fn ipv6_text(ir: Seq<u8>) -> Seq<char>
    recommends
        ir.len() >= 16,
{
    let gs = ir_groups(ir);
    let best = best_zero_run(gs, 0);
    if best.1 >= 2 {
        groups_text(gs.take(best.0)) + "::"@ + groups_text(gs.skip(best.0 + best.1))
    } else {
        groups_text(gs)
    }
}

/// A zero run lies within the sequence.
pub proof fn lemma_zero_run_bound(gs: Seq<u16>, i: int)
    requires
        0 <= i <= gs.len(),
    ensures
        0 <= zero_run(gs, i) <= gs.len() - i,
    decreases gs.len() - i,
{
    if i < gs.len() && gs[i] == 0 {
        lemma_zero_run_bound(gs, i + 1);
    }
}

/// A non-empty best zero run starts at or after the scan point and lies
/// within the sequence.
pub proof fn lemma_best_zero_run_bounds(gs: Seq<u16>, i: int)
    requires
        0 <= i <= gs.len(),
    ensures
        best_zero_run(gs, i).1 >= 0,
        best_zero_run(gs, i).1 >= 1 ==> i <= best_zero_run(gs, i).0 && best_zero_run(gs, i).0
            + best_zero_run(gs, i).1 <= gs.len(),
    decreases gs.len() - i,
{
    if i < gs.len() {
        lemma_best_zero_run_bounds(gs, i + 1);
        lemma_zero_run_bound(gs, i);
    }
}

/// The lower-case hexadecimal text of one group.
fn group_string(g: u16) -> (r: String)
    ensures
        r@ == group_chars(g),
{
    let mut bytes: Vec<u8> = Vec::new();
    bytes.push((g % 256) as u8);
    bytes.push((g / 256) as u8);
    proof {
        assert(val(bytes@, 256) == g) by {
            assert(bytes@[0] == (g % 256) as u8);
            assert(bytes@.drop_first() =~= seq![((g / 256) as u8)]);
            assert(bytes@.drop_first().drop_first() =~= Seq::<u8>::empty());
            reveal_with_fuel(crate::radix::val, 4);
        }
        crate::radix::lemma_canonical_digits_lower_ascii(g as nat, 16);
    }
    crate::ext::ascii_string(crate::radix::magnitude_text_lower(&bytes, 16))
}

/// Appends colon-separated group texts.
fn append_groups(s: &mut String, gs: &Vec<u16>, from: usize, to: usize)
    requires
        from <= to <= gs@.len(),
    ensures
        final(s)@ == old(s)@ + groups_text(gs@.subrange(from as int, to as int)),
{
    let ghost whole = gs@.subrange(from as int, to as int);
    if from == to {
        proof {
            assert(old(s)@ + groups_text(whole) =~= old(s)@);
        }
        return ;
    }
    let head = group_string(gs[from]);
    s.append(head.as_str());
    proof {
        assert(whole[0] == gs@[from as int]);
        assert(whole.drop_first() =~= gs@.subrange(from + 1, to as int));
    }
    let mut i = from + 1;
    proof {
        assert(s@ + groups_rest_text(gs@.subrange(i as int, to as int)) =~= old(s)@ + groups_text(
            whole,
        ));
    }
    while i < to
        invariant
            from < i <= to <= gs@.len(),
            whole == gs@.subrange(from as int, to as int),
            s@ + groups_rest_text(gs@.subrange(i as int, to as int)) == old(s)@ + groups_text(
                whole,
            ),
        decreases to - i,
    {
        let ghost pre = s@;
        let ghost u = gs@.subrange(i as int, to as int);
        s.append(":");
        let piece = group_string(gs[i]);
        s.append(piece.as_str());
        proof {
            assert(u[0] == gs@[i as int]);
            assert(u.drop_first() =~= gs@.subrange(i + 1, to as int));
            assert(groups_rest_text(u) == ":"@ + group_chars(u[0]) + groups_rest_text(
                u.drop_first(),
            ));
            assert(s@ =~= pre + ":"@ + group_chars(u[0]));
            assert(s@ + groups_rest_text(gs@.subrange(i + 1, to as int)) =~= pre
                + groups_rest_text(u));
        }
        i = i + 1;
    }
    proof {
        assert(gs@.subrange(to as int, to as int) =~= Seq::<u16>::empty());
        assert(s@ + Seq::<char>::empty() =~= s@);
    }
}

/// Renders a sixteen-byte buffer as an address text.
fn ipv6_string(ir: &[u8]) -> (r: String)
    requires
        ir@.len() >= 16,
    ensures
        r@ == ipv6_text(ir@),
{
    let mut gs: Vec<u16> = Vec::new();
    let mut i: usize = 0;
    while i < 8
        invariant
            0 <= i <= 8,
            ir@.len() >= 16,
            gs@.len() == i,
            forall|m: int| 0 <= m < i ==> gs@[m] == ir_groups(ir@)[m],
        decreases 8 - i,
    {
        let g: u16 = ir[14 - 2 * i] as u16 + 256 * ir[15 - 2 * i] as u16;
        gs.push(g);
        i = i + 1;
    }
    proof {
        assert(gs@ =~= ir_groups(ir@));
    }
    // the leftmost longest zero run, found scanning from the right
    let mut best_start: i32 = -1;
    let mut best_len: usize = 0;
    let mut p: usize = 8;
    while p > 0
        invariant
            0 <= p <= 8,
            gs@.len() == 8,
            best_zero_run(gs@, p as int) == (best_start as int, best_len as int),
            -1 <= best_start <= 8,
            best_len <= 8,
        decreases p,
    {
        p = p - 1;
        // the zero run starting at p
        let mut run: usize = 0;
        let mut q: usize = p;
        while q < 8 && gs[q] == 0
            invariant
                p <= q <= 8,
                gs@.len() == 8,
                run == q - p,
                zero_run(gs@, p as int) == run + zero_run(gs@, q as int),
            decreases 8 - q,
        {
            run = run + 1;
            q = q + 1;
        }
        proof {
            assert(zero_run(gs@, q as int) == 0);
        }
        if run >= best_len {
            best_start = p as i32;
            best_len = run;
        }
    }
    let mut s = String::new();
    if best_len >= 2 {
        proof {
            lemma_best_zero_run_bounds(gs@, 0);
            assert(best_start >= 0 && best_start + best_len <= 8);
        }
        let bs = best_start as usize;
        proof {
            assert(best_zero_run(gs@, 0).0 == bs && best_zero_run(gs@, 0).1 == best_len);
        }
        append_groups(&mut s, &gs, 0, bs);
        s.append("::");
        append_groups(&mut s, &gs, bs + best_len, 8);
        proof {
            assert(gs@.subrange(0, bs as int) =~= gs@.take(bs as int));
            assert(gs@.subrange(bs + best_len, 8) =~= gs@.skip(bs + best_len));
            assert(s@ =~= ipv6_text(ir@));
        }
    } else {
        append_groups(&mut s, &gs, 0, 8);
        proof {
            assert(gs@.subrange(0, 8) =~= gs@);
            assert(s@ =~= ipv6_text(ir@));
        }
    }
    s
}

impl FromIR for crate::common::IpV6 {
    open spec fn variants_spec(ir: Seq<u8>) -> Option<Seq<Variant>> {
        if ir.len() == 16 {
            Some(seq![Variant::WithoutPort])
        } else if ir.len() == 18 {
            Some(seq![Variant::WithPort])
        } else {
            None
        }
    }

    open spec fn encode_spec(ir: Seq<u8>, variant: Variant) -> Result<Seq<char>, CodecError> {
        match variant {
            Variant::WithoutPort => if ir.len() == 16 {
                Ok(ipv6_text(ir))
            } else {
                Err(CodecError::VariantMismatch)
            },
            Variant::WithPort => if ir.len() == 18 {
                Ok(
                    "["@ + ipv6_text(ir.take(16)) + "]:"@ + dec_chars(
                        (ir[16] + 256 * ir[17]) as nat,
                    ),
                )
            } else {
                Err(CodecError::VariantMismatch)
            },
            _ => Err(CodecError::VariantMismatch),
        }
    }

    open spec fn endianness_spec() -> Endianness {
        Endianness::Default
    }

    fn variants(ir: &[u8]) -> (r: Option<Vec<Variant>>) {
        let n = ir.len();
        if n == 16 {
            let mut v: Vec<Variant> = Vec::new();
            v.push(Variant::WithoutPort);
            proof {
                assert(v@ =~= seq![Variant::WithoutPort]);
            }
            Some(v)
        } else if n == 18 {
            let mut v: Vec<Variant> = Vec::new();
            v.push(Variant::WithPort);
            proof {
                assert(v@ =~= seq![Variant::WithPort]);
            }
            Some(v)
        } else {
            None
        }
    }

    fn encode(ir: &[u8], variant: Variant) -> (r: Result<String, CodecError>) {
        let n = ir.len();
        match variant {
            Variant::WithoutPort => {
                if n == 16 {
                    Ok(ipv6_string(ir))
                } else {
                    Err(CodecError::VariantMismatch)
                }
            },
            Variant::WithPort => {
                if n == 18 {
                    let addr = vstd::slice::slice_subrange(ir, 0, 16);
                    let inner = ipv6_string(addr);
                    let mut s = String::new();
                    s.append("[");
                    s.append(inner.as_str());
                    s.append("]:");
                    let port: u16 = ir[16] as u16 + 256 * ir[17] as u16;
                    let ps = dec_string_usize(port as usize);
                    s.append(ps.as_str());
                    proof {
                        assert(ir@.take(16) =~= ir@.subrange(0, 16));
                        assert(s@ =~= "["@ + ipv6_text(ir@.take(16)) + "]:"@ + dec_chars(
                            (ir@[16] + 256 * ir@[17]) as nat,
                        ));
                    }
                    Ok(s)
                } else {
                    Err(CodecError::VariantMismatch)
                }
            },
            _ => Err(CodecError::VariantMismatch),
        }
    }

    fn endianness() -> (e: Endianness) {
        Endianness::Default
    }
}

/// The `rgb(..)` rendering of three channels.
pub open spec fn rgb_text(red: u8, green: u8, blue: u8) -> Seq<char> {
    "rgb("@ + dec_chars(red as nat) + ", "@ + dec_chars(green as nat) + ", "@ + dec_chars(
        blue as nat,
    ) + ")"@
}

/// The swatch glyph painted for colour variants.
pub open spec fn swatch() -> Seq<char> {
    "\u{2B1B}"@
}

impl FromIR for Colour {
    open spec fn variants_spec(ir: Seq<u8>) -> Option<Seq<Variant>> {
        if ir.len() == 1 {
            Some(seq![Variant::Colour8, Variant::Grey8, Variant::Terminal8])
        } else if ir.len() == 2 {
            Some(seq![Variant::Colour16])
        } else if ir.len() == 3 {
            Some(seq![Variant::Colour24, Variant::Rgb24, Variant::Hsl24])
        } else if ir.len() == 4 {
            Some(seq![Variant::Colour32])
        } else {
            None
        }
    }

    open spec fn encode_spec(ir: Seq<u8>, variant: Variant) -> Result<Seq<char>, CodecError> {
        match variant {
            Variant::Colour8 => if ir.len() == 1 {
                Ok(
                    crate::ext::sgr_fg_rgb_text(
                        scale_spec((ir[0] / 32) as u8, 8) as u8,
                        scale_spec(((ir[0] / 4) % 8) as u8, 8) as u8,
                        scale_spec((ir[0] % 4) as u8, 4) as u8,
                        swatch(),
                    ),
                )
            } else {
                Err(CodecError::VariantMismatch)
            },
            Variant::Grey8 => if ir.len() == 1 {
                Ok(crate::ext::sgr_fg_rgb_text(ir[0], ir[0], ir[0], swatch()))
            } else {
                Err(CodecError::VariantMismatch)
            },
            Variant::Terminal8 => if ir.len() == 1 {
                Ok(crate::ext::sgr_fg_fixed_text(ir[0], swatch()))
            } else {
                Err(CodecError::VariantMismatch)
            },
            Variant::Colour16 => if ir.len() == 2 {
                let v = (ir[0] + ir[1] * 256) as u16;
                Ok(
                    crate::ext::sgr_fg_rgb_text(
                        scale_spec((v / 2048) as u8, 32) as u8,
                        scale_spec(((v / 32) % 64) as u8, 64) as u8,
                        scale_spec((v % 32) as u8, 32) as u8,
                        swatch(),
                    ),
                )
            } else {
                Err(CodecError::VariantMismatch)
            },
            Variant::Colour24 => if ir.len() == 3 {
                Ok(crate::ext::sgr_fg_rgb_text(ir[2], ir[1], ir[0], swatch()))
            } else {
                Err(CodecError::VariantMismatch)
            },
            Variant::Rgb24 => if ir.len() == 3 {
                Ok(rgb_text(ir[2], ir[1], ir[0]))
            } else {
                Err(CodecError::VariantMismatch)
            },
            Variant::Hsl24 => if ir.len() == 3 {
                Ok(crate::ext::hsl_text_of(ir[2], ir[1], ir[0]))
            } else {
                Err(CodecError::VariantMismatch)
            },
            Variant::Colour32 => if ir.len() == 4 {
                Ok(crate::ext::sgr_fg_rgb_text(ir[2], ir[1], ir[0], swatch()))
            } else {
                Err(CodecError::VariantMismatch)
            },
            _ => Err(CodecError::VariantMismatch),
        }
    }

    open spec fn endianness_spec() -> Endianness {
        Endianness::Dual
    }

    fn variants(ir: &[u8]) -> (r: Option<Vec<Variant>>) {
        let n = ir.len();
        let mut v: Vec<Variant> = Vec::new();
        if n == 1 {
            v.push(Variant::Colour8);
            v.push(Variant::Grey8);
            v.push(Variant::Terminal8);
            proof {
                assert(v@ =~= Self::variants_spec(ir@)->Some_0);
            }
            Some(v)
        } else if n == 2 {
            v.push(Variant::Colour16);
            proof {
                assert(v@ =~= Self::variants_spec(ir@)->Some_0);
            }
            Some(v)
        } else if n == 3 {
            v.push(Variant::Colour24);
            v.push(Variant::Rgb24);
            v.push(Variant::Hsl24);
            proof {
                assert(v@ =~= Self::variants_spec(ir@)->Some_0);
            }
            Some(v)
        } else if n == 4 {
            v.push(Variant::Colour32);
            proof {
                assert(v@ =~= Self::variants_spec(ir@)->Some_0);
            }
            Some(v)
        } else {
            None
        }
    }

    fn encode(ir: &[u8], variant: Variant) -> (r: Result<String, CodecError>) {
        let n = ir.len();
        match variant {
            Variant::Colour8 => {
                if n == 1 {
                    let (red, green, blue) = Colour::_8_to_24(ir[0]);
                    Ok(crate::ext::paint_fg_rgb(red, green, blue, "\u{2B1B}"))
                } else {
                    Err(CodecError::VariantMismatch)
                }
            },
            Variant::Grey8 => {
                if n == 1 {
                    Ok(crate::ext::paint_fg_rgb(ir[0], ir[0], ir[0], "\u{2B1B}"))
                } else {
                    Err(CodecError::VariantMismatch)
                }
            },
            Variant::Terminal8 => {
                if n == 1 {
                    Ok(crate::ext::paint_fg_fixed(ir[0], "\u{2B1B}"))
                } else {
                    Err(CodecError::VariantMismatch)
                }
            },
            Variant::Colour16 => {
                if n == 2 {
                    let v16: u16 = ir[0] as u16 + ir[1] as u16 * 256;
                    let (red, green, blue) = Colour::_16_to_24(v16);
                    Ok(crate::ext::paint_fg_rgb(red, green, blue, "\u{2B1B}"))
                } else {
                    Err(CodecError::VariantMismatch)
                }
            },
            Variant::Colour24 => {
                if n == 3 {
                    Ok(crate::ext::paint_fg_rgb(ir[2], ir[1], ir[0], "\u{2B1B}"))
                } else {
                    Err(CodecError::VariantMismatch)
                }
            },
            Variant::Rgb24 => {
                if n == 3 {
                    let mut s = String::new();
                    s.append("rgb(");
                    let rs = dec_string_u8(ir[2]);
                    s.append(rs.as_str());
                    s.append(", ");
                    let gs = dec_string_u8(ir[1]);
                    s.append(gs.as_str());
                    s.append(", ");
                    let bs = dec_string_u8(ir[0]);
                    s.append(bs.as_str());
                    s.append(")");
                    proof {
                        assert(s@ =~= rgb_text(ir@[2], ir@[1], ir@[0]));
                    }
                    Ok(s)
                } else {
                    Err(CodecError::VariantMismatch)
                }
            },
            Variant::Hsl24 => {
                if n == 3 {
                    Ok(crate::ext::hsl_text(ir[2], ir[1], ir[0]))
                } else {
                    Err(CodecError::VariantMismatch)
                }
            },
            Variant::Colour32 => {
                if n == 4 {
                    Ok(crate::ext::paint_fg_rgb(ir[2], ir[1], ir[0], "\u{2B1B}"))
                } else {
                    Err(CodecError::VariantMismatch)
                }
            },
            _ => Err(CodecError::VariantMismatch),
        }
    }

    fn endianness() -> (e: Endianness) {
        Endianness::Dual
    }
}

} // verus!
