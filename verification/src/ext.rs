//! The library's trusted boundary: small wrappers around the outside crates
//! that the codecs rely on, each with the contract the outside source shows,
//! and names for results that no short specification can state.

use vstd::prelude::*;
use vstd::string::StringSliceAdditionalSpecFns;
use vstd::utf8::{valid_utf8, decode_utf8};
use crate::common::{B64Flavor, hex_digit_char, is_hex_digit, hex_digit_value};
use chrono::Datelike;

verus! {

/// A byte sequence read as a sequence of one-byte characters.
pub open spec fn bytes_as_chars(s: Seq<u8>) -> Seq<char> {
    Seq::new(s.len(), |i: int| s[i] as char)
}

/// Relies on `String::from_utf8`: ASCII bytes are valid UTF-8 and decode to
/// themselves, character for character.
#[verifier::external_body]
pub(crate) fn ascii_string(bytes: Vec<u8>) -> (r: String)
    requires
        forall|i: int| 0 <= i < bytes@.len() ==> bytes@[i] < 0x80,
    ensures
        r@ == bytes_as_chars(bytes@),
{
    match String::from_utf8(bytes) {
        Ok(s) => s,
        Err(_) => String::new(),
    }
}

/// Relies on `String::from_utf8`: succeeds exactly on valid UTF-8 and
/// yields the decoded characters.
#[verifier::external_body]
pub(crate) fn utf8_string(bytes: Vec<u8>) -> (r: Option<String>)
    ensures
        r is Some <==> valid_utf8(bytes@),
        r matches Some(s) ==> s@ == decode_utf8(bytes@),
{
    match String::from_utf8(bytes) {
        Ok(s) => Some(s),
        Err(_) => None,
    }
}

/// Relies on `char::from_u32`: succeeds exactly on Unicode scalar values
/// and yields the character with that value.
#[verifier::external_body]
pub(crate) fn char_from_u32(v: u32) -> (r: Option<char>)
    ensures
        r is Some <==> vstd::utf8::is_scalar(v),
        r matches Some(c) ==> c as u32 == v,
{
    char::from_u32(v)
}

/// Relies on `unicode_names2::character`: the character a Unicode name
/// resolves to depends on the name alone.  The lookup's name normalisation
/// steps back over a hyphen in the first position and can abort there, so
/// names beginning with a hyphen are kept away from the call; no Unicode
/// character's name begins with one.
#[verifier::external_body]
pub(crate) fn char_for_name(name: &str) -> (r: Option<char>)
    requires
        name.spec_bytes().len() == 0 || name.spec_bytes()[0] != 0x2D,
    ensures
        r == crate::escape::unicode_char_of(name@),
{
    unicode_names2::character(name)
}

/// What `unicode_names2::name` yields for a character, rendered as text.
pub uninterp spec fn unicode_name_of(c: char) -> Option<Seq<char>>;

/// Relies on `unicode_names2::name` and the `Display` rendering of the name
/// it returns: both depend on the character alone.
#[verifier::external_body]
pub(crate) fn char_name(c: char) -> (r: Option<String>)
    ensures
        r is Some <==> unicode_name_of(c) is Some,
        r matches Some(s) ==> unicode_name_of(c) == Some(s@),
{
    match unicode_names2::name(c) {
        Some(n) => Some(n.to_string()),
        None => None,
    }
}

/// What `uuid::Uuid::parse_str` followed by `as_u128` yields: the 128-bit
/// value of the UUID a string denotes, if it denotes one.
pub uninterp spec fn uuid_u128_of(s: Seq<char>) -> Option<u128>;

/// Relies on `uuid::Uuid::parse_str` and `Uuid::as_u128`: both depend on
/// the input string alone.
#[verifier::external_body]
pub(crate) fn uuid_parse(value: &str) -> (r: Option<u128>)
    ensures
        r == uuid_u128_of(value@),
{
    match uuid::Uuid::parse_str(value) {
        Ok(u) => Some(u.as_u128()),
        Err(_) => None,
    }
}

/// The two lower-case hexadecimal digits of one byte.
pub open spec fn hex2_lower(b: u8) -> Seq<char> {
    seq![
        hex_digit_char((b / 16) as u8, false) as char,
        hex_digit_char((b % 16) as u8, false) as char,
    ]
}

/// The lower-case hexadecimal digits of a byte range, two per byte.
pub open spec fn hex_lower_range(b: Seq<u8>, from: int, to: int) -> Seq<char>
    decreases to - from
        when from <= to
{
    if from >= to {
        Seq::empty()
    } else {
        hex2_lower(b[from]) + hex_lower_range(b, from + 1, to)
    }
}

/// The hyphenated rendering of sixteen UUID bytes, in order: groups of
/// four, two, two, two and six bytes, each byte two lower-case digits.
pub open spec fn uuid_text(b: Seq<u8>) -> Seq<char>
    recommends
        b.len() == 16,
{
    hex_lower_range(b, 0, 4) + "-"@ + hex_lower_range(b, 4, 6) + "-"@ + hex_lower_range(b, 6, 8)
        + "-"@ + hex_lower_range(b, 8, 10) + "-"@ + hex_lower_range(b, 10, 16)
}

/// Relies on `uuid::Uuid::from_slice`, which fails exactly when the slice
/// is not 16 bytes long, and on the `Display` rendering of a `Uuid`: the
/// slice's bytes in order as hyphenated lower-case hexadecimal.
#[verifier::external_body]
pub(crate) fn uuid_string(ir: &[u8]) -> (r: Option<String>)
    ensures
        r is Some <==> ir@.len() == 16,
        r matches Some(s) ==> s@ == uuid_text(ir@),
{
    match uuid::Uuid::from_slice(ir) {
        Ok(u) => Some(u.to_string()),
        Err(_) => None,
    }
}

/// What `chrono::DateTime::parse_from_rfc2822` yields, as an epoch second
/// count: a function of the text alone.
pub uninterp spec fn rfc2822_ts_of(s: Seq<char>) -> Option<i64>;

/// Relies on `chrono::DateTime::parse_from_rfc2822` and `timestamp`: both
/// depend on the input string alone.
#[verifier::external_body]
pub(crate) fn parse_rfc2822_ts(value: &str) -> (r: Option<i64>)
    ensures
        r == rfc2822_ts_of(value@),
{
    match chrono::DateTime::parse_from_rfc2822(value) {
        Ok(d) => Some(d.timestamp()),
        Err(_) => None,
    }
}

/// What `chrono::DateTime::parse_from_rfc3339` yields, as an epoch second
/// count: a function of the text alone.
pub uninterp spec fn rfc3339_ts_of(s: Seq<char>) -> Option<i64>;

/// Relies on `chrono::DateTime::parse_from_rfc3339` and `timestamp`: both
/// depend on the input string alone.
#[verifier::external_body]
pub(crate) fn parse_rfc3339_ts(value: &str) -> (r: Option<i64>)
    ensures
        r == rfc3339_ts_of(value@),
{
    match chrono::DateTime::parse_from_rfc3339(value) {
        Ok(d) => Some(d.timestamp()),
        Err(_) => None,
    }
}

/// Whether `chrono::DateTime::from_timestamp` accepts the epoch second
/// count: a function of the count alone.
pub uninterp spec fn chrono_in_range(ts: i64) -> bool;

/// Relies on `chrono::DateTime::from_timestamp`, which yields `None`
/// exactly on an out-of-range count.
#[verifier::external_body]
pub(crate) fn ts_in_range(ts: i64) -> (r: bool)
    ensures
        r == chrono_in_range(ts),
{
    chrono::DateTime::<chrono::Utc>::from_timestamp(ts, 0).is_some()
}

/// Whether the timestamp is in range and its year is between 0 and 9999,
/// which is what `to_rfc2822` requires of a date it formats.
pub uninterp spec fn chrono_rfc2822_ok(ts: i64) -> bool;

/// Relies on `chrono::DateTime::from_timestamp` and `Datelike::year`; RFC
/// 2822 text is defined for years 0 through 9999 only.
#[verifier::external_body]
pub(crate) fn rfc2822_ok(ts: i64) -> (r: bool)
    ensures
        r == chrono_rfc2822_ok(ts),
{
    match chrono::DateTime::<chrono::Utc>::from_timestamp(ts, 0) {
        Some(d) => 0 <= d.year() && d.year() <= 9999,
        None => false,
    }
}

/// The RFC 2822 rendering of an in-range timestamp, at UTC.
pub uninterp spec fn rfc2822_text_of(ts: i64) -> Seq<char>;

/// Relies on `chrono::DateTime::from_timestamp` and `to_rfc2822`; the
/// rendering depends on the timestamp alone, and the formatter panics
/// outside years 0 through 9999, which the caller rules out first.
#[verifier::external_body]
pub(crate) fn fmt_rfc2822(ts: i64) -> (r: String)
    requires
        chrono_rfc2822_ok(ts),
    ensures
        r@ == rfc2822_text_of(ts),
{
    match chrono::DateTime::<chrono::Utc>::from_timestamp(ts, 0) {
        Some(d) => d.to_rfc2822(),
        None => String::new(),
    }
}

/// The RFC 3339 rendering of an in-range timestamp, at UTC.
pub uninterp spec fn rfc3339_text_of(ts: i64) -> Seq<char>;

/// Relies on `chrono::DateTime::from_timestamp` and `to_rfc3339`, which
/// formats every representable date; the rendering depends on the
/// timestamp alone.
#[verifier::external_body]
pub(crate) fn fmt_rfc3339(ts: i64) -> (r: String)
    requires
        chrono_in_range(ts),
    ensures
        r@ == rfc3339_text_of(ts),
{
    match chrono::DateTime::<chrono::Utc>::from_timestamp(ts, 0) {
        Some(d) => d.to_rfc3339(),
        None => String::new(),
    }
}

/// What `base64::decode_config` yields under each alphabet: a function of
/// the alphabet and the text alone.
pub uninterp spec fn b64_bytes_of(f: B64Flavor, s: Seq<char>) -> Option<Seq<u8>>;

/// Relies on `base64::decode_config` with the named configuration
/// constants; the result depends on the configuration and the text alone.
#[verifier::external_body]
pub(crate) fn b64_decode(value: &str, flavor: B64Flavor) -> (r: Option<Vec<u8>>)
    ensures
        r is Some <==> b64_bytes_of(flavor, value@) is Some,
        r matches Some(v) ==> b64_bytes_of(flavor, value@) == Some(v@),
{
    let cfg = match flavor {
        B64Flavor::Bcrypt => base64::BCRYPT,
        B64Flavor::BinHex => base64::BINHEX,
        B64Flavor::Crypt => base64::CRYPT,
        B64Flavor::ImapMutf7 => base64::IMAP_MUTF7,
        B64Flavor::Standard => base64::STANDARD,
        B64Flavor::StandardNoPad => base64::STANDARD_NO_PAD,
        B64Flavor::UrlSafe => base64::URL_SAFE,
        B64Flavor::UrlSafeNoPad => base64::URL_SAFE_NO_PAD,
    };
    base64::decode_config(value, cfg).ok()
}

/// What `base64::encode_config` yields under each alphabet: a function of
/// the alphabet and the bytes alone.
pub uninterp spec fn b64_text_of(f: B64Flavor, b: Seq<u8>) -> Seq<char>;

/// Relies on `base64::encode_config` with the named configuration
/// constants; the result depends on the configuration and the bytes alone.
#[verifier::external_body]
pub(crate) fn b64_encode(ir: &[u8], flavor: B64Flavor) -> (r: String)
    ensures
        r@ == b64_text_of(flavor, ir@),
{
    let cfg = match flavor {
        B64Flavor::Bcrypt => base64::BCRYPT,
        B64Flavor::BinHex => base64::BINHEX,
        B64Flavor::Crypt => base64::CRYPT,
        B64Flavor::ImapMutf7 => base64::IMAP_MUTF7,
        B64Flavor::Standard => base64::STANDARD,
        B64Flavor::StandardNoPad => base64::STANDARD_NO_PAD,
        B64Flavor::UrlSafe => base64::URL_SAFE,
        B64Flavor::UrlSafeNoPad => base64::URL_SAFE_NO_PAD,
    };
    base64::encode_config(ir, cfg)
}

/// What `z85::decode` yields: a function of the text alone.
pub uninterp spec fn z85_bytes_of(s: Seq<char>) -> Option<Seq<u8>>;

/// Relies on `z85::decode`, which rejects, among other malformed inputs,
/// any whose byte length is not a multiple of five; the result depends on
/// the text alone.
#[verifier::external_body]
pub(crate) fn z85_decode(value: &str) -> (r: Option<Vec<u8>>)
    ensures
        r is Some <==> z85_bytes_of(value@) is Some,
        r matches Some(v) ==> z85_bytes_of(value@) == Some(v@),
{
    z85::decode(value.as_bytes()).ok()
}

/// What `z85::encode` yields: a function of the bytes alone.
pub uninterp spec fn z85_text_of(b: Seq<u8>) -> Seq<char>;

/// Relies on `z85::encode`, which accepts any byte length and pads a tail
/// shorter than four bytes; the result depends on the bytes alone.
#[verifier::external_body]
pub(crate) fn z85_encode(ir: &[u8]) -> (r: String)
    ensures
        r@ == z85_text_of(ir@),
{
    z85::encode(ir)
}

/// What `ascii85::encode` yields: a function of the bytes alone.
pub uninterp spec fn ascii85_text_of(b: Seq<u8>) -> Seq<char>;

/// Relies on `ascii85::encode`; the result depends on the bytes alone.
#[verifier::external_body]
pub(crate) fn ascii85_encode(ir: &[u8]) -> (r: String)
    ensures
        r@ == ascii85_text_of(ir@),
{
    ascii85::encode(ir)
}

/// What `base91::slice_decode` yields: a function of the input bytes
/// alone.  Decoding is total.
pub uninterp spec fn b91_bytes_of(s: Seq<u8>) -> Seq<u8>;

/// Relies on `base91::slice_decode`; the result depends on the bytes
/// alone.
#[verifier::external_body]
pub(crate) fn b91_decode(value: &[u8]) -> (r: Vec<u8>)
    ensures
        r@ == b91_bytes_of(value@),
{
    base91::slice_decode(value)
}

/// What `base91::slice_encode` yields: a function of the input bytes
/// alone.
pub uninterp spec fn b91_text_of(b: Seq<u8>) -> Seq<u8>;

/// Relies on `base91::slice_encode`, which emits bytes of the basE91
/// alphabet, all ASCII; the result depends on the bytes alone.
#[verifier::external_body]
pub(crate) fn b91_encode(ir: &[u8]) -> (r: Vec<u8>)
    ensures
        r@ == b91_text_of(ir@),
        forall|i: int| 0 <= i < r@.len() ==> r@[i] < 0x80,
{
    base91::slice_encode(ir)
}

/// Whether a byte passes through percent-encoding unchanged: the
/// alphanumerics and `-`, `.`, `_`, `~`.
pub open spec fn url_unreserved(b: u8) -> bool {
    (0x30 <= b && b <= 0x39) || (0x41 <= b && b <= 0x5A) || (0x61 <= b && b <= 0x7A) || b == 0x2D
        || b == 0x2E || b == 0x5F || b == 0x7E
}

/// Percent-encoding of a byte sequence: unreserved bytes pass through,
/// every other byte becomes `%HH` with upper-case digits.
pub open spec fn url_enc_spec(bs: Seq<u8>) -> Seq<u8>
    decreases bs.len(),
{
    if bs.len() == 0 {
        seq![]
    } else if url_unreserved(bs[0]) {
        seq![bs[0]] + url_enc_spec(bs.drop_first())
    } else {
        seq![
            0x25u8,
            hex_digit_char((bs[0] / 16) as u8, true),
            hex_digit_char((bs[0] % 16) as u8, true),
        ] + url_enc_spec(bs.drop_first())
    }
}

/// Percent-decoding of a byte sequence: `%` followed by two hexadecimal
/// digits becomes one byte; a malformed `%` sequence stays literal, the
/// `%` and a valid first digit being consumed together.
pub open spec fn url_dec_spec(bs: Seq<u8>) -> Seq<u8>
    decreases bs.len(),
{
    if bs.len() == 0 {
        seq![]
    } else if bs[0] != 0x25 {
        seq![bs[0]] + url_dec_spec(bs.drop_first())
    } else if bs.len() < 3 {
        bs
    } else if is_hex_digit(bs[1]) && is_hex_digit(bs[2]) {
        seq![(hex_digit_value(bs[1]) * 16 + hex_digit_value(bs[2])) as u8] + url_dec_spec(
            bs.skip(3),
        )
    } else if is_hex_digit(bs[1]) {
        seq![0x25u8, bs[1]] + url_dec_spec(bs.skip(2))
    } else {
        seq![0x25u8] + url_dec_spec(bs.skip(1))
    }
}

/// Relies on `urlencoding::encode_binary`: every byte but the alphanumerics
/// and `-`, `.`, `_`, `~` becomes `%HH` with upper-case digits.
#[verifier::external_body]
pub(crate) fn url_encode(ir: &[u8]) -> (r: String)
    ensures
        r@ == bytes_as_chars(url_enc_spec(ir@)),
{
    urlencoding::encode_binary(ir).to_string()
}

/// Relies on `urlencoding::decode`: percent sequences are decoded as
/// `url_dec_spec` states, a malformed one staying literal, and the call
/// fails exactly when the decoded bytes are not valid UTF-8.
#[verifier::external_body]
pub(crate) fn url_decode(value: &str) -> (r: Option<String>)
    ensures
        r is Some <==> valid_utf8(url_dec_spec(value.spec_bytes())),
        r matches Some(s) ==> s@ == decode_utf8(url_dec_spec(value.spec_bytes())),
{
    match urlencoding::decode(value) {
        Ok(s) => Some(s.into_owned()),
        Err(_) => None,
    }
}

/// The `hsl(..)` rendering of a colour: a function of the three channels
/// alone.
pub uninterp spec fn hsl_text_of(red: u8, green: u8, blue: u8) -> Seq<char>;

/// Relies on `hsl::HSL::from_rgb`; the conversion depends on the three
/// channels alone.
#[verifier::external_body]
pub(crate) fn hsl_text(red: u8, green: u8, blue: u8) -> (r: String)
    ensures
        r@ == hsl_text_of(red, green, blue),
{
    let v = hsl::HSL::from_rgb(&[red, green, blue]);
    format!("hsl({}, {}, {})", v.h, v.s, v.l)
}

/// Text behind the control sequence selecting a 24-bit foreground colour,
/// with the reset sequence after it.
pub open spec fn sgr_fg_rgb_text(red: u8, green: u8, blue: u8, text: Seq<char>) -> Seq<char> {
    "\u{1b}[38;2;"@ + crate::common::dec_chars(red as nat) + ";"@ + crate::common::dec_chars(
        green as nat,
    ) + ";"@ + crate::common::dec_chars(blue as nat) + "m"@ + text + "\u{1b}[0m"@
}

/// Text behind the control sequence selecting a fixed 256-colour palette
/// entry, with the reset sequence after it.
pub open spec fn sgr_fg_fixed_text(index: u8, text: Seq<char>) -> Seq<char> {
    "\u{1b}[38;5;"@ + crate::common::dec_chars(index as nat) + "m"@ + text + "\u{1b}[0m"@
}

/// Relies on `ansi_term::Style`, `Colour::RGB` and `paint`: with only a
/// foreground set, the painted string is the 24-bit foreground control
/// sequence, the text, and the reset sequence.
#[verifier::external_body]
pub(crate) fn paint_fg_rgb(red: u8, green: u8, blue: u8, text: &str) -> (r: String)
    ensures
        r@ == sgr_fg_rgb_text(red, green, blue, text@),
{
    ansi_term::Style::default().fg(ansi_term::Colour::RGB(red, green, blue)).paint(
        text,
    ).to_string()
}

/// Relies on `ansi_term::Style`, `Colour::Fixed` and `paint`: with only a
/// foreground set, the painted string is the palette foreground control
/// sequence, the text, and the reset sequence.
#[verifier::external_body]
pub(crate) fn paint_fg_fixed(index: u8, text: &str) -> (r: String)
    ensures
        r@ == sgr_fg_fixed_text(index, text@),
{
    ansi_term::Style::default().fg(ansi_term::Colour::Fixed(index)).paint(text).to_string()
}

} // verus!
