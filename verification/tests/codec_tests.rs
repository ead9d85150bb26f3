use ir_convert::common::{
    B64Flavor, Base2_16, Base64, Base85, Base91, ByteList, CodecError, Colour, DateTime,
    FixedFloat, FixedInt, TimeFormat, UUID, Unicode8, UnicodeNames, UrlDecode, UrlEncode,
    Variant,
};
use ir_convert::common::IpV4;
use ir_convert::common::IpV6;
use ir_convert::common::EscapedString;
use ir_convert::escape;
use ir_convert::endian::Endian;
use ir_convert::endian::Endianness as EndianClass;
use ir_convert::fromir::{Endianness, FromIR};
use ir_convert::toir::ToIR;

fn base_range(lo: u8) -> Vec<Variant> {
    let mut v = Vec::new();
    let mut b = lo;
    while b <= 16 {
        v.push(Variant::Base(b));
        b += 1;
    }
    v
}

#[test]
fn radix_inference_ff_is_base_16_only() {
    assert_eq!(Base2_16::identify("FF"), Some(vec![Variant::Base(16)]));
}

#[test]
fn radix_inference_77_is_base_8_through_16() {
    assert_eq!(Base2_16::identify("77"), Some(base_range(8)));
}

#[test]
fn radix_inference_19_is_base_10_through_16() {
    assert_eq!(Base2_16::identify("19"), Some(base_range(10)));
}

#[test]
fn radix_inference_1_is_every_base() {
    assert_eq!(Base2_16::identify("1"), Some(base_range(2)));
}

#[test]
fn radix_inference_g_is_nothing() {
    assert_eq!(Base2_16::identify("G"), None);
}

#[test]
fn radix_inference_empty_is_every_base() {
    assert_eq!(Base2_16::identify(""), Some(base_range(2)));
}

#[test]
fn radix_prefixes_pin_the_base() {
    assert_eq!(Base2_16::identify("0b101"), Some(vec![Variant::Base(2)]));
    assert_eq!(Base2_16::identify("0o17"), Some(vec![Variant::Base(8)]));
    assert_eq!(Base2_16::identify("0x2A"), Some(vec![Variant::Base(16)]));
}

#[test]
fn base_decode_strips_prefixes_and_checks_digits() {
    assert_eq!(Base2_16::decode("0x2A", Variant::Base(16)), Ok(vec![42]));
    assert_eq!(Base2_16::decode("123", Variant::Base(10)), Ok(vec![123]));
    assert_eq!(Base2_16::decode("100", Variant::Base(2)), Ok(vec![4]));
    assert_eq!(Base2_16::decode("9", Variant::Base(8)), Err(CodecError::InvalidDigit));
    assert_eq!(Base2_16::decode("zz", Variant::Base(16)), Err(CodecError::InvalidDigit));
    assert_eq!(Base2_16::decode("1", Variant::Base(17)), Err(CodecError::VariantMismatch));
}

#[test]
fn base_encode_renders_minimal_uppercase_digits() {
    let encoded = <Base2_16 as FromIR>::encode(&[255], Variant::Base(16)).unwrap();
    assert_eq!(encoded, "FF");
    let encoded2 = <Base2_16 as FromIR>::encode(&[0xE8, 0x03], Variant::Base(10)).unwrap();
    assert_eq!(encoded2, "1000");
    let zero = <Base2_16 as FromIR>::encode(&[0], Variant::Base(10)).unwrap();
    assert_eq!(zero, "0");
}

#[test]
fn base_text_round_trips_without_leading_zeros() {
    let ir = Base2_16::decode("1A3F", Variant::Base(16)).unwrap();
    assert_eq!(
        <Base2_16 as FromIR>::encode(&ir, Variant::Base(16)).unwrap(),
        "1A3F"
    );
    let ir7 = Base2_16::decode("65301", Variant::Base(7)).unwrap();
    assert_eq!(
        <Base2_16 as FromIR>::encode(&ir7, Variant::Base(7)).unwrap(),
        "65301"
    );
}

#[test]
fn fixed_int_decodes_decimals_and_two_complements() {
    let i8v = Variant::Int { signed: true, bytes: 1 };
    let u8v = Variant::Int { signed: false, bytes: 1 };
    assert_eq!(FixedInt::decode("-1", i8v), Ok(vec![0xFF]));
    assert_eq!(FixedInt::decode("-128", i8v), Ok(vec![0x80]));
    assert_eq!(FixedInt::decode("127", i8v), Ok(vec![0x7F]));
    assert_eq!(FixedInt::decode("255", u8v), Ok(vec![0xFF]));
    let i16v = Variant::Int { signed: true, bytes: 2 };
    assert_eq!(FixedInt::decode("-32768", i16v), Ok(vec![0x00, 0x80]));
}

#[test]
fn fixed_int_handles_the_widest_widths() {
    let i128v = Variant::Int { signed: true, bytes: 16 };
    let u128v = Variant::Int { signed: false, bytes: 16 };
    assert_eq!(FixedInt::decode("-1", i128v), Ok(vec![0xFF; 16]));
    assert_eq!(
        FixedInt::decode("340282366920938463463374607431768211455", u128v),
        Ok(vec![0xFF; 16])
    );
    assert_eq!(
        FixedInt::decode("340282366920938463463374607431768211456", u128v),
        Err(CodecError::InvalidDigit)
    );
    assert_eq!(<FixedInt as FromIR>::encode(&vec![0xFF; 16], i128v).unwrap(), "-1");
    assert_eq!(
        <FixedInt as FromIR>::encode(&vec![0xFF; 16], u128v).unwrap(),
        "340282366920938463463374607431768211455"
    );
}

#[test]
fn fixed_int_falls_back_to_base_inference() {
    // 300 is no u8 decimal; its smallest inferred base is 4, and 300 in
    // base 4 is 48
    let u8v = Variant::Int { signed: false, bytes: 1 };
    assert_eq!(FixedInt::decode("300", u8v), Ok(vec![48]));
    assert_eq!(FixedInt::decode("hello", u8v), Err(CodecError::InvalidDigit));
}

#[test]
fn fixed_int_identify_filters_by_size() {
    // FF needs one byte, so every width is offered
    let vs = FixedInt::identify("FF").unwrap();
    assert_eq!(vs.len(), 10);
    assert_eq!(vs[0], Variant::Int { signed: false, bytes: 1 });
    assert_eq!(vs[1], Variant::Int { signed: true, bytes: 1 });
    // a negative decimal offers the signed widths whose range holds it
    let neg = FixedInt::identify("-200").unwrap();
    assert_eq!(
        neg,
        vec![
            Variant::Int { signed: true, bytes: 2 },
            Variant::Int { signed: true, bytes: 4 },
            Variant::Int { signed: true, bytes: 8 },
            Variant::Int { signed: true, bytes: 16 },
        ]
    );
    assert_eq!(FixedInt::identify("what?"), None);
}

#[test]
fn fixed_int_encode_renders_signed_and_unsigned() {
    let i8v = Variant::Int { signed: true, bytes: 1 };
    let u8v = Variant::Int { signed: false, bytes: 1 };
    assert_eq!(<FixedInt as FromIR>::encode(&[0xFF], i8v).unwrap(), "-1");
    assert_eq!(<FixedInt as FromIR>::encode(&[0xFF], u8v).unwrap(), "255");
    let i16v = Variant::Int { signed: true, bytes: 2 };
    assert_eq!(<FixedInt as FromIR>::encode(&[0x00, 0x80], i16v).unwrap(), "-32768");
}

#[test]
fn fixed_float_variants_follow_the_width() {
    assert_eq!(
        <FixedFloat as FromIR>::variants(&[0, 0]),
        Some(vec![Variant::FloatParts(2)])
    );
    assert_eq!(<FixedFloat as FromIR>::variants(&[0, 0, 0]), None);
}

#[test]
fn fixed_float_splits_the_bit_pattern() {
    let bytes = 1.0f32.to_le_bytes();
    assert_eq!(
        FixedFloat::to_mes_string(&bytes),
        "Mantissa: 0(0), exponent: 127(1111111), sign: 1(1)"
    );
    let neg = (-2.0f64).to_le_bytes();
    assert_eq!(
        FixedFloat::to_mes_string(&neg),
        "Mantissa: 0(0), exponent: 1024(10000000000), sign: -1(11111111)"
    );
}

#[test]
fn datetime_round_trips_the_epoch() {
    let vs = DateTime::identify("Thu, 1 Jan 1970 00:00:00 +0000").unwrap();
    assert_eq!(vs[0], Variant::Time { bytes: 4, format: TimeFormat::Rfc2822 });
    let v4 = Variant::Time { bytes: 4, format: TimeFormat::Rfc2822 };
    assert_eq!(DateTime::decode("Thu, 1 Jan 1970 00:00:00 +0000", v4), Ok(vec![0, 0, 0, 0]));
    assert_eq!(
        <DateTime as FromIR>::encode(&[0, 0, 0, 0], v4).unwrap(),
        "Thu, 1 Jan 1970 00:00:00 +0000"
    );
    let v3339 = Variant::Time { bytes: 8, format: TimeFormat::Rfc3339 };
    assert_eq!(
        DateTime::decode("1970-01-01T00:00:01+00:00", v3339),
        Ok(vec![1, 0, 0, 0, 0, 0, 0, 0])
    );
    assert_eq!(
        <DateTime as FromIR>::encode(&[1, 0, 0, 0, 0, 0, 0, 0], v3339).unwrap(),
        "1970-01-01T00:00:01+00:00"
    );
}

#[test]
fn datetime_negative_timestamps_wrap_little_endian() {
    let v4 = Variant::Time { bytes: 4, format: TimeFormat::Rfc2822 };
    assert_eq!(
        DateTime::decode("Wed, 31 Dec 1969 23:59:59 +0000", v4),
        Ok(vec![0xFF, 0xFF, 0xFF, 0xFF])
    );
}

#[test]
fn datetime_rejects_out_of_range_buffers() {
    assert_eq!(
        <DateTime as FromIR>::variants(&[0xFF, 0xFF, 0xFF, 0xFF, 0xFF, 0xFF, 0xFF, 0x7F]),
        None
    );
}

#[test]
fn uuid_round_trips_through_its_value() {
    let text = "67e55044-10b1-426f-9247-bb680e5fe0c8";
    let vs = UUID::identify(text);
    assert_eq!(vs, Some(vec![Variant::Plain]));
    let ir = UUID::decode(text, Variant::Plain).unwrap();
    assert_eq!(ir.len(), 16);
    // decoding yields the 128-bit value least significant byte first, while
    // rendering reads the buffer in field order, so the text comes back
    // byte-reversed
    let back = <UUID as FromIR>::encode(&ir, Variant::Plain).unwrap();
    assert_eq!(back, "c8e05f0e-68bb-4792-6f42-b1104450e567");
    let reversed: Vec<u8> = ir.iter().rev().copied().collect();
    assert_eq!(
        <UUID as FromIR>::encode(&reversed, Variant::Plain).unwrap(),
        text
    );
    assert_eq!(UUID::identify("not a uuid"), None);
    assert_eq!(<UUID as FromIR>::variants(&[1, 2, 3]), None);
}

#[test]
fn base64_standard_round_trip() {
    let vs = Base64::identify("aGk=").unwrap();
    assert!(vs.contains(&Variant::B64(B64Flavor::Standard)));
    assert_eq!(
        Base64::decode("aGk=", Variant::B64(B64Flavor::Standard)),
        Ok(b"hi".to_vec())
    );
    assert_eq!(
        <Base64 as FromIR>::encode(b"hi", Variant::B64(B64Flavor::Standard)).unwrap(),
        "aGk="
    );
    assert_eq!(
        Base64::decode("###", Variant::B64(B64Flavor::Standard)),
        Err(CodecError::Lex)
    );
}

#[test]
fn base64_url_safe_uses_its_own_alphabet() {
    let bytes = vec![0xFB, 0xEF, 0xBE];
    assert_eq!(
        <Base64 as FromIR>::encode(&bytes, Variant::B64(B64Flavor::Standard)).unwrap(),
        "++++"
    );
    assert_eq!(
        <Base64 as FromIR>::encode(&bytes, Variant::B64(B64Flavor::UrlSafe)).unwrap(),
        "----"
    );
    assert_eq!(
        Base64::decode("----", Variant::B64(B64Flavor::UrlSafe)),
        Ok(bytes)
    );
}

#[test]
fn base85_z85_round_trip() {
    let bytes = vec![0x86, 0x4F, 0xD2, 0x6F, 0xB5, 0x59, 0xF7, 0x5B];
    assert_eq!(
        <Base85 as FromIR>::encode(&bytes, Variant::Z85Data).unwrap(),
        "HelloWorld"
    );
    assert_eq!(Base85::identify("HelloWorld"), Some(vec![Variant::Z85Data]));
    assert_eq!(Base85::decode("HelloWorld", Variant::Z85Data), Ok(bytes));
    assert_eq!(Base85::identify("abc"), None);
}

#[test]
fn base85_ascii85_rendering_is_delimited() {
    assert_eq!(
        <Base85 as FromIR>::encode(b"Man ", Variant::Ascii85Data).unwrap(),
        "<~9jqo^~>"
    );
}

#[test]
fn colour_hsl_rendering_reads_the_channels() {
    // the buffer is little-endian: blue, green, red; pure red is hue zero,
    // full saturation, half lightness
    assert_eq!(
        <Colour as FromIR>::encode(&[0, 0, 255], Variant::Hsl24).unwrap(),
        "hsl(0, 1, 0.5)"
    );
}

#[test]
fn colour_swatches_carry_terminal_codes() {
    assert_eq!(
        <Colour as FromIR>::encode(&[5], Variant::Terminal8).unwrap(),
        "\u{1b}[38;5;5m\u{2B1B}\u{1b}[0m"
    );
    assert_eq!(
        <Colour as FromIR>::encode(&[1, 2, 3], Variant::Colour24).unwrap(),
        "\u{1b}[38;2;3;2;1m\u{2B1B}\u{1b}[0m"
    );
}

#[test]
fn base91_round_trip() {
    assert_eq!(Base91::decode("fPNKd", Variant::Plain), Ok(b"test".to_vec()));
    assert_eq!(<Base91 as FromIR>::encode(b"test", Variant::Plain).unwrap(), "fPNKd");
}

#[test]
fn url_encode_and_decode() {
    assert_eq!(
        <UrlEncode as FromIR>::encode(b"a b/c", Variant::Plain).unwrap(),
        "a%20b%2Fc"
    );
    assert_eq!(
        <UrlDecode as FromIR>::encode(b"a%20b", Variant::Legacy).unwrap(),
        "a b"
    );
    // the RFC 3986 reading first turns + into %20
    assert_eq!(
        <UrlDecode as FromIR>::encode(b"a+b", Variant::Rfc3986).unwrap(),
        "a b"
    );
    assert_eq!(
        <UrlDecode as FromIR>::encode(b"a+b", Variant::Legacy).unwrap(),
        "a+b"
    );
    assert_eq!(<UrlDecode as FromIR>::variants(&[0xFF]), None);
}

#[test]
fn byte_list_reads_the_bracketed_grammar() {
    assert_eq!(ByteList::identify("[1, 2, 255]"), Some(vec![Variant::Plain]));
    assert_eq!(ByteList::decode("[1, 2, 255]", Variant::Plain), Ok(vec![1, 2, 255]));
    assert_eq!(ByteList::decode("[7,]", Variant::Plain), Ok(vec![7]));
    assert_eq!(ByteList::decode(" [ 0 , 9 ] ", Variant::Plain), Ok(vec![0, 9]));
    assert_eq!(ByteList::identify("[]"), None);
    assert_eq!(ByteList::identify("[256]"), None);
    assert_eq!(ByteList::identify("[01]"), None);
    assert_eq!(ByteList::identify("1,2"), None);
}

#[test]
fn byte_list_renders_a_counted_listing() {
    assert_eq!(
        <ByteList as FromIR>::encode(&[1, 2], Variant::Plain).unwrap(),
        "(2 byte(s)) [1, 2]"
    );
    assert_eq!(
        <ByteList as FromIR>::encode(&[], Variant::Plain).unwrap(),
        "(0 byte(s)) []"
    );
}

#[test]
fn ipv4_reads_and_renders_dotted_quads() {
    assert_eq!(IpV4::identify("1.2.3.4"), Some(vec![Variant::WithoutPort]));
    assert_eq!(IpV4::decode("1.2.3.4", Variant::WithoutPort), Ok(vec![4, 3, 2, 1]));
    assert_eq!(IpV4::identify("1.2.3.4:80"), Some(vec![Variant::WithPort]));
    assert_eq!(IpV4::decode("1.2.3.4:80", Variant::WithPort), Ok(vec![4, 3, 2, 1, 80, 0]));
    assert_eq!(IpV4::identify("1.2.3"), None);
    assert_eq!(IpV4::identify("1.2.3.256"), None);
    assert_eq!(IpV4::identify("01.2.3.4"), None);
    assert_eq!(IpV4::identify("1.2.3.4:65536"), None);
    assert_eq!(
        <IpV4 as FromIR>::encode(&[4, 3, 2, 1], Variant::WithoutPort).unwrap(),
        "1.2.3.4"
    );
    assert_eq!(
        <IpV4 as FromIR>::encode(&[4, 3, 2, 1, 80, 0], Variant::WithPort).unwrap(),
        "1.2.3.4:80"
    );
}

#[test]
fn ipv6_reads_group_texts() {
    assert_eq!(IpV6::identify("::1"), Some(vec![Variant::WithoutPort]));
    let mut loopback = vec![0u8; 16];
    loopback[0] = 1;
    assert_eq!(IpV6::decode("::1", Variant::WithoutPort), Ok(loopback.clone()));
    assert_eq!(IpV6::decode("0:0:0:0:0:0:0:1", Variant::WithoutPort), Ok(loopback.clone()));
    // an embedded dotted quad stands for the last two groups
    let mapped = IpV6::decode("::ffff:1.2.3.4", Variant::WithoutPort).unwrap();
    assert_eq!(&mapped[0..4], &[4, 3, 2, 1]);
    assert_eq!(mapped[4], 0xFF);
    assert_eq!(mapped[5], 0xFF);
    assert_eq!(IpV6::identify("1:2:3"), None);
    assert_eq!(IpV6::identify("1::2::3"), None);
    assert_eq!(IpV6::identify("12345::"), None);
    assert_eq!(IpV6::identify("1:"), None);
    // a bracketed address carries a port
    assert_eq!(IpV6::identify("[::1]:80"), Some(vec![Variant::WithPort]));
    let mut socket = loopback.clone();
    socket.push(80);
    socket.push(0);
    assert_eq!(IpV6::decode("[::1]:80", Variant::WithPort), Ok(socket.clone()));
    assert_eq!(
        <IpV6 as FromIR>::encode(&socket, Variant::WithPort).unwrap(),
        "[::1]:80"
    );
}

#[test]
fn ipv6_renders_with_zero_run_elision() {
    let mut loopback = vec![0u8; 16];
    loopback[0] = 1;
    assert_eq!(
        <IpV6 as FromIR>::encode(&loopback, Variant::WithoutPort).unwrap(),
        "::1"
    );
    assert_eq!(
        <IpV6 as FromIR>::encode(&vec![0u8; 16], Variant::WithoutPort).unwrap(),
        "::"
    );
    // groups come back in lower-case hexadecimal, the longest zero run
    // elided and the leftmost chosen on a tie
    let ir = IpV6::decode("2001:db8:0:0:1:0:0:1", Variant::WithoutPort).unwrap();
    assert_eq!(
        <IpV6 as FromIR>::encode(&ir, Variant::WithoutPort).unwrap(),
        "2001:db8::1:0:0:1"
    );
    // a single zero group stays written out
    let ir2 = IpV6::decode("1:2:3:4:5:6:0:8", Variant::WithoutPort).unwrap();
    assert_eq!(
        <IpV6 as FromIR>::encode(&ir2, Variant::WithoutPort).unwrap(),
        "1:2:3:4:5:6:0:8"
    );
}

#[test]
fn unicode8_decodes_text_and_names_characters() {
    assert_eq!(Unicode8::decode("hi", Variant::Plain), Ok(b"hi".to_vec()));
    assert_eq!(
        <Unicode8 as FromIR>::variants(b"hi"),
        Some(vec![Variant::LiteralText, Variant::NamedChars])
    );
    assert_eq!(
        <Unicode8 as FromIR>::encode(b"hi", Variant::LiteralText).unwrap(),
        "hi"
    );
    assert_eq!(
        <Unicode8 as FromIR>::encode(b"hi", Variant::NamedChars).unwrap(),
        "[LATIN SMALL LETTER H 'h', LATIN SMALL LETTER I 'i', "
    );
    assert_eq!(<Unicode8 as FromIR>::variants(&[0xFF]), None);
}

#[test]
fn unicode_names_resolve_to_utf8() {
    assert_eq!(UnicodeNames::identify("LATIN SMALL LETTER A"), Some(vec![Variant::Plain]));
    assert_eq!(
        UnicodeNames::decode("LATIN SMALL LETTER A", Variant::Plain),
        Ok(vec![b'a'])
    );
    assert_eq!(UnicodeNames::identify("NOT A REAL NAME AT ALL"), None);
}

#[test]
fn unicode_names_reject_a_leading_hyphen() {
    // no character's name begins with a hyphen, and the lookup is never
    // reached with one
    assert_eq!(UnicodeNames::identify("-"), None);
    assert_eq!(UnicodeNames::identify("-DASH"), None);
    assert_eq!(UnicodeNames::decode("-", Variant::Plain), Err(CodecError::Lex));
    assert_eq!(
        ir_convert::escape::EscapeSequence::decode("\\N{-}", escape::Variant::Python),
        Err(CodecError::Lex)
    );
    assert_eq!(
        ir_convert::escape::EscapeSequence::decode("\\N{-X}", escape::Variant::Python),
        Err(CodecError::Lex)
    );
}

#[test]
fn unicode_names_keep_interior_hyphens() {
    // a hyphen inside a name is ordinary; this name names U+1180
    assert_eq!(
        UnicodeNames::decode("HANGUL JUNGSEONG O-E", Variant::Plain),
        Ok(vec![0xE1, 0x86, 0x80])
    );
}

#[test]
fn escaped_string_codec_round_trips() {
    let vs = EscapedString::identify("\\x41").unwrap();
    assert_eq!(
        vs,
        vec![
            Variant::Escaped(escape::Variant::C),
            Variant::Escaped(escape::Variant::Python),
        ]
    );
    assert_eq!(
        EscapedString::decode("\\x41", Variant::Escaped(escape::Variant::C)),
        Ok(vec![0x41])
    );
    assert_eq!(
        <EscapedString as FromIR>::encode(&[0, 10, 65], Variant::Plain).unwrap(),
        "\\x00\\nA"
    );
    // the Python dialect accepts what the C dialect rejects
    assert_eq!(
        EscapedString::identify("\\x4"),
        Some(vec![Variant::Escaped(escape::Variant::C)])
    );
}

#[test]
fn colour_reads_html_colours() {
    assert_eq!(Colour::identify("#00FF00"), Some(vec![Variant::Plain]));
    assert_eq!(Colour::identify("#12345"), None);
    assert_eq!(Colour::identify("00FF00"), None);
    // the intermediate bytes are the shortest little-endian magnitude
    assert_eq!(Colour::decode("#00FF00", Variant::Plain), Ok(vec![0x00, 0xFF]));
    assert_eq!(Colour::decode("#123456", Variant::Plain), Ok(vec![0x56, 0x34, 0x12]));
}

#[test]
fn colour_renders_rgb_and_scales_channels() {
    assert_eq!(
        <Colour as FromIR>::encode(&[3, 2, 1], Variant::Rgb24).unwrap(),
        "rgb(1, 2, 3)"
    );
    assert_eq!(Colour::scale(3, 4), 255);
    assert_eq!(Colour::scale(1, 4), 85);
    assert_eq!(Colour::scale(0, 8), 0);
    assert_eq!(Colour::scale(7, 8), 255);
    assert_eq!(Colour::_8_to_24(0xFF), (255, 255, 255));
    assert_eq!(Colour::_8_to_24(0x00), (0, 0, 0));
    assert_eq!(Colour::_16_to_24(0xFFFF), (255, 255, 255));
}

#[test]
fn colour_variant_lists_follow_the_length() {
    assert_eq!(
        <Colour as FromIR>::variants(&[1]),
        Some(vec![Variant::Colour8, Variant::Grey8, Variant::Terminal8])
    );
    assert_eq!(
        <Colour as FromIR>::variants(&[1, 2, 3]),
        Some(vec![Variant::Colour24, Variant::Rgb24, Variant::Hsl24])
    );
    assert_eq!(<Colour as FromIR>::variants(&[1, 2, 3, 4, 5]), None);
}

#[test]
fn endianness_classes_match_the_codecs() {
    assert_eq!(<Base2_16 as Endian>::endianness(), EndianClass::Default);
    assert_eq!(<FixedInt as Endian>::endianness(), EndianClass::Dual);
    assert_eq!(<Colour as Endian>::endianness(), EndianClass::Dual);
    assert_eq!(<FixedInt as FromIR>::endianness(), Endianness::Dual);
    assert_eq!(<Base64 as FromIR>::endianness(), Endianness::Default);
}

#[test]
fn wrong_variants_are_contract_violations() {
    assert_eq!(
        Base2_16::decode("1", Variant::Plain),
        Err(CodecError::VariantMismatch)
    );
    assert_eq!(
        <ByteList as FromIR>::encode(&[1], Variant::Z85Data),
        Err(CodecError::VariantMismatch)
    );
    assert_eq!(
        Base85::decode("x", Variant::Ascii85Data),
        Err(CodecError::VariantMismatch)
    );
}
