//! The escape-sequence codec: a restartable lexer over escaped text in the C
//! and Python dialects, and the encoder producing the default escaped form.
//!
//! The lexer walks the UTF-8 bytes of the input one escape unit at a time:
//! a literal byte, a two-character special escape, `\xHH` (a digit run in
//! the C dialect, exactly two digits in the Python dialect), `\uHHHH`,
//! `\UHHHHHHHH`, a named character `\N{NAME}` (Python only), or an octal
//! escape of up to three digits.  On a malformed escape the lexer stops and
//! abandons the remaining input.

use vstd::prelude::*;
use vstd::string::{StringSliceAdditionalSpecFns, StrSliceExecFns};
use vstd::utf8::{encode_scalar, is_scalar, valid_utf8, decode_utf8};
use crate::common::{CodecError, is_hex_digit, is_oct_digit, hex_digit_value, hex_digit_char};
use crate::radix::{pow_n, lemma_pow_n_le};

verus! {

/// An escape dialect: the rule-set governing which escape forms are legal
/// and how many digits they take.
#[derive(Clone, Copy, Debug, PartialEq, Eq, Structural)]
pub enum Variant {
    C,
    Python,
}

/// The byte a two-character special escape `\<c>` stands for, if `c` forms
/// one.
pub open spec fn special_byte(c: u8) -> Option<u8> {
    if c == 0x5C {
        Some(0x5C)
    } else if c == 0x27 {
        Some(0x27)
    } else if c == 0x22 {
        Some(0x22)
    } else if c == 0x61 {
        Some(7)
    } else if c == 0x62 {
        Some(8)
    } else if c == 0x66 {
        Some(12)
    } else if c == 0x6E {
        Some(10)
    } else if c == 0x72 {
        Some(13)
    } else if c == 0x74 {
        Some(9)
    } else if c == 0x76 {
        Some(11)
    } else {
        None
    }
}

/// How many leading bytes of `s` are ASCII hexadecimal digits.
pub open spec fn hex_run(s: Seq<u8>) -> int
    decreases s.len(),
{
    if s.len() == 0 || !is_hex_digit(s[0]) {
        0
    } else {
        1 + hex_run(s.drop_first())
    }
}

/// How many leading bytes of `s` are ASCII octal digits.
pub open spec fn oct_run(s: Seq<u8>) -> int
    decreases s.len(),
{
    if s.len() == 0 || !is_oct_digit(s[0]) {
        0
    } else {
        1 + oct_run(s.drop_first())
    }
}

/// The value of a most-significant-first sequence of hexadecimal digit
/// characters.
pub open spec fn hex_seq_val(ds: Seq<u8>) -> nat
    decreases ds.len(),
{
    if ds.len() == 0 {
        0
    } else {
        (hex_seq_val(ds.drop_last()) * 16 + hex_digit_value(ds.last())) as nat
    }
}

/// The value of a most-significant-first sequence of octal digit
/// characters.
pub open spec fn oct_seq_val(ds: Seq<u8>) -> nat
    decreases ds.len(),
{
    if ds.len() == 0 {
        0
    } else {
        oct_seq_val(ds.drop_last()) * 8 + (ds.last() - 0x30) as nat
    }
}

/// The bytes a run of hexadecimal digit characters denotes: the run is
/// zero-padded on the left to an even number of digits and every pair
/// becomes one byte, so a run of `k` digits yields `k/2` bytes rounded up.
pub open spec fn hex_pair_bytes(ds: Seq<u8>) -> Seq<u8>
    decreases ds.len(),
{
    if ds.len() == 0 {
        seq![]
    } else if ds.len() % 2 == 1 {
        seq![hex_digit_value(ds[0])] + hex_pair_bytes(ds.drop_first())
    } else {
        seq![(hex_digit_value(ds[0]) * 16 + hex_digit_value(ds[1])) as u8] + hex_pair_bytes(
            ds.skip(2),
        )
    }
}

/// The position of the first `}` at or after `i`, or -1 if there is none.
pub open spec fn close_idx(s: Seq<u8>, i: int) -> int
    decreases s.len() - i
        when 0 <= i <= s.len()
{
    if i >= s.len() {
        -1
    } else if s[i] == 0x7D {
        i
    } else {
        close_idx(s, i + 1)
    }
}

/// What `unicode_names2::character` resolves a Unicode character name to.
pub uninterp spec fn unicode_char_of(name: Seq<char>) -> Option<char>;

/// One step of the lexer on the remaining input `s`: the number of bytes
/// the next token consumes and the bytes it decodes to, or `None` on a
/// malformed escape.
pub open spec fn step(s: Seq<u8>, d: Variant) -> Option<(int, Seq<u8>)> {
    if s.len() == 0 {
        None
    } else if s[0] != 0x5C {
        Some((1int, seq![s[0]]))
    } else if s.len() == 1 {
        None
    } else if special_byte(s[1]) is Some {
        Some((2int, seq![special_byte(s[1])->Some_0]))
    } else if s[1] == 0x78 {
        // \x
        let k = hex_run(s.skip(2));
        match d {
            Variant::C => if k == 0 {
                None
            } else {
                Some((2 + k, hex_pair_bytes(s.subrange(2, 2 + k))))
            },
            Variant::Python => if k >= 2 {
                Some((4int, seq![(hex_digit_value(s[2]) * 16 + hex_digit_value(s[3])) as u8]))
            } else {
                None
            },
        }
    } else if s[1] == 0x75 {
        // \u
        let k = hex_run(s.skip(2));
        if k == 4 {
            let v = hex_seq_val(s.subrange(2, 6)) as u32;
            if is_scalar(v) {
                Some((6int, encode_scalar(v)))
            } else {
                None
            }
        } else {
            None
        }
    } else if s[1] == 0x55 {
        // \U
        let k = hex_run(s.skip(2));
        if k == 8 {
            let v = hex_seq_val(s.subrange(2, 10)) as u32;
            if is_scalar(v) {
                Some((10int, encode_scalar(v)))
            } else {
                None
            }
        } else {
            None
        }
    } else if s[1] == 0x4E {
        // \N{NAME}
        match d {
            Variant::C => None,
            Variant::Python => {
                if s.len() >= 3 && s[2] == 0x7B {
                    let j = close_idx(s, 3);
                    if j >= 0 {
                        let nb = s.subrange(3, j);
                        // no character's name begins with a hyphen; such a
                        // name never resolves
                        if nb.len() > 0 && nb[0] == 0x2D {
                            None
                        } else if valid_utf8(nb) {
                            match unicode_char_of(decode_utf8(nb)) {
                                Some(c) => Some((j + 1, encode_scalar(c as u32))),
                                None => None,
                            }
                        } else {
                            None
                        }
                    } else {
                        None
                    }
                } else {
                    None
                }
            },
        }
    } else if 0x30 <= s[1] && s[1] <= 0x37 {
        // octal, at most three digits including the first; the value is
        // taken modulo 256
        let run = oct_run(s.skip(1));
        let k = if run > 3 {
            3int
        } else {
            run
        };
        Some((1 + k, seq![(oct_seq_val(s.subrange(1, 1 + k)) % 256) as u8]))
    } else {
        None
    }
}

/// A hexadecimal digit run is no longer than the sequence.
pub proof fn lemma_hex_run_bound(s: Seq<u8>)
    ensures
        0 <= hex_run(s) <= s.len(),
    decreases s.len(),
{
    if s.len() > 0 && is_hex_digit(s[0]) {
        lemma_hex_run_bound(s.drop_first());
    }
}

/// An octal digit run is no longer than the sequence.
pub proof fn lemma_oct_run_bound(s: Seq<u8>)
    ensures
        0 <= oct_run(s) <= s.len(),
    decreases s.len(),
{
    if s.len() > 0 && is_oct_digit(s[0]) {
        lemma_oct_run_bound(s.drop_first());
    }
}

/// Every byte of a hexadecimal run is a hexadecimal digit.
pub proof fn lemma_hex_run_digits(s: Seq<u8>)
    ensures
        forall|i: int| 0 <= i < hex_run(s) ==> is_hex_digit(s[i]),
    decreases s.len(),
{
    lemma_hex_run_bound(s);
    if s.len() > 0 && is_hex_digit(s[0]) {
        lemma_hex_run_digits(s.drop_first());
        assert forall|i: int| 0 <= i < hex_run(s) implies is_hex_digit(s[i]) by {
            if i > 0 {
                assert(is_hex_digit(s.drop_first()[i - 1]));
            }
        }
    }
}

/// A found closing brace lies within the sequence, at or after the start,
/// and is the first one.
pub proof fn lemma_close_idx(s: Seq<u8>, i: int)
    requires
        0 <= i <= s.len(),
    ensures
        close_idx(s, i) == -1 || (i <= close_idx(s, i) < s.len() && s[close_idx(s, i)] == 0x7D),
        close_idx(s, i) >= 0 ==> forall|m: int| i <= m < close_idx(s, i) ==> s[m] != 0x7D,
        close_idx(s, i) == -1 ==> forall|m: int| i <= m < s.len() ==> s[m] != 0x7D,
    decreases s.len() - i,
{
    if i < s.len() && s[i] != 0x7D {
        lemma_close_idx(s, i + 1);
    }
}

/// A successful lexer step consumes at least one byte and at most the rest
/// of the input.
pub proof fn lemma_step_bounds(s: Seq<u8>, d: Variant)
    requires
        step(s, d) is Some,
    ensures
        1 <= step(s, d)->Some_0.0 <= s.len(),
{
    lemma_hex_run_bound(s.skip(2));
    if s.len() >= 1 {
        lemma_oct_run_bound(s.skip(1));
    }
    if s.len() >= 3 {
        lemma_close_idx(s, 3);
    }
}

/// Decoding escaped text: the concatenation of the bytes of each token, or
/// `None` as soon as one step fails.
pub open spec fn esc_decode(s: Seq<u8>, d: Variant) -> Option<Seq<u8>>
    decreases s.len(),
{
    if s.len() == 0 {
        Some(seq![])
    } else {
        match step(s, d) {
            None => None,
            Some(ko) => {
                if 1 <= ko.0 <= s.len() {
                    match esc_decode(s.skip(ko.0), d) {
                        Some(rest) => Some(ko.1 + rest),
                        None => None,
                    }
                } else {
                    None
                }
            },
        }
    }
}

/// The default escaped form of one byte: printable ASCII passes through,
/// backslash and both quotes take their two-character forms, the named
/// control characters take theirs, and every other byte becomes `\xHH`
/// with upper-case digits.
pub open spec fn escape_of(b: u8) -> Seq<u8> {
    if b == 0x5C {
        seq![0x5C, 0x5C]
    } else if b == 0x27 {
        seq![0x5C, 0x27]
    } else if b == 0x22 {
        seq![0x5C, 0x22]
    } else if 0x20 <= b && b <= 0x7E {
        seq![b]
    } else if b == 7 {
        seq![0x5C, 0x61]
    } else if b == 8 {
        seq![0x5C, 0x62]
    } else if b == 12 {
        seq![0x5C, 0x66]
    } else if b == 10 {
        seq![0x5C, 0x6E]
    } else if b == 13 {
        seq![0x5C, 0x72]
    } else if b == 9 {
        seq![0x5C, 0x74]
    } else if b == 11 {
        seq![0x5C, 0x76]
    } else {
        seq![0x5C, 0x78, hex_digit_char((b / 16) as u8, true), hex_digit_char((b % 16) as u8, true)]
    }
}

/// The default escaped form of a byte sequence.
pub open spec fn esc_encode(bs: Seq<u8>) -> Seq<u8>
    decreases bs.len(),
{
    if bs.len() == 0 {
        seq![]
    } else {
        escape_of(bs[0]) + esc_encode(bs.drop_first())
    }
}

/// The value of a run of hexadecimal digits is below 16 to its length.
pub proof fn lemma_hex_seq_val_bound(ds: Seq<u8>)
    requires
        forall|i: int| 0 <= i < ds.len() ==> is_hex_digit(ds[i]),
    ensures
        hex_seq_val(ds) < pow_n(16, ds.len()),
    decreases ds.len(),
{
    if ds.len() > 0 {
        assert(forall|i: int| 0 <= i < ds.drop_last().len() ==> is_hex_digit(ds.drop_last()[i]));
        lemma_hex_seq_val_bound(ds.drop_last());
        assert(is_hex_digit(ds.last()));
        assert(hex_digit_value(ds.last()) <= 15);
        let q = pow_n(16, (ds.len() - 1) as nat);
        assert(hex_seq_val(ds.drop_last()) * 16 + 15 < q * 16) by (nonlinear_arith)
            requires
                hex_seq_val(ds.drop_last()) < q,
        ;
        assert(pow_n(16, ds.len()) == 16 * q);
    }
}

/// One lexical unit consumed from escaped text.
#[derive(Debug, Clone)]
pub enum Escapes {
    /// A literal, unescaped byte.
    Literal(u8),
    /// The bytes of a hexadecimal digit run.
    Bytes(Vec<u8>),
    /// A single escaped byte.
    Byte(u8),
    /// An escaped Unicode character.
    Unicode(char),
    Backslash,
    SingleQuote,
    DoubleQuote,
    Bell,
    Backspace,
    FormFeed,
    LineFeed,
    CarriageReturn,
    HorizontalTab,
    VerticalTab,
}

/// The bytes one token decodes to.
pub open spec fn token_bytes(t: Escapes) -> Seq<u8> {
    match t {
        Escapes::Literal(b) => seq![b],
        Escapes::Bytes(v) => v@,
        Escapes::Byte(b) => seq![b],
        Escapes::Unicode(c) => encode_scalar(c as u32),
        Escapes::Backslash => seq![0x5Cu8],
        Escapes::SingleQuote => seq![0x27u8],
        Escapes::DoubleQuote => seq![0x22u8],
        Escapes::Bell => seq![7u8],
        Escapes::Backspace => seq![8u8],
        Escapes::FormFeed => seq![12u8],
        Escapes::LineFeed => seq![10u8],
        Escapes::CarriageReturn => seq![13u8],
        Escapes::HorizontalTab => seq![9u8],
        Escapes::VerticalTab => seq![11u8],
    }
}

/// Appends the UTF-8 encoding of one character.
pub(crate) fn push_utf8(v: &mut Vec<u8>, c: char)
    ensures
        final(v)@ == old(v)@ + encode_scalar(c as u32),
{
    proof {
        vstd::utf8::char_is_scalar(c);
    }
    let u = c as u32;
    if u < 0x80 {
        v.push((u & 0x7F) as u8);
        proof {
            assert(final(v)@ =~= old(v)@ + encode_scalar(u));
        }
    } else if u < 0x800 {
        v.push(0xC0 | ((u >> 6) & 0x1F) as u8);
        v.push(0x80 | (u & 0x3F) as u8);
        proof {
            assert(!vstd::utf8::has_width_1_encoding(u));
            assert(vstd::utf8::has_width_2_encoding(u));
            assert(final(v)@ =~= old(v)@ + encode_scalar(u));
        }
    } else if u < 0x10000 {
        v.push(0xE0 | ((u >> 12) & 0x0F) as u8);
        v.push(0x80 | ((u >> 6) & 0x3F) as u8);
        v.push(0x80 | (u & 0x3F) as u8);
        proof {
            assert(vstd::utf8::has_width_3_encoding(u));
            assert(final(v)@ =~= old(v)@ + encode_scalar(u));
        }
    } else {
        v.push(0xF0 | ((u >> 18) & 0x7) as u8);
        v.push(0x80 | ((u >> 12) & 0x3F) as u8);
        v.push(0x80 | ((u >> 6) & 0x3F) as u8);
        v.push(0x80 | (u & 0x3F) as u8);
        proof {
            assert(vstd::utf8::has_width_4_encoding(u));
            assert(final(v)@ =~= old(v)@ + encode_scalar(u));
        }
    }
}

impl Escapes {
    /// Appends the bytes this token decodes to.
    pub fn append_bytes(&self, vector: &mut Vec<u8>)
        ensures
            final(vector)@ == old(vector)@ + token_bytes(*self),
    {
        match self {
            Escapes::Literal(byte) => {
                vector.push(*byte);
                proof {
                    assert(final(vector)@ =~= old(vector)@ + token_bytes(*self));
                }
            },
            Escapes::Bytes(bytes) => {
                let mut i: usize = 0;
                while i < bytes.len()
                    invariant
                        i <= bytes.len(),
                        vector@ == old(vector)@ + bytes@.take(i as int),
                    decreases bytes.len() - i,
                {
                    vector.push(bytes[i]);
                    proof {
                        assert(bytes@.take(i + 1) =~= bytes@.take(i as int).push(bytes@[i as int]));
                        assert(vector@ =~= old(vector)@ + bytes@.take(i + 1));
                    }
                    i = i + 1;
                }
                proof {
                    assert(bytes@.take(bytes@.len() as int) =~= bytes@);
                }
            },
            Escapes::Byte(byte) => {
                vector.push(*byte);
                proof {
                    assert(final(vector)@ =~= old(vector)@ + token_bytes(*self));
                }
            },
            Escapes::Unicode(character) => {
                push_utf8(vector, *character);
            },
            Escapes::Backslash => {
                vector.push(0x5C);
                proof {
                    assert(final(vector)@ =~= old(vector)@ + token_bytes(*self));
                }
            },
            Escapes::SingleQuote => {
                vector.push(0x27);
                proof {
                    assert(final(vector)@ =~= old(vector)@ + token_bytes(*self));
                }
            },
            Escapes::DoubleQuote => {
                vector.push(0x22);
                proof {
                    assert(final(vector)@ =~= old(vector)@ + token_bytes(*self));
                }
            },
            Escapes::Bell => {
                vector.push(7);
                proof {
                    assert(final(vector)@ =~= old(vector)@ + token_bytes(*self));
                }
            },
            Escapes::Backspace => {
                vector.push(8);
                proof {
                    assert(final(vector)@ =~= old(vector)@ + token_bytes(*self));
                }
            },
            Escapes::FormFeed => {
                vector.push(12);
                proof {
                    assert(final(vector)@ =~= old(vector)@ + token_bytes(*self));
                }
            },
            Escapes::LineFeed => {
                vector.push(10);
                proof {
                    assert(final(vector)@ =~= old(vector)@ + token_bytes(*self));
                }
            },
            Escapes::CarriageReturn => {
                vector.push(13);
                proof {
                    assert(final(vector)@ =~= old(vector)@ + token_bytes(*self));
                }
            },
            Escapes::HorizontalTab => {
                vector.push(9);
                proof {
                    assert(final(vector)@ =~= old(vector)@ + token_bytes(*self));
                }
            },
            Escapes::VerticalTab => {
                vector.push(11);
                proof {
                    assert(final(vector)@ =~= old(vector)@ + token_bytes(*self));
                }
            },
        }
    }
}

/// Counts the hexadecimal digits from `start` on.
fn hex_run_from(v: &Vec<u8>, start: usize) -> (k: usize)
    requires
        start <= v@.len(),
    ensures
        k == hex_run(v@.skip(start as int)),
        start + k <= v@.len(),
{
    let mut i = start;
    while i < v.len() && crate::common::Base2_16::is_hex(v[i])
        invariant
            start <= i <= v@.len(),
            hex_run(v@.skip(start as int)) == i - start + hex_run(v@.skip(i as int)),
        decreases v@.len() - i,
    {
        proof {
            let s = v@.skip(i as int);
            assert(s[0] == v@[i as int]);
            assert(s.drop_first() =~= v@.skip(i + 1));
        }
        i = i + 1;
    }
    proof {
        let s = v@.skip(i as int);
        if i < v@.len() {
            assert(s[0] == v@[i as int]);
        }
        assert(hex_run(s) == 0);
    }
    i - start
}

/// Counts the octal digits from `start` on.
fn oct_run_from(v: &Vec<u8>, start: usize) -> (k: usize)
    requires
        start <= v@.len(),
    ensures
        k == oct_run(v@.skip(start as int)),
        start + k <= v@.len(),
{
    let mut i = start;
    while i < v.len() && crate::common::Base2_16::is_oct(v[i])
        invariant
            start <= i <= v@.len(),
            oct_run(v@.skip(start as int)) == i - start + oct_run(v@.skip(i as int)),
        decreases v@.len() - i,
    {
        proof {
            let s = v@.skip(i as int);
            assert(s[0] == v@[i as int]);
            assert(s.drop_first() =~= v@.skip(i + 1));
        }
        i = i + 1;
    }
    proof {
        let s = v@.skip(i as int);
        if i < v@.len() {
            assert(s[0] == v@[i as int]);
        }
        assert(oct_run(s) == 0);
    }
    i - start
}

/// Copies the bytes of a range.
pub(crate) fn bytes_range(v: &Vec<u8>, from: usize, to: usize) -> (r: Vec<u8>)
    requires
        from <= to <= v@.len(),
    ensures
        r@ == v@.subrange(from as int, to as int),
{
    let mut out: Vec<u8> = Vec::new();
    let mut i = from;
    proof {
        assert(v@.subrange(from as int, from as int) =~= Seq::<u8>::empty());
    }
    while i < to
        invariant
            from <= i <= to <= v@.len(),
            out@ == v@.subrange(from as int, i as int),
        decreases to - i,
    {
        out.push(v[i]);
        proof {
            assert(v@.subrange(from as int, i + 1) =~= v@.subrange(from as int, i as int).push(
                v@[i as int],
            ));
        }
        i = i + 1;
    }
    out
}

/// The bytes a hexadecimal digit run denotes: pairs of digits, the first
/// digit standing alone when the run is odd.
fn hex_range_bytes(v: &Vec<u8>, from: usize, k: usize) -> (r: Vec<u8>)
    requires
        from + k <= v@.len(),
        forall|i: int| from <= i < from + k ==> is_hex_digit(v@[i]),
    ensures
        r@ == hex_pair_bytes(v@.subrange(from as int, from + k)),
{
    let n = v.len();
    let mut out: Vec<u8> = Vec::new();
    let end = from + k;
    let mut i = from;
    if k % 2 == 1 {
        out.push(crate::common::Base2_16::ascii_to_num(v[from]));
        i = from + 1;
        proof {
            let s = v@.subrange(from as int, end as int);
            assert(s.drop_first() =~= v@.subrange(from + 1, end as int));
            assert(hex_pair_bytes(s) == seq![hex_digit_value(s[0])] + hex_pair_bytes(
                s.drop_first(),
            ));
            assert(out@ =~= seq![hex_digit_value(v@[from as int])]);
        }
    }
    while i < end
        invariant
            from <= i <= end == from + k <= v@.len(),
            (end - i) % 2 == 0,
            forall|m: int| from <= m < end ==> is_hex_digit(v@[m]),
            hex_pair_bytes(v@.subrange(from as int, end as int)) == out@ + hex_pair_bytes(
                v@.subrange(i as int, end as int),
            ),
        decreases end - i,
    {
        let hi = crate::common::Base2_16::ascii_to_num(v[i]);
        let lo = crate::common::Base2_16::ascii_to_num(v[i + 1]);
        out.push(hi * 16 + lo);
        proof {
            let s = v@.subrange(i as int, end as int);
            assert(s[0] == v@[i as int]);
            assert(s[1] == v@[i + 1]);
            assert(s.skip(2) =~= v@.subrange(i + 2, end as int));
            assert(hex_pair_bytes(s) == seq![
                (hex_digit_value(s[0]) * 16 + hex_digit_value(s[1])) as u8,
            ] + hex_pair_bytes(s.skip(2)));
        }
        i = i + 2;
    }
    proof {
        assert(v@.subrange(end as int, end as int) =~= Seq::<u8>::empty());
        assert(out@ + Seq::<u8>::empty() =~= out@);
    }
    out
}

/// The value of a run of at most eight hexadecimal digits.
pub(crate) fn hex_range_value(v: &Vec<u8>, from: usize, k: usize) -> (r: u32)
    requires
        from + k <= v@.len(),
        k <= 8,
        forall|i: int| from <= i < from + k ==> is_hex_digit(v@[i]),
    ensures
        r as nat == hex_seq_val(v@.subrange(from as int, from + k)),
{
    let n = v.len();
    let mut r: u32 = 0;
    let mut t: usize = 0;
    proof {
        assert(v@.subrange(from as int, from as int) =~= Seq::<u8>::empty());
    }
    while t < k
        invariant
            0 <= t <= k <= 8,
            from + k <= usize::MAX,
            from + k <= v@.len(),
            forall|i: int| from <= i < from + k ==> is_hex_digit(v@[i]),
            r as nat == hex_seq_val(v@.subrange(from as int, from + t)),
        decreases k - t,
    {
        proof {
            lemma_hex_seq_val_bound(v@.subrange(from as int, from + t));
            lemma_pow_n_le(16, t as nat, 7);
            assert(pow_n(16, 7) == 0x10000000) by {
                reveal_with_fuel(pow_n, 9);
            }
        }
        let d = crate::common::Base2_16::ascii_to_num(v[from + t]);
        r = r * 16 + d as u32;
        proof {
            let s = v@.subrange(from as int, from + t + 1);
            assert(s.drop_last() =~= v@.subrange(from as int, from + t));
            assert(s.last() == v@[from + t]);
        }
        t = t + 1;
    }
    r
}

/// The value of a run of at most three octal digits.
fn oct_range_value(v: &Vec<u8>, from: usize, k: usize) -> (r: u16)
    requires
        from + k <= v@.len(),
        k <= 3,
        forall|i: int| from <= i < from + k ==> is_oct_digit(v@[i]),
    ensures
        r as nat == oct_seq_val(v@.subrange(from as int, from + k)),
        r < 512,
{
    let n = v.len();
    let mut r: u16 = 0;
    let mut t: usize = 0;
    proof {
        assert(v@.subrange(from as int, from as int) =~= Seq::<u8>::empty());
    }
    while t < k
        invariant
            0 <= t <= k <= 3,
            from + k <= usize::MAX,
            from + k <= v@.len(),
            forall|i: int| from <= i < from + k ==> is_oct_digit(v@[i]),
            r as nat == oct_seq_val(v@.subrange(from as int, from + t)),
            r < pow_n(8, t as nat),
        decreases k - t,
    {
        proof {
            assert(pow_n(8, 2) == 64 && pow_n(8, 3) == 512) by {
                reveal_with_fuel(pow_n, 4);
            }
            lemma_pow_n_le(8, t as nat, 2);
        }
        let d = v[from + t] - 0x30;
        r = r * 8 + d as u16;
        proof {
            let s = v@.subrange(from as int, from + t + 1);
            assert(s.drop_last() =~= v@.subrange(from as int, from + t));
            assert(s.last() == v@[from + t]);
            assert(pow_n(8, (t + 1) as nat) == 8 * pow_n(8, t as nat));
        }
        t = t + 1;
    }
    proof {
        assert(pow_n(8, 3) == 512) by {
            reveal_with_fuel(pow_n, 4);
        }
        lemma_pow_n_le(8, k as nat, 3);
    }
    r
}

/// Finds the first `}` at or after `start`.
fn find_close(v: &Vec<u8>, start: usize) -> (r: Option<usize>)
    requires
        start <= v@.len(),
    ensures
        match r {
            Some(j) => start <= j < v@.len() && j == close_idx(v@, start as int),
            None => close_idx(v@, start as int) == -1,
        },
{
    let mut i = start;
    while i < v.len()
        invariant
            start <= i <= v@.len(),
            close_idx(v@, start as int) == close_idx(v@, i as int),
        decreases v@.len() - i,
    {
        if v[i] == 0x7D {
            proof {
                lemma_close_idx(v@, start as int);
            }
            return Some(i);
        }
        i = i + 1;
    }
    None
}

/// Shifting the sequence shifts the position of the first closing brace.
pub proof fn lemma_close_idx_shift(v: Seq<u8>, p: int, i: int)
    requires
        0 <= p,
        0 <= i,
        p + i <= v.len(),
    ensures
        close_idx(v.skip(p), i) == -1 <==> close_idx(v, p + i) == -1,
        close_idx(v, p + i) != -1 ==> close_idx(v.skip(p), i) == close_idx(v, p + i) - p,
    decreases v.len() - (p + i),
{
    let s = v.skip(p);
    if p + i >= v.len() {
    } else {
        assert(s[i] == v[p + i]);
        if v[p + i] == 0x7D {
        } else {
            lemma_close_idx_shift(v, p, i + 1);
        }
    }
}

/// A restartable token scanner over the UTF-8 bytes of escaped text: each
/// call of `next` consumes one escape unit, and a malformed escape abandons
/// the remaining input.
pub struct EscapedStringIterator {
    bytes: Vec<u8>,
    pos: usize,
    variant: Variant,
}

impl EscapedStringIterator {
    /// The bytes being lexed.
    pub closed spec fn input(&self) -> Seq<u8> {
        self.bytes@
    }

    /// The cursor: how many bytes have been consumed.
    pub closed spec fn position(&self) -> int {
        self.pos as int
    }

    /// The dialect the scanner applies.
    pub closed spec fn dialect(&self) -> Variant {
        self.variant
    }

    /// The cursor never passes the end of the input.
    pub closed spec fn wf(&self) -> bool {
        self.pos <= self.bytes@.len()
    }

    /// A scanner over the bytes of `string`, at the start.
    pub fn new(string: &str, variant: Variant) -> (it: Self)
        ensures
            it.input() == string.spec_bytes(),
            it.position() == 0,
            it.dialect() == variant,
            it.wf(),
    {
        EscapedStringIterator { bytes: string.as_bytes_vec(), pos: 0, variant }
    }

    /// Scans the next token: `None` at the end of the input; the token and
    /// its decoded bytes, advancing by what it consumed; or the lexing
    /// error, after which the cursor stands at the end and nothing more is
    /// consumed.
    pub fn next(&mut self) -> (r: Option<Result<Escapes, CodecError>>)
        requires
            old(self).wf(),
        ensures
            final(self).wf(),
            final(self).input() == old(self).input(),
            final(self).dialect() == old(self).dialect(),
            old(self).position() == old(self).input().len() ==> r is None && final(self).position()
                == old(self).position(),
            old(self).position() < old(self).input().len() ==> match step(
                old(self).input().skip(old(self).position()),
                old(self).dialect(),
            ) {
                None => (r == Some(Result::<Escapes, CodecError>::Err(CodecError::Lex))
                    && final(self).position() == old(self).input().len()),
                Some(ko) => (r matches Some(res) && res matches Ok(tok) && token_bytes(tok) == ko.1
                    && final(self).position() == old(self).position() + ko.0),
            },
    {
        let n = self.bytes.len();
        if self.pos >= n {
            return None;
        }
        let ghost s = self.bytes@.skip(self.pos as int);
        let p = self.pos;
        proof {
            assert(s[0] == self.bytes@[p as int]);
        }
        let b0 = self.bytes[p];
        if b0 != 0x5C {
            self.pos = p + 1;
            return Some(Ok(Escapes::Literal(b0)));
        }
        if p + 1 >= n {
            self.pos = n;
            return Some(Err(CodecError::Lex));
        }
        proof {
            assert(s[1] == self.bytes@[p + 1]);
        }
        let c = self.bytes[p + 1];
        if c == 0x5C {
            self.pos = p + 2;
            return Some(Ok(Escapes::Backslash));
        }
        if c == 0x27 {
            self.pos = p + 2;
            return Some(Ok(Escapes::SingleQuote));
        }
        if c == 0x22 {
            self.pos = p + 2;
            return Some(Ok(Escapes::DoubleQuote));
        }
        if c == 0x61 {
            self.pos = p + 2;
            return Some(Ok(Escapes::Bell));
        }
        if c == 0x62 {
            self.pos = p + 2;
            return Some(Ok(Escapes::Backspace));
        }
        if c == 0x66 {
            self.pos = p + 2;
            return Some(Ok(Escapes::FormFeed));
        }
        if c == 0x6E {
            self.pos = p + 2;
            return Some(Ok(Escapes::LineFeed));
        }
        if c == 0x72 {
            self.pos = p + 2;
            return Some(Ok(Escapes::CarriageReturn));
        }
        if c == 0x74 {
            self.pos = p + 2;
            return Some(Ok(Escapes::HorizontalTab));
        }
        if c == 0x76 {
            self.pos = p + 2;
            return Some(Ok(Escapes::VerticalTab));
        }
        if c == 0x78 {
            // \x: a hexadecimal digit run
            let k = hex_run_from(&self.bytes, p + 2);
            proof {
                assert(s.skip(2) =~= self.bytes@.skip(p + 2));
            }
            match self.variant {
                Variant::C => {
                    if k == 0 {
                        self.pos = n;
                        return Some(Err(CodecError::Lex));
                    }
                    proof {
                        lemma_hex_run_digits(self.bytes@.skip(p + 2));
                        assert forall|i: int| p + 2 <= i < p + 2 + k implies is_hex_digit(
                            self.bytes@[i],
                        ) by {
                            assert(self.bytes@.skip(p + 2)[i - p - 2] == self.bytes@[i]);
                        }
                        assert(self.bytes@.subrange(p + 2, p + 2 + k) =~= s.subrange(2, 2 + k));
                    }
                    let bs = hex_range_bytes(&self.bytes, p + 2, k);
                    self.pos = p + 2 + k;
                    return Some(Ok(Escapes::Bytes(bs)));
                },
                Variant::Python => {
                    if k < 2 {
                        self.pos = n;
                        return Some(Err(CodecError::Lex));
                    }
                    proof {
                        lemma_hex_run_digits(self.bytes@.skip(p + 2));
                        assert(self.bytes@.skip(p + 2)[0] == self.bytes@[p + 2]);
                        assert(self.bytes@.skip(p + 2)[1] == self.bytes@[p + 3]);
                        assert(s[2] == self.bytes@[p + 2]);
                        assert(s[3] == self.bytes@[p + 3]);
                    }
                    let hi = crate::common::Base2_16::ascii_to_num(self.bytes[p + 2]);
                    let lo = crate::common::Base2_16::ascii_to_num(self.bytes[p + 3]);
                    self.pos = p + 4;
                    return Some(Ok(Escapes::Byte(hi * 16 + lo)));
                },
            }
        }
        if c == 0x75 || c == 0x55 {
            // \u or \U: exactly four or eight hexadecimal digits
            let want: usize = if c == 0x75 {
                4
            } else {
                8
            };
            let k = hex_run_from(&self.bytes, p + 2);
            proof {
                assert(s.skip(2) =~= self.bytes@.skip(p + 2));
            }
            if k != want {
                self.pos = n;
                return Some(Err(CodecError::Lex));
            }
            proof {
                lemma_hex_run_digits(self.bytes@.skip(p + 2));
                assert forall|i: int| p + 2 <= i < p + 2 + k implies is_hex_digit(
                    self.bytes@[i],
                ) by {
                    assert(self.bytes@.skip(p + 2)[i - p - 2] == self.bytes@[i]);
                }
                assert(self.bytes@.subrange(p + 2, p + 2 + k) =~= s.subrange(2, 2 + k));
                lemma_hex_seq_val_bound(s.subrange(2, 2 + k));
                lemma_pow_n_le(16, k as nat, 8);
                assert(pow_n(16, 8) == 0x100000000) by {
                    reveal_with_fuel(pow_n, 10);
                }
            }
            let value = hex_range_value(&self.bytes, p + 2, want);
            match crate::ext::char_from_u32(value) {
                Some(ch) => {
                    self.pos = p + 2 + want;
                    return Some(Ok(Escapes::Unicode(ch)));
                },
                None => {
                    self.pos = n;
                    return Some(Err(CodecError::Lex));
                },
            }
        }
        if c == 0x4E {
            // \N{NAME}: Python only
            match self.variant {
                Variant::C => {
                    self.pos = n;
                    return Some(Err(CodecError::Lex));
                },
                Variant::Python => {
                    if p + 2 >= n || self.bytes[p + 2] != 0x7B {
                        proof {
                            if p + 2 < n {
                                assert(s[2] == self.bytes@[p + 2]);
                            }
                        }
                        self.pos = n;
                        return Some(Err(CodecError::Lex));
                    }
                    proof {
                        assert(s[2] == self.bytes@[p + 2]);
                        lemma_close_idx_shift(self.bytes@, p as int, 3);
                    }
                    match find_close(&self.bytes, p + 3) {
                        None => {
                            self.pos = n;
                            return Some(Err(CodecError::Lex));
                        },
                        Some(j) => {
                            proof {
                                lemma_close_idx(self.bytes@, p + 3);
                                assert(self.bytes@.subrange(p + 3, j as int) =~= s.subrange(
                                    3,
                                    j - p,
                                ));
                            }
                            let name_bytes = bytes_range(&self.bytes, p + 3, j);
                            if name_bytes.len() > 0 && name_bytes[0] == 0x2D {
                                self.pos = n;
                                return Some(Err(CodecError::Lex));
                            }
                            let ghost nbv = name_bytes@;
                            match crate::ext::utf8_string(name_bytes) {
                                None => {
                                    self.pos = n;
                                    return Some(Err(CodecError::Lex));
                                },
                                Some(name) => {
                                    proof {
                                        vstd::utf8::decode_utf8_encode_utf8(nbv);
                                    }
                                    match crate::ext::char_for_name(name.as_str()) {
                                        None => {
                                            self.pos = n;
                                            return Some(Err(CodecError::Lex));
                                        },
                                        Some(ch) => {
                                            self.pos = j + 1;
                                            return Some(Ok(Escapes::Unicode(ch)));
                                        },
                                    }
                                },
                            }
                        },
                    }
                },
            }
        }
        if c >= 0x30 && c <= 0x37 {
            // octal: up to three digits including the first
            let run = oct_run_from(&self.bytes, p + 1);
            proof {
                assert(s.skip(1) =~= self.bytes@.skip(p + 1));
            }
            let k: usize = if run > 3 {
                3
            } else {
                run
            };
            proof {
                lemma_oct_run_bound(self.bytes@.skip(p + 1));
                assert(self.bytes@.skip(p + 1)[0] == self.bytes@[p + 1]);
                lemma_oct_run_bound(self.bytes@.skip(p + 1).drop_first());
                assert(oct_run(self.bytes@.skip(p + 1)) >= 1);
                assert forall|i: int| p + 1 <= i < p + 1 + k implies is_oct_digit(
                    self.bytes@[i],
                ) by {
                    lemma_oct_run_digits(self.bytes@.skip(p + 1));
                    assert(self.bytes@.skip(p + 1)[i - p - 1] == self.bytes@[i]);
                }
                assert(self.bytes@.subrange(p + 1, p + 1 + k) =~= s.subrange(1, 1 + k));
            }
            let value = oct_range_value(&self.bytes, p + 1, k);
            self.pos = p + 1 + k;
            return Some(Ok(Escapes::Byte((value % 256) as u8)));
        }
        self.pos = n;
        Some(Err(CodecError::Lex))
    }
}

/// Appends the escaped form of one byte.
fn push_escape(out: &mut Vec<u8>, b: u8)
    ensures
        final(out)@ == old(out)@ + escape_of(b),
{
    if b == 0x5C {
        out.push(0x5C);
        out.push(0x5C);
    } else if b == 0x27 {
        out.push(0x5C);
        out.push(0x27);
    } else if b == 0x22 {
        out.push(0x5C);
        out.push(0x22);
    } else if b >= 0x20 && b <= 0x7E {
        out.push(b);
    } else if b == 7 {
        out.push(0x5C);
        out.push(0x61);
    } else if b == 8 {
        out.push(0x5C);
        out.push(0x62);
    } else if b == 12 {
        out.push(0x5C);
        out.push(0x66);
    } else if b == 10 {
        out.push(0x5C);
        out.push(0x6E);
    } else if b == 13 {
        out.push(0x5C);
        out.push(0x72);
    } else if b == 9 {
        out.push(0x5C);
        out.push(0x74);
    } else if b == 11 {
        out.push(0x5C);
        out.push(0x76);
    } else {
        out.push(0x5C);
        out.push(0x78);
        out.push(crate::common::Base2_16::num_to_ascii(b / 16, true));
        out.push(crate::common::Base2_16::num_to_ascii(b % 16, true));
    }
    proof {
        assert(out@ =~= old(out)@ + escape_of(b));
    }
}

/// The escaped form of appended bytes is the appended escaped forms.
pub proof fn lemma_esc_encode_snoc(s: Seq<u8>, b: u8)
    ensures
        esc_encode(s.push(b)) == esc_encode(s) + escape_of(b),
    decreases s.len(),
{
    if s.len() == 0 {
        assert(s.push(b).drop_first() =~= Seq::<u8>::empty());
        assert(esc_encode(s) + escape_of(b) =~= escape_of(b));
        assert(esc_encode(s.push(b)) =~= escape_of(b) + esc_encode(Seq::<u8>::empty()));
        assert(escape_of(b) + esc_encode(Seq::<u8>::empty()) =~= escape_of(b));
    } else {
        assert(s.push(b).drop_first() =~= s.drop_first().push(b));
        lemma_esc_encode_snoc(s.drop_first(), b);
        assert(s.push(b)[0] == s[0]);
        assert(escape_of(s[0]) + (esc_encode(s.drop_first()) + escape_of(b)) =~= (escape_of(s[0])
            + esc_encode(s.drop_first())) + escape_of(b));
    }
}

/// Every escaped form is ASCII.
pub proof fn lemma_escape_of_ascii(b: u8)
    ensures
        forall|j: int| 0 <= j < escape_of(b).len() ==> escape_of(b)[j] < 0x80,
{
}

/// The escaped form of a byte sequence is ASCII throughout.
pub proof fn lemma_esc_encode_ascii(s: Seq<u8>)
    ensures
        forall|i: int| 0 <= i < esc_encode(s).len() ==> esc_encode(s)[i] < 0x80,
    decreases s.len(),
{
    if s.len() > 0 {
        lemma_escape_of_ascii(s[0]);
        lemma_esc_encode_ascii(s.drop_first());
        let e = escape_of(s[0]);
        let rest = esc_encode(s.drop_first());
        assert forall|i: int| 0 <= i < esc_encode(s).len() implies esc_encode(s)[i] < 0x80 by {
            if i < e.len() {
                assert(esc_encode(s)[i] == e[i]);
            } else {
                assert(esc_encode(s)[i] == rest[i - e.len()]);
            }
        }
    }
}

/// The escape-sequence codec: all-or-nothing decoding of escaped text, and
/// the deterministic default encoding of bytes.
pub struct EscapeSequence;

impl EscapeSequence {
    /// Decodes escaped text to its bytes: the concatenation of the bytes of
    /// each token, or the lexing error as soon as any escape is malformed,
    /// with no partial result.
    pub fn decode(string: &str, variant: Variant) -> (r: Result<Vec<u8>, CodecError>)
        ensures
            match esc_decode(string.spec_bytes(), variant) {
                Some(b) => r matches Ok(v) && v@ == b,
                None => r == Result::<Vec<u8>, CodecError>::Err(CodecError::Lex),
            },
    {
        let mut it = EscapedStringIterator::new(string, variant);
        let mut bytes: Vec<u8> = Vec::new();
        proof {
            assert(it.input().skip(0) =~= it.input());
            if esc_decode(it.input(), variant) is Some {
                assert(Seq::<u8>::empty() + esc_decode(it.input(), variant)->Some_0 =~= esc_decode(
                    it.input(),
                    variant,
                )->Some_0);
            }
        }
        loop
            invariant
                it.wf(),
                it.input() == string.spec_bytes(),
                it.dialect() == variant,
                0 <= it.position() <= it.input().len(),
                match esc_decode(it.input().skip(it.position()), variant) {
                    Some(rest) => esc_decode(it.input(), variant) == Some(bytes@ + rest),
                    None => esc_decode(it.input(), variant) is None,
                },
            decreases it.input().len() - it.position(),
        {
            let ghost pre_pos = it.position();
            let ghost pre_bytes = bytes@;
            let ghost s = it.input().skip(pre_pos);
            match it.next() {
                None => {
                    proof {
                        assert(s =~= Seq::<u8>::empty());
                        assert(pre_bytes + Seq::<u8>::empty() =~= pre_bytes);
                    }
                    return Ok(bytes);
                },
                Some(res) => match res {
                    Ok(tok) => {
                        proof {
                            lemma_step_bounds(s, variant);
                        }
                        tok.append_bytes(&mut bytes);
                        proof {
                            let ko = step(s, variant)->Some_0;
                            assert(s.skip(ko.0) =~= it.input().skip(it.position()));
                            match esc_decode(it.input().skip(it.position()), variant) {
                                Some(r2) => {
                                    assert(esc_decode(s, variant) == Some(token_bytes(tok) + r2));
                                    assert(pre_bytes + (token_bytes(tok) + r2) =~= (pre_bytes
                                        + token_bytes(tok)) + r2);
                                },
                                None => {
                                    assert(esc_decode(s, variant) is None);
                                },
                            }
                        }
                    },
                    Err(_) => {
                        return Err(CodecError::Lex);
                    },
                },
            }
        }
    }

    /// Encodes bytes in the default escaped form, which never fails:
    /// printable ASCII passes through, backslash and the quotes and the
    /// named control characters take their two-character forms, and every
    /// other byte becomes `\xHH` with upper-case digits.
    pub fn encode(bytes: &[u8]) -> (r: String)
        ensures
            r@ == crate::ext::bytes_as_chars(esc_encode(bytes@)),
            vstd::utf8::encode_utf8(r@) == esc_encode(bytes@),
    {
        let n = bytes.len();
        let mut out: Vec<u8> = Vec::new();
        let mut i: usize = 0;
        proof {
            assert(bytes@.take(0) =~= Seq::<u8>::empty());
        }
        while i < n
            invariant
                0 <= i <= n == bytes@.len(),
                out@ == esc_encode(bytes@.take(i as int)),
            decreases n - i,
        {
            push_escape(&mut out, bytes[i]);
            proof {
                lemma_esc_encode_snoc(bytes@.take(i as int), bytes@[i as int]);
                assert(bytes@.take(i + 1) =~= bytes@.take(i as int).push(bytes@[i as int]));
            }
            i = i + 1;
        }
        proof {
            assert(bytes@.take(n as int) =~= bytes@);
            lemma_esc_encode_ascii(bytes@);
        }
        let r = crate::ext::ascii_string(out);
        proof {
            let e = esc_encode(bytes@);
            assert(vstd::utf8::is_ascii_chars(r@)) by {
                assert forall|i: int| 0 <= i < r@.len() implies '\0' <= #[trigger] r@[i]
                    <= '\u{7f}' by {
                    assert(r@[i] == e[i] as char);
                    assert(e[i] < 0x80);
                }
            }
            vstd::utf8::is_ascii_chars_encode_utf8(r@);
            assert(vstd::utf8::encode_utf8(r@) =~= e);
        }
        r
    }
}

/// Whether the default escaped form of the byte is a `\xHH` escape.
pub open spec fn uses_hex_escape(b: u8) -> bool {
    escape_of(b).len() == 4
}

/// When the round trip through the default encoding is exact.  In the
/// Python dialect it always is, a `\xHH` escape consuming exactly two
/// digits.  In the C dialect a hexadecimal run is consumed greedily, so no
/// `\xHH`-escaped byte may be followed by a byte that passes through as a
/// printable hexadecimal digit character.
pub open spec fn round_trip_safe(bs: Seq<u8>, d: Variant) -> bool {
    d == Variant::Python || forall|i: int|
        #![trigger bs[i]]
        0 <= i < bs.len() - 1 && uses_hex_escape(bs[i]) ==> !is_hex_digit(bs[i + 1])
}

/// An escaped form is one, two or four bytes long.
pub proof fn lemma_escape_of_len(b: u8)
    ensures
        escape_of(b).len() == 1 || escape_of(b).len() == 2 || escape_of(b).len() == 4,
        escape_of(b)[0] == b || escape_of(b)[0] == 0x5C,
{
}

/// On the escaped form of a byte followed by anything safe, the lexer
/// consumes exactly that form and yields exactly that byte.
proof fn lemma_step_of_escape(b: u8, rest: Seq<u8>, d: Variant)
    requires
        d == Variant::Python || !(uses_hex_escape(b) && rest.len() > 0 && is_hex_digit(rest[0])),
    ensures
        step(escape_of(b) + rest, d) == Some((escape_of(b).len() as int, seq![b])),
{
    let e = escape_of(b);
    let s = e + rest;
    assert(s[0] == e[0]);
    if e.len() == 1 {
        // a printable byte other than backslash and the quotes
        assert(s[0] == b && b != 0x5C);
        assert(step(s, d) == Some((1int, seq![s[0]])));
    } else if e.len() == 2 {
        // a two-character special escape
        assert(s[0] == 0x5C);
        assert(s[1] == e[1]);
        assert(special_byte(e[1]) == Some(b));
        assert(step(s, d) == Some((2int, seq![b])));
    } else {
        // \xHH with two upper-case digits
        let h1 = hex_digit_char((b / 16) as u8, true);
        let h2 = hex_digit_char((b % 16) as u8, true);
        assert(s[0] == 0x5C);
        assert(s[1] == e[1] && e[1] == 0x78);
        assert(s[2] == e[2] && e[2] == h1);
        assert(s[3] == e[3] && e[3] == h2);
        assert(special_byte(0x78) is None);
        assert(is_hex_digit(h1) && is_hex_digit(h2));
        assert(hex_digit_value(h1) == b / 16 && hex_digit_value(h2) == b % 16);
        let u = s.skip(2);
        assert(u[0] == h1 && u[1] == h2);
        assert(u.drop_first() =~= s.skip(3));
        assert(u.drop_first().drop_first() =~= s.skip(4));
        assert(s.skip(4) =~= rest);
        lemma_hex_run_bound(rest);
        match d {
            Variant::C => {
                // the run stops right after the two digits
                if rest.len() > 0 {
                    assert(rest[0] == s[4]);
                    assert(!is_hex_digit(rest[0]));
                    assert(hex_run(rest) == 0);
                } else {
                    assert(hex_run(rest) == 0);
                }
                assert(hex_run(u.drop_first()) == 1 + hex_run(rest));
                assert(hex_run(u) == 2);
                let ds = s.subrange(2, 4);
                assert(ds.len() == 2 && ds[0] == h1 && ds[1] == h2);
                assert(ds.skip(2) =~= Seq::<u8>::empty());
                assert(hex_pair_bytes(ds) == seq![
                    (hex_digit_value(h1) * 16 + hex_digit_value(h2)) as u8,
                ] + hex_pair_bytes(Seq::<u8>::empty()));
                assert((b / 16) * 16 + b % 16 == b);
                assert(hex_pair_bytes(ds) =~= seq![b]);
                assert(step(s, d) == Some((4int, hex_pair_bytes(ds))));
            },
            Variant::Python => {
                assert(hex_run(u.drop_first()) >= 1 + hex_run(s.skip(4)));
                lemma_hex_run_bound(s.skip(4));
                assert(hex_run(u) >= 2);
                assert((b / 16) * 16 + b % 16 == b);
                assert(step(s, d) == Some((4int, seq![
                    (hex_digit_value(s[2]) * 16 + hex_digit_value(s[3])) as u8,
                ])));
                assert(seq![(hex_digit_value(s[2]) * 16 + hex_digit_value(s[3])) as u8] =~= seq![
                    b,
                ]);
            },
        }
    }
}

/// LAW: decoding the default encoding of a byte sequence yields the
/// sequence again, in either dialect, whenever the sequence is
/// round-trip-safe for that dialect; in the Python dialect every sequence
/// is.
pub proof fn lemma_encode_decode(bs: Seq<u8>, d: Variant)
    requires
        round_trip_safe(bs, d),
    ensures
        esc_decode(esc_encode(bs), d) == Some(bs),
    decreases bs.len(),
{
    if bs.len() == 0 {
        assert(esc_encode(bs).len() == 0);
        assert(bs =~= Seq::<u8>::empty());
    } else {
        let e = escape_of(bs[0]);
        let rest = esc_encode(bs.drop_first());
        lemma_escape_of_len(bs[0]);
        // the next unit after a hex escape never begins with a hex digit
        if d == Variant::C && uses_hex_escape(bs[0]) && rest.len() > 0 {
            assert(bs.drop_first().len() > 0);
            let b1 = bs.drop_first()[0];
            assert(b1 == bs[1]);
            lemma_escape_of_len(b1);
            assert(rest[0] == escape_of(b1)[0]);
            if escape_of(b1)[0] == b1 && 0x20 <= b1 <= 0x7E {
                assert(!is_hex_digit(bs[1]));
            }
            assert(!is_hex_digit(rest[0]));
        }
        lemma_step_of_escape(bs[0], rest, d);
        let s = e + rest;
        assert(esc_encode(bs) == s);
        assert(s.skip(e.len() as int) =~= rest);
        assert(round_trip_safe(bs.drop_first(), d)) by {
            if d != Variant::Python {
                assert forall|i: int|
                    0 <= i < bs.drop_first().len() - 1 && uses_hex_escape(
                        #[trigger] bs.drop_first()[i],
                    ) implies !is_hex_digit(bs.drop_first()[i + 1]) by {
                    assert(bs.drop_first()[i] == bs[i + 1]);
                    assert(bs.drop_first()[i + 1] == bs[i + 2]);
                }
            }
        }
        lemma_encode_decode(bs.drop_first(), d);
        assert(esc_decode(s, d) == Some(seq![bs[0]] + bs.drop_first()));
        assert(seq![bs[0]] + bs.drop_first() =~= bs);
    }
}

/// Every byte of an octal run is an octal digit.
pub proof fn lemma_oct_run_digits(s: Seq<u8>)
    ensures
        forall|i: int| 0 <= i < oct_run(s) ==> is_oct_digit(s[i]),
    decreases s.len(),
{
    lemma_oct_run_bound(s);
    if s.len() > 0 && is_oct_digit(s[0]) {
        lemma_oct_run_digits(s.drop_first());
        assert forall|i: int| 0 <= i < oct_run(s) implies is_oct_digit(s[i]) by {
            if i > 0 {
                assert(is_oct_digit(s.drop_first()[i - 1]));
            }
        }
    }
}

} // verus!
