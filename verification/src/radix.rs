//! The arbitrary-base conversion engine.  A byte buffer is read as an
//! unsigned magnitude in base 256 and re-expressed as a digit sequence in any
//! base from 2 to 16, and back.  Digit and byte sequences are least
//! significant first; results carry no leading (that is, trailing) zeros.

use vstd::prelude::*;
use crate::common::CodecError;

verus! {

broadcast use
    vstd::arithmetic::mul::group_mul_basics,
    vstd::arithmetic::mul::lemma_mul_by_zero_is_zero,
;

/// `b` raised to `e`.
pub open spec fn pow_n(b: nat, e: nat) -> nat
    decreases e,
{
    if e == 0 {
        1
    } else {
        b * pow_n(b, (e - 1) as nat)
    }
}

/// A power of a positive base is positive.
pub proof fn lemma_pow_n_pos(b: nat, e: nat)
    requires
        b >= 1,
    ensures
        pow_n(b, e) >= 1,
    decreases e,
{
    if e > 0 {
        lemma_pow_n_pos(b, (e - 1) as nat);
        assert(b * pow_n(b, (e - 1) as nat) >= 1 * pow_n(b, (e - 1) as nat)) by (nonlinear_arith)
            requires
                b >= 1,
                pow_n(b, (e - 1) as nat) >= 0,
        ;
    }
}

/// Powers of a positive base never shrink as the exponent grows.
pub proof fn lemma_pow_n_le(b: nat, e1: nat, e2: nat)
    requires
        b >= 1,
        e1 <= e2,
    ensures
        pow_n(b, e1) <= pow_n(b, e2),
    decreases e2,
{
    if e1 < e2 {
        lemma_pow_n_le(b, e1, (e2 - 1) as nat);
        let q = pow_n(b, (e2 - 1) as nat);
        assert(b * q >= 1 * q) by (nonlinear_arith)
            requires
                b >= 1,
                q >= 0,
        ;
    }
}

/// The magnitude a least-significant-first digit sequence denotes in the
/// given base.
pub open spec fn val(s: Seq<u8>, base: nat) -> nat
    decreases s.len(),
{
    if s.len() == 0 {
        0
    } else {
        (s[0] + base * val(s.drop_first(), base)) as nat
    }
}

/// Every digit of the sequence is below the base.
pub open spec fn digits_below(s: Seq<u8>, base: nat) -> bool {
    forall|i: int| 0 <= i < s.len() ==> (s[i] as nat) < base
}

/// The sequence carries no leading zero digit (its last, most significant
/// element is not zero); the empty sequence denotes zero.
pub open spec fn minimal(s: Seq<u8>) -> bool {
    s.len() == 0 || s[s.len() - 1] != 0
}

/// Appending a most significant digit adds its scaled value.
pub proof fn lemma_val_snoc(s: Seq<u8>, d: u8, base: nat)
    ensures
        val(s.push(d), base) == val(s, base) + d * pow_n(base, s.len()),
    decreases s.len(),
{
    if s.len() == 0 {
        assert(s.push(d).drop_first() =~= Seq::<u8>::empty());
        assert(val(s.push(d), base) == d + base * val(Seq::<u8>::empty(), base));
    } else {
        assert(s.push(d).drop_first() =~= s.drop_first().push(d));
        lemma_val_snoc(s.drop_first(), d, base);
        let q = pow_n(base, (s.len() - 1) as nat);
        assert(val(s.push(d), base) == s[0] + base * (val(s.drop_first(), base) + d * q));
        assert(base * (val(s.drop_first(), base) + d * q) == base * val(s.drop_first(), base) + d
            * (base * q)) by (nonlinear_arith);
        assert(pow_n(base, s.len()) == base * q);
    }
}

/// The magnitude is below the base raised to the length.
pub proof fn lemma_val_bound(s: Seq<u8>, base: nat)
    requires
        base >= 2,
        digits_below(s, base),
    ensures
        val(s, base) < pow_n(base, s.len()),
    decreases s.len(),
{
    if s.len() == 0 {
    } else {
        assert(digits_below(s.drop_first(), base));
        lemma_val_bound(s.drop_first(), base);
        let q = pow_n(base, (s.len() - 1) as nat);
        assert(val(s.drop_first(), base) + 1 <= q);
        assert(base * (val(s.drop_first(), base) + 1) <= base * q) by (nonlinear_arith)
            requires
                base >= 2,
                val(s.drop_first(), base) + 1 <= q,
        ;
        assert(base * (val(s.drop_first(), base) + 1) == base * val(s.drop_first(), base) + base)
            by (nonlinear_arith);
        assert((s[0] as nat) < base);
        assert(pow_n(base, s.len()) == base * q);
    }
}

/// A non-empty sequence without a leading zero denotes at least the base
/// raised to one less than its length.
pub proof fn lemma_val_lower(s: Seq<u8>, base: nat)
    requires
        base >= 2,
        s.len() > 0,
        minimal(s),
    ensures
        val(s, base) >= pow_n(base, (s.len() - 1) as nat),
    decreases s.len(),
{
    if s.len() == 1 {
        assert(val(s, base) == s[0] + base * val(s.drop_first(), base));
        assert(s[0] >= 1);
    } else {
        let t = s.drop_first();
        assert(t[t.len() - 1] == s[s.len() - 1]);
        lemma_val_lower(t, base);
        let q = pow_n(base, (t.len() - 1) as nat);
        assert(base * val(t, base) >= base * q) by (nonlinear_arith)
            requires
                base >= 2,
                val(t, base) >= q,
        ;
        assert(pow_n(base, (s.len() - 1) as nat) == base * q);
        assert(val(s, base) == s[0] + base * val(t, base));
    }
}

/// Two digit sequences in the same base, both without leading zeros, that
/// denote the same magnitude are the same sequence.
pub proof fn lemma_minimal_unique(a: Seq<u8>, b: Seq<u8>, base: nat)
    requires
        base >= 2,
        digits_below(a, base),
        digits_below(b, base),
        minimal(a),
        minimal(b),
        val(a, base) == val(b, base),
    ensures
        a == b,
    decreases a.len(),
{
    if a.len() == 0 {
        if b.len() > 0 {
            lemma_val_lower(b, base);
            lemma_pow_n_pos(base, (b.len() - 1) as nat);
        }
        assert(a =~= b);
    } else if b.len() == 0 {
        lemma_val_lower(a, base);
        lemma_pow_n_pos(base, (a.len() - 1) as nat);
        assert(a =~= b);
    } else {
        let at = a.drop_first();
        let bt = b.drop_first();
        assert(val(a, base) == a[0] + base * val(at, base));
        assert(val(b, base) == b[0] + base * val(bt, base));
        assert(a[0] == b[0] && val(at, base) == val(bt, base)) by (nonlinear_arith)
            requires
                (a[0] as nat) < base,
                (b[0] as nat) < base,
                a[0] + base * val(at, base) == b[0] + base * val(bt, base),
        ;
        assert(minimal(at)) by {
            if at.len() > 0 {
                assert(at[at.len() - 1] == a[a.len() - 1]);
            }
        }
        assert(minimal(bt)) by {
            if bt.len() > 0 {
                assert(bt[bt.len() - 1] == b[b.len() - 1]);
            }
        }
        assert(digits_below(at, base));
        assert(digits_below(bt, base));
        lemma_minimal_unique(at, bt, base);
        assert forall|i: int| 0 <= i < a.len() implies a[i] == b[i] by {
            if i > 0 {
                assert(a[i] == at[i - 1]);
                assert(b[i] == bt[i - 1]);
            }
        }
        assert(a =~= b);
    }
}

/// LAW: converting a digit sequence without leading zeros to bytes and the
/// bytes back to digits in the same base yields that digit sequence again.
/// The premises are exactly what `digits_to_bytes` and `bytes_to_digits`
/// ensure of their results.
pub proof fn lemma_digit_byte_round_trip(ds: Seq<u8>, bs: Seq<u8>, ds2: Seq<u8>, radix: u8)
    requires
        2 <= radix <= 16,
        digits_below(ds, radix as nat),
        minimal(ds),
        val(bs, 256) == val(ds, radix as nat),
        minimal(bs),
        val(ds2, radix as nat) == val(bs, 256),
        digits_below(ds2, radix as nat),
        minimal(ds2),
    ensures
        ds2 == ds,
{
    lemma_minimal_unique(ds2, ds, radix as nat);
}

/// Multiplies the number held in `acc` (least significant digit first, in
/// base `base`) by `mult` and adds `add`, propagating carries; the result
/// again carries no leading zero.
pub(crate) fn mul_add(acc: &mut Vec<u8>, base: u16, mult: u16, add: u16)
    requires
        2 <= base <= 256,
        2 <= mult <= 256,
        add < mult,
        digits_below(old(acc)@, base as nat),
        minimal(old(acc)@),
    ensures
        digits_below(final(acc)@, base as nat),
        minimal(final(acc)@),
        val(final(acc)@, base as nat) == val(old(acc)@, base as nat) * mult + add,
{
    let ghost orig = acc@;
    let ghost b = base as nat;
    let n = acc.len();
    let mut carry: u16 = add;
    let mut j: usize = 0;
    proof {
        assert(orig.take(0) =~= Seq::<u8>::empty());
        assert(acc@.take(0) =~= Seq::<u8>::empty());
    }
    while j < n
        invariant
            0 <= j <= n,
            n == acc.len() == orig.len(),
            2 <= base <= 256,
            2 <= mult <= 256,
            carry < mult,
            b == base as nat,
            acc@.skip(j as int) =~= orig.skip(j as int),
            digits_below(orig, b),
            digits_below(acc@.take(j as int), b),
            val(acc@.take(j as int), b) + carry * pow_n(b, j as nat) == val(orig.take(j as int), b)
                * mult + add,
        decreases n - j,
    {
        let ghost pre = acc@;
        let ghost pre_carry = carry as nat;
        proof {
            assert(acc@.skip(j as int)[0] == acc@[j as int]);
            assert(orig.skip(j as int)[0] == orig[j as int]);
            assert((acc@[j as int] as nat) * (mult as nat) + carry < 0x10000) by (nonlinear_arith)
                requires
                    (acc@[j as int] as nat) <= 255,
                    (mult as nat) <= 256,
                    (carry as nat) < (mult as nat),
            ;
        }
        let t: u32 = acc[j] as u32 * mult as u32 + carry as u32;
        let low: u8 = (t % base as u32) as u8;
        proof {
            assert((t as nat) / (base as nat) <= (t as nat)) by (nonlinear_arith)
                requires
                    base >= 2,
            ;
        }
        carry = (t / base as u32) as u16;
        acc[j] = low;
        proof {
            let jj = j as int;
            let tt = t as nat;
            assert(tt == orig[jj] * mult + pre_carry);
            assert(tt < base * mult) by (nonlinear_arith)
                requires
                    tt == orig[jj] * mult + pre_carry,
                    (orig[jj] as nat) < base as nat,
                    pre_carry < mult,
                    base >= 2,
                    mult >= 2,
            ;
            assert(carry < mult) by (nonlinear_arith)
                requires
                    carry == tt / (b as nat),
                    tt < b * mult,
                    b >= 2,
            ;
            assert(tt == b * (tt / b) + tt % b) by (nonlinear_arith)
                requires
                    b >= 2,
            ;
            // the prefix below j is unchanged by the write at j
            assert(acc@.take(jj) =~= pre.take(jj));
            assert(acc@.take(jj + 1) =~= acc@.take(jj).push(low));
            lemma_val_snoc(acc@.take(jj), low, b);
            assert forall|i: int| 0 <= i < acc@.len() - (jj + 1) implies #[trigger] acc@.skip(
                jj + 1,
            )[i] == orig.skip(jj + 1)[i] by {
                assert(pre.skip(jj)[i + 1] == orig.skip(jj)[i + 1]);
            }
            assert(acc@.skip(jj + 1) =~= orig.skip(jj + 1));
            assert(orig.take(jj + 1) =~= orig.take(jj).push(orig[jj]));
            lemma_val_snoc(orig.take(jj), orig[jj], b);
            let p = pow_n(b, j as nat);
            assert(pow_n(b, (j + 1) as nat) == b * p);
            // regroup: val' + carry' * base^(j+1) == val + t * base^j
            assert(low * p + (tt / b) * (b * p) == tt * p) by (nonlinear_arith)
                requires
                    tt == b * (tt / b) + tt % b,
                    low == tt % b,
                    p >= 0,
            ;
            assert(tt * p == orig[jj] * p * mult + pre_carry * p) by (nonlinear_arith)
                requires
                    tt == orig[jj] * mult + pre_carry,
            ;
            assert(val(orig.take(jj), b) * mult + add + orig[jj] * p * mult == (val(
                orig.take(jj),
                b,
            ) + orig[jj] * p) * mult + add) by (nonlinear_arith);
        }
        j = j + 1;
    }
    proof {
        assert(acc@.take(n as int) =~= acc@);
        assert(orig.take(n as int) =~= orig);
    }
    // drain the remaining carry, least significant digit first
    while carry > 0
        invariant
            2 <= base <= 256,
            2 <= mult <= 256,
            b == base as nat,
            digits_below(acc@, b),
            val(acc@, b) + carry * pow_n(b, acc@.len()) == val(orig, b) * mult + add,
            n <= acc.len(),
            acc@.len() > n ==> (carry > 0 || acc@[acc@.len() - 1] != 0),
        decreases carry,
    {
        let d: u8 = (carry % base) as u8;
        let ghost pre = acc@;
        let ghost pre_carry = carry as nat;
        acc.push(d);
        carry = carry / base;
        proof {
            assert(carry < pre_carry) by (nonlinear_arith)
                requires
                    carry == pre_carry / b,
                    pre_carry > 0,
                    b >= 2,
            ;
            lemma_val_snoc(pre, d, b);
            let p = pow_n(b, pre.len());
            assert(pow_n(b, acc@.len()) == b * p);
            assert(pre_carry == b * (pre_carry / b) + pre_carry % b) by (nonlinear_arith)
                requires
                    b >= 2,
            ;
            assert(d * p + (pre_carry / b) * (b * p) == pre_carry * p) by (nonlinear_arith)
                requires
                    pre_carry == b * (pre_carry / b) + pre_carry % b,
                    d == pre_carry % b,
                    p >= 0,
            ;
            // when this push retires the carry, the digit pushed is the
            // whole remaining carry, which is not zero
            if carry == 0 {
                assert(pre_carry % b == pre_carry) by (nonlinear_arith)
                    requires
                        b >= 2,
                        pre_carry / b == 0,
                        pre_carry > 0,
                ;
            }
        }
    }
    proof {
        assert(val(acc@, b) == val(orig, b) * mult + add);
        // no leading zero: either the last digit pushed was a final
        // non-zero carry, or nothing was pushed and the value forces a
        // non-zero top digit
        if acc@.len() > n {
        } else if n == 0 {
            assert(acc@.len() == 0);
        } else {
            assert(acc@.len() == n);
            if acc@[acc@.len() - 1] == 0 {
                let head = acc@.take(acc@.len() - 1);
                assert(acc@ =~= head.push(acc@[acc@.len() - 1]));
                lemma_val_snoc(head, acc@[acc@.len() - 1], b);
                assert(digits_below(head, b));
                lemma_val_bound(head, b);
                assert(val(acc@, b) < pow_n(b, (acc@.len() - 1) as nat));
                lemma_val_lower(orig, b);
                assert(val(orig, b) * mult >= val(orig, b) * 2) by (nonlinear_arith)
                    requires
                        mult >= 2,
                        val(orig, b) >= 0,
                ;
                assert(false);
            }
        }
    }
}

/// Re-expresses a digit sequence (least significant digit first, in base
/// `radix`) as the shortest byte sequence, least significant byte first, of
/// the same magnitude.  A digit at or above the base is rejected.
pub fn digits_to_bytes(digits: &Vec<u8>, radix: u8) -> (r: Result<Vec<u8>, CodecError>)
    requires
        2 <= radix <= 16,
    ensures
        r is Ok <==> digits_below(digits@, radix as nat),
        r matches Ok(bs) ==> val(bs@, 256) == val(digits@, radix as nat) && minimal(bs@),
        r matches Err(e) ==> e == CodecError::InvalidDigit,
{
    let n = digits.len();
    let mut acc: Vec<u8> = Vec::new();
    let mut j: usize = 0;
    proof {
        assert(digits@.skip(n as int) =~= Seq::<u8>::empty());
    }
    while j < n
        invariant
            0 <= j <= n,
            n == digits.len(),
            2 <= radix <= 16,
            digits_below(digits@.skip(n - j), radix as nat),
            val(acc@, 256) == val(digits@.skip(n - j), radix as nat),
            minimal(acc@),
            digits_below(acc@, 256),
        decreases n - j,
    {
        let d = digits[n - 1 - j];
        if d >= radix {
            proof {
                assert(digits@[n - 1 - j] >= radix);
                assert(!digits_below(digits@, radix as nat));
            }
            return Err(CodecError::InvalidDigit);
        }
        mul_add(&mut acc, 256, radix as u16, d as u16);
        proof {
            let s = digits@.skip(n - j - 1);
            assert(s.drop_first() =~= digits@.skip(n - j));
            assert(s[0] == digits@[n - 1 - j]);
            assert(val(s, radix as nat) == s[0] + (radix as nat) * val(
                s.drop_first(),
                radix as nat,
            ));
            assert forall|i: int| 0 <= i < s.len() implies (s[i] as nat) < radix as nat by {
                if i > 0 {
                    assert(s[i] == digits@.skip(n - j)[i - 1]);
                }
            }
            assert(digits_below(s, radix as nat));
        }
        j = j + 1;
    }
    proof {
        assert(digits@.skip(0) =~= digits@);
    }
    Ok(acc)
}

/// Re-expresses a byte sequence (least significant byte first) as the
/// shortest digit sequence in base `radix`, least significant digit first,
/// of the same magnitude.
pub fn bytes_to_digits(bytes: &Vec<u8>, radix: u8) -> (r: Vec<u8>)
    requires
        2 <= radix <= 16,
    ensures
        val(r@, radix as nat) == val(bytes@, 256),
        digits_below(r@, radix as nat),
        minimal(r@),
{
    let n = bytes.len();
    let mut acc: Vec<u8> = Vec::new();
    let mut j: usize = 0;
    proof {
        assert(bytes@.skip(n as int) =~= Seq::<u8>::empty());
    }
    while j < n
        invariant
            0 <= j <= n,
            n == bytes.len(),
            2 <= radix <= 16,
            val(acc@, radix as nat) == val(bytes@.skip(n - j), 256),
            minimal(acc@),
            digits_below(acc@, radix as nat),
        decreases n - j,
    {
        let d = bytes[n - 1 - j];
        mul_add(&mut acc, radix as u16, 256, d as u16);
        proof {
            let s = bytes@.skip(n - j - 1);
            assert(s.drop_first() =~= bytes@.skip(n - j));
            assert(s[0] == bytes@[n - 1 - j]);
            assert(val(s, 256) == s[0] + 256 * val(s.drop_first(), 256));
        }
        j = j + 1;
    }
    proof {
        assert(bytes@.skip(0) =~= bytes@);
    }
    acc
}

/// The digit values of a magnitude in a base, least significant first,
/// without leading zeros; zero has none.
pub open spec fn nat_to_digits(v: nat, radix: nat) -> Seq<u8>
    decreases v
        when radix >= 2
    via nat_to_digits_decreases
{
    if v == 0 {
        seq![]
    } else {
        seq![(v % radix) as u8] + nat_to_digits(v / radix, radix)
    }
}

#[via_fn]
proof fn nat_to_digits_decreases(v: nat, radix: nat) {
    assert(v > 0 && radix >= 2 ==> v / radix < v) by (nonlinear_arith);
}

/// The digit values of a magnitude denote it, stay below the base and
/// carry no leading zero.
pub proof fn lemma_nat_to_digits(v: nat, radix: nat)
    requires
        2 <= radix <= 256,
    ensures
        val(nat_to_digits(v, radix), radix) == v,
        digits_below(nat_to_digits(v, radix), radix),
        minimal(nat_to_digits(v, radix)),
        nat_to_digits(v, radix).len() == 0 <==> v == 0,
    decreases v,
{
    if v > 0 {
        assert(v / radix < v) by (nonlinear_arith)
            requires
                v > 0,
                radix >= 2,
        ;
        lemma_nat_to_digits(v / radix, radix);
        let ds = nat_to_digits(v, radix);
        let tail = nat_to_digits(v / radix, radix);
        assert(v % radix < radix) by (nonlinear_arith)
            requires
                radix >= 2,
        ;
        assert(ds == seq![(v % radix) as u8] + tail);
        assert(ds[0] == (v % radix) as u8);
        assert(ds.drop_first() =~= tail);
        assert(v == radix * (v / radix) + v % radix) by (nonlinear_arith)
            requires
                radix >= 2,
        ;
        if v / radix == 0 {
            assert(ds.len() == 1);
            assert(v % radix == v) by (nonlinear_arith)
                requires
                    radix >= 2,
                    v / radix == 0,
            ;
            assert(ds[0] != 0);
        } else {
            assert(tail.len() > 0);
            assert(ds[ds.len() - 1] == tail[tail.len() - 1]);
        }
    }
}

/// The digit text of a magnitude in a base: the canonical upper-case digit
/// character of each digit, most significant first, no leading zero; zero
/// renders as `0`.
pub open spec fn canonical_digits(v: nat, radix: nat) -> Seq<u8> {
    if v == 0 {
        seq![0x30u8]
    } else {
        let ds = nat_to_digits(v, radix);
        Seq::new(ds.len(), |i: int| crate::common::hex_digit_char(ds[ds.len() - 1 - i], true))
    }
}

/// Digit text is ASCII throughout.
pub proof fn lemma_canonical_digits_ascii(v: nat, radix: nat)
    requires
        2 <= radix <= 16,
    ensures
        forall|i: int| 0 <= i < canonical_digits(v, radix).len() ==> canonical_digits(
            v,
            radix,
        )[i] < 0x80,
{
    lemma_nat_to_digits(v, radix);
    let t = canonical_digits(v, radix);
    assert forall|i: int| 0 <= i < t.len() implies t[i] < 0x80 by {
        if v > 0 {
            let ds = nat_to_digits(v, radix);
            assert(t[i] == crate::common::hex_digit_char(ds[ds.len() - 1 - i], true));
            assert((ds[ds.len() - 1 - i] as nat) < radix);
        }
    }
}

/// The digit text of a magnitude in a base, in lower case: as
/// `canonical_digits`, with the letter digits in lower case.
pub open spec fn canonical_digits_lower(v: nat, radix: nat) -> Seq<u8> {
    if v == 0 {
        seq![0x30u8]
    } else {
        let ds = nat_to_digits(v, radix);
        Seq::new(ds.len(), |i: int| crate::common::hex_digit_char(ds[ds.len() - 1 - i], false))
    }
}

/// Lower-case digit text is ASCII throughout.
pub proof fn lemma_canonical_digits_lower_ascii(v: nat, radix: nat)
    requires
        2 <= radix <= 16,
    ensures
        forall|i: int| 0 <= i < canonical_digits_lower(v, radix).len() ==> canonical_digits_lower(
            v,
            radix,
        )[i] < 0x80,
{
    lemma_nat_to_digits(v, radix);
    let t = canonical_digits_lower(v, radix);
    assert forall|i: int| 0 <= i < t.len() implies t[i] < 0x80 by {
        if v > 0 {
            let ds = nat_to_digits(v, radix);
            assert(t[i] == crate::common::hex_digit_char(ds[ds.len() - 1 - i], false));
            assert((ds[ds.len() - 1 - i] as nat) < radix);
        }
    }
}

/// As `magnitude_text`, with the letter digits in lower case.
pub fn magnitude_text_lower(bytes: &Vec<u8>, radix: u8) -> (r: Vec<u8>)
    requires
        2 <= radix <= 16,
    ensures
        r@ == canonical_digits_lower(val(bytes@, 256), radix as nat),
{
    let ghost v = val(bytes@, 256);
    let digits = bytes_to_digits(bytes, radix);
    proof {
        lemma_nat_to_digits(v, radix as nat);
        lemma_minimal_unique(digits@, nat_to_digits(v, radix as nat), radix as nat);
    }
    let mut out: Vec<u8> = Vec::new();
    if digits.len() == 0 {
        out.push(0x30);
        proof {
            assert(out@ =~= canonical_digits_lower(v, radix as nat));
        }
        return out;
    }
    let n = digits.len();
    let mut j: usize = 0;
    while j < n
        invariant
            0 <= j <= n,
            n == digits@.len(),
            2 <= radix <= 16,
            digits_below(digits@, radix as nat),
            out@.len() == j,
            forall|i: int| 0 <= i < j ==> out@[i] == crate::common::hex_digit_char(
                digits@[n - 1 - i],
                false,
            ),
        decreases n - j,
    {
        let d = digits[n - 1 - j];
        out.push(crate::common::Base2_16::num_to_ascii(d, false));
        j = j + 1;
    }
    proof {
        assert(out@ =~= canonical_digits_lower(v, radix as nat));
    }
    out
}

/// Renders the magnitude of a byte sequence (least significant byte first)
/// as digit text in the given base, most significant digit first, in
/// upper case and without leading zeros; zero renders as `0`.
pub fn magnitude_text(bytes: &Vec<u8>, radix: u8) -> (r: Vec<u8>)
    requires
        2 <= radix <= 16,
    ensures
        r@ == canonical_digits(val(bytes@, 256), radix as nat),
{
    let ghost v = val(bytes@, 256);
    let digits = bytes_to_digits(bytes, radix);
    proof {
        lemma_nat_to_digits(v, radix as nat);
        lemma_minimal_unique(digits@, nat_to_digits(v, radix as nat), radix as nat);
    }
    let mut out: Vec<u8> = Vec::new();
    if digits.len() == 0 {
        out.push(0x30);
        proof {
            assert(out@ =~= canonical_digits(v, radix as nat));
        }
        return out;
    }
    let n = digits.len();
    let mut j: usize = 0;
    while j < n
        invariant
            0 <= j <= n,
            n == digits@.len(),
            2 <= radix <= 16,
            digits_below(digits@, radix as nat),
            out@.len() == j,
            forall|i: int| 0 <= i < j ==> out@[i] == crate::common::hex_digit_char(
                digits@[n - 1 - i],
                true,
            ),
        decreases n - j,
    {
        let d = digits[n - 1 - j];
        out.push(crate::common::Base2_16::num_to_ascii(d, true));
        j = j + 1;
    }
    proof {
        assert(out@ =~= canonical_digits(v, radix as nat));
    }
    out
}

/// The `w` little-endian bytes of a magnitude below 256 to the `w`.
pub open spec fn le_bytes_pad(v: nat, w: nat) -> Seq<u8> {
    Seq::new(w, |i: int| ((v / pow_n(256, i as nat)) % 256) as u8)
}

/// Padded little-endian bytes denote the magnitude they were made from.
pub proof fn lemma_le_bytes_pad_val(v: nat, w: nat)
    requires
        v < pow_n(256, w),
    ensures
        val(le_bytes_pad(v, w), 256) == v,
    decreases w,
{
    let s = le_bytes_pad(v, w);
    if w == 0 {
        assert(s.len() == 0);
    } else {
        assert(s[0] == ((v / pow_n(256, 0)) % 256) as u8);
        assert(pow_n(256, 0) == 1);
        assert(v / pow_n(256, 0) == v);
        assert(s.drop_first() =~= le_bytes_pad(v / 256, (w - 1) as nat)) by {
            assert forall|i: int| 0 <= i < w - 1 implies s.drop_first()[i] == le_bytes_pad(
                v / 256,
                (w - 1) as nat,
            )[i] by {
                let pi = pow_n(256, i as nat) as int;
                lemma_pow_n_pos(256, i as nat);
                vstd::arithmetic::div_mod::lemma_div_denominator(v as int, 256, pi);
                assert(pow_n(256, (i + 1) as nat) == 256 * pow_n(256, i as nat));
                assert(v as int / (256 * pi) == (v as int / 256) / pi);
            }
        }
        assert(v / 256 < pow_n(256, (w - 1) as nat)) by (nonlinear_arith)
            requires
                v < pow_n(256, w),
                pow_n(256, w) == 256 * pow_n(256, (w - 1) as nat),
        ;
        lemma_le_bytes_pad_val(v / 256, (w - 1) as nat);
        assert(val(s, 256) == (v % 256) + 256 * (v / 256));
    }
}

/// The `w` little-endian bytes of a 128-bit magnitude below 256 to the
/// `w`.
pub fn le_width_u128(v: u128, w: usize) -> (r: Vec<u8>)
    requires
        w <= 16,
        v < pow_n(256, w as nat),
    ensures
        r@ == le_bytes_pad(v as nat, w as nat),
        r@.len() == w,
        val(r@, 256) == v,
{
    let mut out: Vec<u8> = Vec::new();
    let mut rem: u128 = v;
    let mut i: usize = 0;
    proof {
        assert(pow_n(256, 0) == 1);
        assert(v as nat / pow_n(256, 0) == v as nat);
    }
    while i < w
        invariant
            0 <= i <= w,
            out@.len() == i,
            rem == v as nat / pow_n(256, i as nat),
            forall|m: int| 0 <= m < i ==> out@[m] == ((v as nat / pow_n(256, m as nat))
                % 256) as u8,
        decreases w - i,
    {
        let b: u8 = (rem % 256) as u8;
        out.push(b);
        rem = rem / 256;
        proof {
            lemma_pow_n_pos(256, i as nat);
            vstd::arithmetic::div_mod::lemma_div_denominator(
                v as int,
                pow_n(256, i as nat) as int,
                256,
            );
            assert(pow_n(256, (i + 1) as nat) == 256 * pow_n(256, i as nat));
            assert(pow_n(256, i as nat) * 256 == 256 * pow_n(256, i as nat)) by (nonlinear_arith);
        }
        i = i + 1;
    }
    proof {
        assert(out@ =~= le_bytes_pad(v as nat, w as nat));
        lemma_le_bytes_pad_val(v as nat, w as nat);
    }
    out
}

/// The value of a byte sequence of at most sixteen bytes, as a 128-bit
/// value.
pub fn le_val_u128(bytes: &Vec<u8>) -> (r: u128)
    requires
        bytes@.len() <= 16,
    ensures
        r == val(bytes@, 256),
{
    let n = bytes.len();
    let mut acc: u128 = 0;
    let mut j: usize = 0;
    proof {
        assert(bytes@.skip(n as int) =~= Seq::<u8>::empty());
    }
    while j < n
        invariant
            0 <= j <= n == bytes@.len() <= 16,
            acc == val(bytes@.skip(n - j), 256),
            acc < pow_n(256, j as nat),
        decreases n - j,
    {
        proof {
            lemma_pow_n_le(256, j as nat, 15);
            assert(pow_n(256, 15) == 0x1000000000000000000000000000000) by {
                reveal_with_fuel(pow_n, 17);
            }
            assert(acc * 256 + 255 < pow_n(256, (j + 1) as nat)) by (nonlinear_arith)
                requires
                    acc < pow_n(256, j as nat),
                    pow_n(256, (j + 1) as nat) == 256 * pow_n(256, j as nat),
            ;
            assert(pow_n(256, (j + 1) as nat) == 256 * pow_n(256, j as nat));
            lemma_pow_n_le(256, (j + 1) as nat, 16);
            assert(pow_n(256, 16) == 0x100000000000000000000000000000000) by {
                reveal_with_fuel(pow_n, 18);
            }
        }
        let b = bytes[n - 1 - j];
        acc = acc * 256 + b as u128;
        proof {
            let s = bytes@.skip(n - j - 1);
            assert(s.drop_first() =~= bytes@.skip(n - j));
            assert(s[0] == bytes@[n - 1 - j]);
            assert(val(s, 256) == s[0] + 256 * val(s.drop_first(), 256));
        }
        j = j + 1;
    }
    proof {
        assert(bytes@.skip(0) =~= bytes@);
    }
    acc
}

/// 256 to the `w`, for widths a 128-bit value can hold.
pub fn pow256_u128(w: usize) -> (r: u128)
    requires
        w <= 15,
    ensures
        r == pow_n(256, w as nat),
{
    let mut r: u128 = 1;
    let mut i: usize = 0;
    while i < w
        invariant
            0 <= i <= w <= 15,
            r == pow_n(256, i as nat),
        decreases w - i,
    {
        proof {
            lemma_pow_n_le(256, i as nat, 14);
            assert(pow_n(256, 14) == 0x10000000000000000000000000000) by {
                reveal_with_fuel(pow_n, 16);
            }
            assert(pow_n(256, (i + 1) as nat) == 256 * pow_n(256, i as nat));
        }
        r = r * 256;
        i = i + 1;
    }
    r
}

/// Each byte of a little-endian sequence is the matching base-256 digit of
/// its magnitude.
pub proof fn lemma_byte_at(s: Seq<u8>, i: int)
    requires
        0 <= i < s.len(),
    ensures
        s[i] == ((val(s, 256) / pow_n(256, i as nat)) % 256) as u8,
    decreases i,
{
    let v = val(s, 256) as int;
    let rest = s.drop_first();
    assert(val(s, 256) == s[0] + 256 * val(rest, 256));
    if i == 0 {
        assert(pow_n(256, 0) == 1);
        assert(v / 1 == v);
        vstd::arithmetic::div_mod::lemma_fundamental_div_mod_converse_mod(
            v,
            256,
            val(rest, 256) as int,
            s[0] as int,
        );
    } else {
        vstd::arithmetic::div_mod::lemma_fundamental_div_mod_converse_div(
            v,
            256,
            val(rest, 256) as int,
            s[0] as int,
        );
        assert(v / 256 == val(rest, 256));
        let p = pow_n(256, (i - 1) as nat) as int;
        lemma_pow_n_pos(256, (i - 1) as nat);
        vstd::arithmetic::div_mod::lemma_div_denominator(v, 256, p);
        assert(pow_n(256, i as nat) == 256 * pow_n(256, (i - 1) as nat));
        assert(v / (256 * p) == (v / 256) / p);
        lemma_byte_at(rest, i - 1);
        assert(s[i] == rest[i - 1]);
    }
}

/// A sequence of `w` bytes is the padded little-endian form of its own
/// magnitude.
pub proof fn lemma_le_pad_unique(s: Seq<u8>, w: nat)
    requires
        s.len() == w,
    ensures
        s == le_bytes_pad(val(s, 256), w),
{
    assert forall|i: int| 0 <= i < w implies s[i] == le_bytes_pad(val(s, 256), w)[i] by {
        lemma_byte_at(s, i);
    }
    assert(s =~= le_bytes_pad(val(s, 256), w));
}

/// Extends a byte sequence with zero bytes to the given width, keeping its
/// magnitude.
pub fn zero_pad(bytes: Vec<u8>, w: usize) -> (r: Vec<u8>)
    requires
        bytes@.len() <= w,
    ensures
        r@.len() == w,
        val(r@, 256) == val(bytes@, 256),
{
    let mut out = bytes;
    while out.len() < w
        invariant
            out@.len() <= w,
            val(out@, 256) == val(bytes@, 256),
        decreases w - out@.len(),
    {
        let ghost pre = out@;
        out.push(0);
        proof {
            lemma_val_snoc(pre, 0, 256);
            assert((0u8) * pow_n(256, pre.len()) == 0) by (nonlinear_arith);
        }
    }
    out
}

/// The two's complement of a magnitude over `w` bytes: the little-endian
/// bytes of `256^w` less the magnitude, or zero for zero.
pub fn twos_complement(mag: &Vec<u8>, w: usize) -> (r: Vec<u8>)
    requires
        mag@.len() <= w,
    ensures
        r@.len() == w,
        val(r@, 256) == (if val(mag@, 256) == 0 {
            0nat
        } else {
            (pow_n(256, w as nat) - val(mag@, 256)) as nat
        }),
{
    let ghost m = val(mag@, 256);
    let len = mag.len();
    let mut out: Vec<u8> = Vec::new();
    let mut carry: u16 = 1;
    let mut i: usize = 0;
    proof {
        assert(mag@.take(0) =~= Seq::<u8>::empty());
    }
    while i < w
        invariant
            0 <= i <= w,
            len == mag@.len() <= w,
            out@.len() == i,
            carry <= 1,
            val(out@, 256) + val(mag@.take(if i < len {
                i as int
            } else {
                len as int
            }), 256) + carry * pow_n(256, i as nat) == pow_n(256, i as nat),
        decreases w - i,
    {
        let ghost pre = out@;
        let ghost pre_carry = carry as nat;
        let ghost cut = if i < len {
            i as int
        } else {
            len as int
        };
        let src: u8 = if i < len {
            mag[i]
        } else {
            0
        };
        let t: u16 = (255 - src as u16) + carry;
        let low: u8 = (t % 256) as u8;
        carry = t / 256;
        out.push(low);
        proof {
            let p = pow_n(256, i as nat);
            lemma_val_snoc(pre, low, 256);
            assert(pow_n(256, (i + 1) as nat) == 256 * p);
            let cut2 = if i + 1 < len {
                i + 1
            } else {
                len as int
            };
            if i < len {
                assert(mag@.take(cut2) =~= mag@.take(cut).push(mag@[i as int]));
                lemma_val_snoc(mag@.take(cut), mag@[i as int], 256);
            } else {
                assert(mag@.take(cut2) =~= mag@.take(cut));
            }
            assert(t == 255 - src + pre_carry);
            assert(t % 256 + 256 * (t / 256) == t);
            assert(low + 256 * carry == 255 - src + pre_carry);
            assert(low * p + src * p + carry * (256 * p) == 255 * p + pre_carry * p)
                by (nonlinear_arith)
                requires
                    low + 256 * carry == 255 - src + pre_carry,
                    p >= 0,
            ;
            assert(256 * p == p + 255 * p) by (nonlinear_arith);
        }
        i = i + 1;
    }
    proof {
        assert(mag@.take(if w < len {
            w as int
        } else {
            len as int
        }) =~= mag@);
        let pw = pow_n(256, w as nat);
        assert(val(out@, 256) + m + carry * pw == pw);
        if carry == 1 {
            assert(val(out@, 256) + m == 0) by (nonlinear_arith)
                requires
                    val(out@, 256) + m + 1 * pw == pw,
            ;
        } else {
            assert(carry * pw == 0) by (nonlinear_arith)
                requires
                    carry == 0,
            ;
            assert(m > 0) by {
                if m == 0 {
                    lemma_val_bound(out@, 256);
                }
            }
        }
    }
    out
}

/// A magnitude is zero exactly when all its digits are.
pub proof fn lemma_val_zero(s: Seq<u8>, base: nat)
    requires
        base >= 1,
    ensures
        val(s, base) == 0 <==> (forall|i: int| 0 <= i < s.len() ==> s[i] == 0),
    decreases s.len(),
{
    if s.len() > 0 {
        lemma_val_zero(s.drop_first(), base);
        if val(s, base) == 0 {
            assert(s[0] == 0);
            assert(base * val(s.drop_first(), base) == 0);
            assert(val(s.drop_first(), base) == 0) by (nonlinear_arith)
                requires
                    base >= 1,
                    base * val(s.drop_first(), base) == 0,
            ;
            assert forall|i: int| 0 <= i < s.len() implies s[i] == 0 by {
                if i > 0 {
                    assert(s.drop_first()[i - 1] == 0);
                }
            }
        } else {
            if forall|i: int| 0 <= i < s.len() ==> s[i] == 0 {
                assert(s[0] == 0);
                assert forall|i: int| 0 <= i < s.drop_first().len() implies s.drop_first()[i]
                    == 0 by {
                    assert(s.drop_first()[i] == s[i + 1]);
                }
                assert(val(s.drop_first(), base) == 0);
            }
        }
    }
}

/// A shortest byte sequence fits in `w` bytes exactly when its magnitude
/// is below 256 to the `w`.
pub proof fn lemma_fits_unsigned(s: Seq<u8>, w: nat)
    requires
        minimal(s),
        digits_below(s, 256),
    ensures
        s.len() <= w <==> val(s, 256) < pow_n(256, w),
{
    lemma_val_bound(s, 256);
    if s.len() <= w {
        lemma_pow_n_le(256, s.len(), w);
    } else {
        lemma_val_lower(s, 256);
        lemma_pow_n_le(256, w, (s.len() - 1) as nat);
    }
}

/// A shortest byte sequence against the signed bound `128 * 256^(w-1)`:
/// strictly below it exactly when it is shorter than `w` bytes or its top
/// byte is below 128, and at it exactly when the top byte is 128 over
/// zeros.
pub proof fn lemma_fits_signed(s: Seq<u8>, w: nat)
    requires
        minimal(s),
        digits_below(s, 256),
        w >= 1,
    ensures
        (s.len() < w || (s.len() == w && s[w - 1] < 128)) <==> val(s, 256) < 128 * pow_n(
            256,
            (w - 1) as nat,
        ),
        (s.len() == w && s[w - 1] == 128 && val(s.take(w - 1), 256) == 0) <==> val(s, 256) == 128
            * pow_n(256, (w - 1) as nat),
{
    let p = pow_n(256, (w - 1) as nat);
    lemma_pow_n_pos(256, (w - 1) as nat);
    lemma_val_bound(s, 256);
    if s.len() < w {
        lemma_pow_n_le(256, s.len(), (w - 1) as nat);
        assert(val(s, 256) < p);
        assert(p < 128 * p) by (nonlinear_arith)
            requires
                p >= 1,
        ;
    } else if s.len() == w {
        let head = s.take(w - 1);
        let top = s[w - 1];
        assert(s =~= head.push(top));
        lemma_val_snoc(head, top, 256);
        assert(digits_below(head, 256));
        lemma_val_bound(head, 256);
        assert(val(s, 256) == val(head, 256) + top * p);
        if top < 128 {
            assert(val(head, 256) + top * p < p + top * p);
            assert(p + top * p == (top + 1) * p) by (nonlinear_arith);
            assert((top + 1) * p <= 128 * p) by (nonlinear_arith)
                requires
                    top + 1 <= 128,
                    p >= 1,
        ;
        } else {
            assert(top * p >= 128 * p) by (nonlinear_arith)
                requires
                    top >= 128,
                    p >= 1,
            ;
            if top == 128 && val(head, 256) == 0 {
                assert(val(s, 256) == 128 * p);
            }
            if val(s, 256) == 128 * p {
                assert(val(head, 256) + top * p == 128 * p);
                assert(top == 128) by (nonlinear_arith)
                    requires
                        top >= 128,
                        val(head, 256) >= 0,
                        val(head, 256) + top * p == 128 * p,
                        p >= 1,
                ;
            }
        }
    } else {
        lemma_val_lower(s, 256);
        let q = pow_n(256, (s.len() - 1) as nat);
        lemma_pow_n_le(256, w, (s.len() - 1) as nat);
        assert(pow_n(256, w) == 256 * p);
        assert(val(s, 256) >= q >= 256 * p);
        assert(256 * p > 128 * p) by (nonlinear_arith)
            requires
                p >= 1,
        ;
    }
}

/// The value of a byte sequence of at most eight bytes, as a 64-bit value.
pub fn le_val_u64(bytes: &[u8]) -> (r: u64)
    requires
        bytes@.len() <= 8,
    ensures
        r == val(bytes@, 256),
{
    let n = bytes.len();
    let mut acc: u64 = 0;
    let mut j: usize = 0;
    proof {
        assert(bytes@.skip(n as int) =~= Seq::<u8>::empty());
    }
    while j < n
        invariant
            0 <= j <= n == bytes@.len() <= 8,
            acc == val(bytes@.skip(n - j), 256),
            acc < pow_n(256, j as nat),
        decreases n - j,
    {
        proof {
            lemma_pow_n_le(256, j as nat, 7);
            assert(pow_n(256, 7) == 0x100000000000000) by {
                reveal_with_fuel(pow_n, 9);
            }
            assert(acc * 256 + 255 < pow_n(256, (j + 1) as nat)) by (nonlinear_arith)
                requires
                    acc < pow_n(256, j as nat),
                    pow_n(256, (j + 1) as nat) == 256 * pow_n(256, j as nat),
            ;
            assert(pow_n(256, (j + 1) as nat) == 256 * pow_n(256, j as nat));
            lemma_pow_n_le(256, (j + 1) as nat, 8);
            assert(pow_n(256, 8) == 0x10000000000000000) by {
                reveal_with_fuel(pow_n, 10);
            }
        }
        let b = bytes[n - 1 - j];
        acc = acc * 256 + b as u64;
        proof {
            let s = bytes@.skip(n - j - 1);
            assert(s.drop_first() =~= bytes@.skip(n - j));
            assert(s[0] == bytes@[n - 1 - j]);
            assert(val(s, 256) == s[0] + 256 * val(s.drop_first(), 256));
        }
        j = j + 1;
    }
    proof {
        assert(bytes@.skip(0) =~= bytes@);
    }
    acc
}

} // verus!
