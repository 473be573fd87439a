use vstd::prelude::*;
use vstd::utf8::{
    decode_utf8, encode_utf8, encode_utf8_decode_utf8, encode_utf8_valid_utf8,
    is_ascii_chars, is_ascii_chars_encode_utf8, valid_utf8,
};

verus! {

/// Byte values the text layer treats specially.
pub const QUOTE: u8 = 0x22;
pub const BACKSLASH: u8 = 0x5C;
pub const MINUS: u8 = 0x2D;
pub const DIGIT_ZERO: u8 = 0x30;

pub open spec fn is_digit_byte(b: u8) -> bool {
    0x30 <= b <= 0x39
}

/// Ten to the `k`-th power.
pub open spec fn pow10(k: nat) -> nat
    decreases k,
{
    if k == 0 {
        1
    } else {
        10 * pow10((k - 1) as nat)
    }
}

/// Decimal digits of `n`, most significant first.
pub open spec fn dec_bytes(n: nat) -> Seq<u8>
    decreases n,
{
    if n < 10 {
        seq![(DIGIT_ZERO + n) as u8]
    } else {
        dec_bytes(n / 10).push((DIGIT_ZERO + n % 10) as u8)
    }
}

/// Value of a digit sequence, read most significant first.
pub open spec fn dec_value(s: Seq<u8>) -> nat
    decreases s.len(),
{
    if s.len() == 0 {
        0
    } else {
        dec_value(s.drop_last()) * 10 + (s.last() - DIGIT_ZERO) as nat
    }
}

pub proof fn lemma_dec_bytes_shape(n: nat)
    ensures
        dec_bytes(n).len() >= 1,
        forall|i: int| 0 <= i < dec_bytes(n).len() ==> is_digit_byte(#[trigger] dec_bytes(n)[i]),
    decreases n,
{
    if n >= 10 {
        lemma_dec_bytes_shape(n / 10);
    }
}

pub proof fn lemma_dec_value_of_dec_bytes(n: nat)
    ensures
        dec_value(dec_bytes(n)) == n,
    decreases n,
{
    assert(dec_value(Seq::<u8>::empty()) == 0);
    if n < 10 {
        assert(dec_bytes(n).drop_last() =~= Seq::<u8>::empty());
    } else {
        lemma_dec_value_of_dec_bytes(n / 10);
        assert(dec_bytes(n) == dec_bytes(n / 10).push((DIGIT_ZERO + n % 10) as u8));
        assert(dec_bytes(n / 10).push((DIGIT_ZERO + n % 10) as u8).drop_last() =~= dec_bytes(
            n / 10,
        ));
    }
}

/// Value of a digit sequence in terms of its first digit.
proof fn lemma_dec_value_front(d0: u8, d: Seq<u8>)
    requires
        is_digit_byte(d0),
        forall|i: int| 0 <= i < d.len() ==> is_digit_byte(#[trigger] d[i]),
    ensures
        dec_value(seq![d0] + d) == (d0 - DIGIT_ZERO) * pow10(d.len()) + dec_value(d),
    decreases d.len(),
{
    if d.len() == 0 {
        assert(d =~= Seq::<u8>::empty());
        assert(dec_value(d) == 0);
        assert(pow10(d.len()) == 1);
        assert(seq![d0] + d =~= seq![d0]);
        assert(dec_value(seq![d0]) == (d0 - DIGIT_ZERO) as nat) by {
            assert(seq![d0].drop_last() =~= Seq::<u8>::empty());
            assert(dec_value(Seq::<u8>::empty()) == 0);
            assert(seq![d0].last() == d0);
        }
        assert((d0 - DIGIT_ZERO) * pow10(d.len()) + dec_value(d) == (d0 - DIGIT_ZERO) as nat);
    } else {
        let dn = d.last();
        let dfront = d.drop_last();
        assert((seq![d0] + d).drop_last() =~= seq![d0] + dfront);
        assert((seq![d0] + d).last() == dn);
        assert(dec_value(d) == dec_value(dfront) * 10 + (dn - DIGIT_ZERO) as nat);
        assert(dec_value(seq![d0] + d) == dec_value(seq![d0] + dfront) * 10 + (dn
            - DIGIT_ZERO) as nat);
        lemma_dec_value_front(d0, dfront);
        assert(((d0 - DIGIT_ZERO) * pow10(dfront.len()) + dec_value(dfront)) * 10
            == (d0 - DIGIT_ZERO) * (10 * pow10(dfront.len())) + dec_value(dfront) * 10)
            by (nonlinear_arith);
        assert(pow10(d.len()) == 10 * pow10(dfront.len()));
    }
}

/// Greedy decimal scan: consume leading digits, accumulating onto `acc`.
pub open spec fn spec_digits_loop(s: Seq<u8>, acc: nat) -> (nat, Seq<u8>)
    decreases s.len(),
{
    if s.len() > 0 && is_digit_byte(s[0]) {
        spec_digits_loop(s.drop_first(), acc * 10 + (s[0] - DIGIT_ZERO) as nat)
    } else {
        (acc, s)
    }
}

/// Parse an unsigned decimal number from the front of `s`: at least one
/// digit, taken greedily; fails when there is no digit or the value exceeds
/// `u64::MAX`.
pub open spec fn spec_parse_u64(s: Seq<u8>) -> Option<(u64, Seq<u8>)> {
    if s.len() > 0 && is_digit_byte(s[0]) {
        let (v, rem) = spec_digits_loop(s, 0);
        if v <= u64::MAX {
            Some((v as u64, rem))
        } else {
            None
        }
    } else {
        None
    }
}

proof fn lemma_digits_loop_append(d: Seq<u8>, rest: Seq<u8>, acc: nat)
    requires
        forall|i: int| 0 <= i < d.len() ==> is_digit_byte(#[trigger] d[i]),
        rest.len() == 0 || !is_digit_byte(rest[0]),
    ensures
        spec_digits_loop(d + rest, acc) == (acc * pow10(d.len()) + dec_value(d), rest),
    decreases d.len(),
{
    if d.len() == 0 {
        assert(d + rest =~= rest);
        assert(d =~= Seq::<u8>::empty());
        assert(dec_value(d) == 0);
        assert(pow10(d.len()) == 1);
        assert(acc * pow10(d.len()) + dec_value(d) == acc) by (nonlinear_arith)
            requires
                pow10(d.len()) == 1,
                dec_value(d) == 0,
        ;
    } else {
        let d0 = d[0];
        let dtail = d.drop_first();
        assert((d + rest)[0] == d0);
        assert((d + rest).drop_first() =~= dtail + rest);
        assert(spec_digits_loop(d + rest, acc) == spec_digits_loop(
            dtail + rest,
            acc * 10 + (d0 - DIGIT_ZERO) as nat,
        ));
        lemma_digits_loop_append(dtail, rest, acc * 10 + (d0 - DIGIT_ZERO) as nat);
        lemma_dec_value_front(d0, dtail);
        assert(d =~= seq![d0] + dtail);
        assert(dec_value(d) == (d0 - DIGIT_ZERO) * pow10(dtail.len()) + dec_value(dtail));
        let k = dtail.len();
        assert((acc * 10 + (d0 - DIGIT_ZERO) as nat) * pow10(k)
            == acc * (10 * pow10(k)) + (d0 - DIGIT_ZERO) as nat * pow10(k)) by (nonlinear_arith);
        assert(pow10(d.len()) == 10 * pow10(k));
    }
}

/// A rendered number followed by anything that does not extend the digit
/// run parses back to itself.
pub proof fn lemma_parse_u64_roundtrip(n: u64, rest: Seq<u8>)
    requires
        rest.len() == 0 || !is_digit_byte(rest[0]),
    ensures
        spec_parse_u64(dec_bytes(n as nat) + rest) == Some((n, rest)),
{
    lemma_dec_bytes_shape(n as nat);
    lemma_dec_value_of_dec_bytes(n as nat);
    lemma_digits_loop_append(dec_bytes(n as nat), rest, 0);
    assert((dec_bytes(n as nat) + rest)[0] == dec_bytes(n as nat)[0]);
}

proof fn lemma_digits_loop_lower_bound(s: Seq<u8>, acc: nat)
    ensures
        spec_digits_loop(s, acc).0 >= acc,
    decreases s.len(),
{
    if s.len() > 0 && is_digit_byte(s[0]) {
        lemma_digits_loop_lower_bound(s.drop_first(), acc * 10 + (s[0] - DIGIT_ZERO) as nat);
        assert(acc * 10 >= acc) by (nonlinear_arith);
    }
}

/// Append the decimal rendering of `n` to `out`.
pub fn render_u64(out: &mut Vec<u8>, n: u64)
    ensures
        final(out)@ == old(out)@ + dec_bytes(n as nat),
    decreases n,
{
    if n < 10 {
        out.push(DIGIT_ZERO + (n as u8));
    } else {
        render_u64(out, n / 10);
        out.push(DIGIT_ZERO + ((n % 10) as u8));
        assert(out@ =~= old(out)@ + dec_bytes(n as nat));
    }
}

/// Parse an unsigned decimal number starting at `pos`; on success returns
/// the value and the index just past the digits consumed.
pub fn parse_u64(s: &Vec<u8>, pos: usize) -> (r: Option<(u64, usize)>)
    requires
        pos <= s@.len(),
    ensures
        match spec_parse_u64(s@.skip(pos as int)) {
            Some((v, rem)) => r == Some((v, (s@.len() - rem.len()) as usize)),
            None => r is None,
        },
{
    let ghost whole = s@.skip(pos as int);
    if pos == s.len() || !(s[pos] >= DIGIT_ZERO && s[pos] <= 0x39) {
        assert(whole.len() > 0 ==> whole[0] == s@[pos as int]);
        return None;
    }
    assert(whole[0] == s@[pos as int]);
    let mut i: usize = pos;
    let mut acc: u64 = 0;
    loop
        invariant
            pos <= i <= s@.len(),
            whole == s@.skip(pos as int),
            whole.len() > 0 && is_digit_byte(whole[0]),
            spec_digits_loop(whole, 0) == spec_digits_loop(s@.skip(i as int), acc as nat),
        decreases s@.len() - i,
    {
        if i == s.len() || !(s[i] >= DIGIT_ZERO && s[i] <= 0x39) {
            assert(s@.skip(i as int).len() > 0 ==> s@.skip(i as int)[0] == s@[i as int]);
            assert(s@.skip(i as int).len() == 0 || !is_digit_byte(s@.skip(i as int)[0]));
            assert(spec_digits_loop(s@.skip(i as int), acc as nat) == (
                acc as nat,
                s@.skip(i as int),
            ));
            assert(s@.skip(i as int).len() == s@.len() - i);
            return Some((acc, i));
        }
        let d = s[i] - DIGIT_ZERO;
        assert(s@.skip(i as int)[0] == s@[i as int]);
        assert(s@.skip(i as int).drop_first() =~= s@.skip(i as int + 1));
        let acc10 = match acc.checked_mul(10) {
            Some(v) => v,
            None => {
                proof {
                    lemma_digits_loop_lower_bound(
                        s@.skip(i as int).drop_first(),
                        acc as nat * 10 + d as nat,
                    );
                }
                return None;
            },
        };
        let next = match acc10.checked_add(d as u64) {
            Some(v) => v,
            None => {
                proof {
                    lemma_digits_loop_lower_bound(
                        s@.skip(i as int).drop_first(),
                        acc as nat * 10 + d as nat,
                    );
                }
                return None;
            },
        };
        acc = next;
        i = i + 1;
    }
}

/// Magnitude of a signed value, as mathematical integer.
pub open spec fn abs_int(n: int) -> nat {
    if n >= 0 {
        n as nat
    } else {
        (-n) as nat
    }
}

/// Decimal rendering of a signed value: a minus sign when negative, then
/// the digits of the magnitude.
pub open spec fn dec_bytes_i64(n: int) -> Seq<u8> {
    if n < 0 {
        seq![MINUS] + dec_bytes(abs_int(n))
    } else {
        dec_bytes(abs_int(n))
    }
}

/// Parse a signed decimal number: an optional minus sign, then digits; the
/// value must fit in `i64`.
pub open spec fn spec_parse_i64(s: Seq<u8>) -> Option<(i64, Seq<u8>)> {
    if s.len() > 0 && s[0] == MINUS {
        match spec_parse_u64(s.drop_first()) {
            Some((mag, rem)) => {
                if mag <= i64::MAX as u64 {
                    Some(((-(mag as int)) as i64, rem))
                } else if mag == i64::MAX as u64 + 1 {
                    Some((i64::MIN, rem))
                } else {
                    None
                }
            },
            None => None,
        }
    } else {
        match spec_parse_u64(s) {
            Some((mag, rem)) => {
                if mag <= i64::MAX as u64 {
                    Some((mag as i64, rem))
                } else {
                    None
                }
            },
            None => None,
        }
    }
}

/// Append the decimal rendering of the signed value `n` to `out`.
pub fn render_i64(out: &mut Vec<u8>, n: i64)
    ensures
        final(out)@ == old(out)@ + dec_bytes_i64(n as int),
{
    if n < 0 {
        out.push(MINUS);
        let mag: u64 = if n == i64::MIN {
            i64::MAX as u64 + 1
        } else {
            (-n) as u64
        };
        render_u64(out, mag);
        assert(out@ =~= old(out)@ + dec_bytes_i64(n as int));
    } else {
        render_u64(out, n as u64);
    }
}

/// Parse a signed decimal number starting at `pos`.
pub fn parse_i64(s: &Vec<u8>, pos: usize) -> (r: Option<(i64, usize)>)
    requires
        pos <= s@.len(),
    ensures
        match spec_parse_i64(s@.skip(pos as int)) {
            Some((v, rem)) => r == Some((v, (s@.len() - rem.len()) as usize)),
            None => r is None,
        },
{
    if pos < s.len() && s[pos] == MINUS {
        assert(s@.skip(pos as int)[0] == MINUS);
        assert(s@.skip(pos as int).drop_first() =~= s@.skip(pos as int + 1));
        match parse_u64(s, pos + 1) {
            Some((mag, end)) => {
                if mag <= i64::MAX as u64 {
                    Some((-(mag as i64), end))
                } else if mag == i64::MAX as u64 + 1 {
                    Some((i64::MIN, end))
                } else {
                    None
                }
            },
            None => None,
        }
    } else {
        assert(s@.skip(pos as int).len() > 0 ==> s@.skip(pos as int)[0] == s@[pos as int]);
        match parse_u64(s, pos) {
            Some((mag, end)) => {
                if mag <= i64::MAX as u64 {
                    Some((mag as i64, end))
                } else {
                    None
                }
            },
            None => None,
        }
    }
}

/// A rendered signed number followed by anything that does not extend its
/// digit run parses back to itself.
pub proof fn lemma_parse_i64_roundtrip(n: i64, rest: Seq<u8>)
    requires
        rest.len() == 0 || !is_digit_byte(rest[0]),
    ensures
        spec_parse_i64(dec_bytes_i64(n as int) + rest) == Some((n, rest)),
{
    if n < 0 {
        let mag = abs_int(n as int);
        let magu: u64 = if n == i64::MIN { ((i64::MAX as u64) + 1) as u64 } else { (-(n as int)) as u64 };
        assert(magu as nat == mag);
        lemma_parse_u64_roundtrip(magu, rest);
        assert((dec_bytes_i64(n as int) + rest)[0] == MINUS);
        assert((dec_bytes_i64(n as int) + rest).drop_first() =~= dec_bytes(mag) + rest);
        lemma_dec_bytes_shape(mag);
    } else {
        lemma_parse_u64_roundtrip(n as u64, rest);
        lemma_dec_bytes_shape(n as nat);
        assert((dec_bytes_i64(n as int) + rest)[0] == dec_bytes(n as nat)[0]);
    }
}

/// The escape of one byte inside a JSON string: quotes and backslashes take
/// a backslash prefix; every other byte stands for itself.
pub open spec fn esc_byte(b: u8) -> Seq<u8> {
    if b == QUOTE || b == BACKSLASH {
        seq![BACKSLASH, b]
    } else {
        seq![b]
    }
}

/// The escaped form of a byte string, as it stands between the quotes of a
/// JSON string.
pub open spec fn esc_bytes(s: Seq<u8>) -> Seq<u8>
    decreases s.len(),
{
    if s.len() == 0 {
        Seq::empty()
    } else {
        esc_byte(s[0]) + esc_bytes(s.drop_first())
    }
}

proof fn lemma_esc_bytes_push(s: Seq<u8>, b: u8)
    ensures
        esc_bytes(s.push(b)) == esc_bytes(s) + esc_byte(b),
    decreases s.len(),
{
    if s.len() == 0 {
        assert(s.push(b)[0] == b);
        assert(s.push(b).drop_first() =~= Seq::<u8>::empty());
        assert(esc_bytes(Seq::<u8>::empty()) =~= Seq::<u8>::empty());
        assert(esc_bytes(s.push(b)) == esc_byte(b) + esc_bytes(Seq::<u8>::empty()));
        assert(esc_byte(b) + Seq::<u8>::empty() =~= esc_byte(b));
        assert(esc_bytes(s) + esc_byte(b) =~= esc_byte(b));
    } else {
        assert(s.push(b)[0] == s[0]);
        assert(s.push(b).drop_first() =~= s.drop_first().push(b));
        lemma_esc_bytes_push(s.drop_first(), b);
        assert(esc_bytes(s.push(b)) == esc_byte(s[0]) + (esc_bytes(s.drop_first())
            + esc_byte(b)));
        assert(esc_byte(s[0]) + (esc_bytes(s.drop_first()) + esc_byte(b)) =~= (esc_byte(s[0])
            + esc_bytes(s.drop_first())) + esc_byte(b));
    }
}

/// Append the escaped form of `s` to `out`.
pub fn escape_into(out: &mut Vec<u8>, s: &[u8])
    ensures
        final(out)@ == old(out)@ + esc_bytes(s@),
{
    let ghost base = old(out)@;
    let mut i: usize = 0;
    assert(s@.take(0) =~= Seq::<u8>::empty());
    assert(out@ =~= base + esc_bytes(s@.take(0)));
    while i < s.len()
        invariant
            i <= s@.len(),
            out@ == base + esc_bytes(s@.take(i as int)),
        decreases s@.len() - i,
    {
        let b = s[i];
        if b == QUOTE || b == BACKSLASH {
            out.push(BACKSLASH);
            out.push(b);
        } else {
            out.push(b);
        }
        proof {
            lemma_esc_bytes_push(s@.take(i as int), b);
            assert(s@.take(i as int).push(b) =~= s@.take(i as int + 1));
            assert(out@ =~= base + esc_bytes(s@.take(i as int + 1)));
        }
        i = i + 1;
    }
    assert(s@.take(s@.len() as int) =~= s@);
}

/// Parse the body of a JSON string up to and including its closing quote,
/// undoing the escapes; returns the unescaped bytes and the remainder after
/// the quote.
pub open spec fn spec_parse_string_body(s: Seq<u8>) -> Option<(Seq<u8>, Seq<u8>)>
    decreases s.len(),
{
    if s.len() == 0 {
        None
    } else if s[0] == QUOTE {
        Some((Seq::empty(), s.drop_first()))
    } else if s[0] == BACKSLASH {
        if s.len() >= 2 && (s[1] == QUOTE || s[1] == BACKSLASH) {
            match spec_parse_string_body(s.skip(2)) {
                Some((t, rem)) => Some((seq![s[1]] + t, rem)),
                None => None,
            }
        } else {
            None
        }
    } else {
        match spec_parse_string_body(s.drop_first()) {
            Some((t, rem)) => Some((seq![s[0]] + t, rem)),
            None => None,
        }
    }
}

/// An escaped string closed by a quote parses back to the original bytes,
/// leaving the remainder untouched.
pub proof fn lemma_parse_string_roundtrip(x: Seq<u8>, rest: Seq<u8>)
    ensures
        spec_parse_string_body(esc_bytes(x) + seq![QUOTE] + rest) == Some((x, rest)),
    decreases x.len(),
{
    let s = esc_bytes(x) + seq![QUOTE] + rest;
    if x.len() == 0 {
        assert(s =~= seq![QUOTE] + rest);
        assert(s[0] == QUOTE);
        assert(s.drop_first() =~= rest);
        assert(Seq::<u8>::empty() =~= x);
    } else {
        let b = x[0];
        let xt = x.drop_first();
        lemma_parse_string_roundtrip(xt, rest);
        assert(esc_bytes(x) == esc_byte(b) + esc_bytes(xt));
        if b == QUOTE || b == BACKSLASH {
            assert(s[0] == BACKSLASH);
            assert(s.len() >= 2 && s[1] == b);
            assert(s.skip(2) =~= esc_bytes(xt) + seq![QUOTE] + rest);
            assert(seq![b] + xt =~= x);
        } else {
            assert(s[0] == b);
            assert(b != QUOTE && b != BACKSLASH);
            assert(s.drop_first() =~= esc_bytes(xt) + seq![QUOTE] + rest);
            assert(seq![b] + xt =~= x);
        }
    }
}

/// Parse a JSON string body starting at `pos` (just after the opening
/// quote); on success returns the unescaped bytes and the index just past
/// the closing quote.
pub fn parse_string_body(s: &Vec<u8>, pos: usize) -> (r: Option<(Vec<u8>, usize)>)
    requires
        pos <= s@.len(),
    ensures
        match spec_parse_string_body(s@.skip(pos as int)) {
            Some((t, rem)) => {
                &&& r is Some
                &&& (r->0).0@ == t
                &&& (r->0).1 == s@.len() - rem.len()
            },
            None => r is None,
        },
{
    let ghost whole = s@.skip(pos as int);
    let mut i: usize = pos;
    let mut acc: Vec<u8> = Vec::new();
    loop
        invariant
            pos <= i <= s@.len(),
            whole == s@.skip(pos as int),
            spec_parse_string_body(whole) == (match spec_parse_string_body(s@.skip(i as int)) {
                Some((t, rem)) => Some::<(Seq<u8>, Seq<u8>)>((acc@ + t, rem)),
                None => None::<(Seq<u8>, Seq<u8>)>,
            }),
        decreases s@.len() - i,
    {
        if i == s.len() {
            assert(s@.skip(i as int).len() == 0);
            return None;
        }
        assert(s@.skip(i as int)[0] == s@[i as int]);
        let b = s[i];
        if b == QUOTE {
            assert(s@.skip(i as int).drop_first() =~= s@.skip(i as int + 1));
            assert(acc@ + Seq::<u8>::empty() =~= acc@);
            assert(s@.skip(i as int + 1).len() == s@.len() - i - 1);
            return Some((acc, i + 1));
        } else if b == BACKSLASH {
            if i + 1 == s.len() {
                assert(s@.skip(i as int).len() < 2);
                return None;
            }
            assert(s@.skip(i as int)[1] == s@[i as int + 1]);
            let e = s[i + 1];
            if e == QUOTE || e == BACKSLASH {
                acc.push(e);
                proof {
                    assert(s@.skip(i as int).skip(2) =~= s@.skip(i as int + 2));
                    assert(forall|t: Seq<u8>| (acc@.drop_last() + (seq![e] + t)) =~= (acc@ + t));
                }
                i = i + 2;
            } else {
                return None;
            }
        } else {
            acc.push(b);
            proof {
                assert(s@.skip(i as int).drop_first() =~= s@.skip(i as int + 1));
                assert(forall|t: Seq<u8>| (acc@.drop_last() + (seq![b] + t)) =~= (acc@ + t));
            }
            i = i + 1;
        }
    }
}

/// Expect the exact bytes `lit` at the front of `s`; on success the
/// remainder after them.
pub open spec fn spec_expect(s: Seq<u8>, lit: Seq<u8>) -> Option<Seq<u8>> {
    if s.len() >= lit.len() && s.subrange(0, lit.len() as int) == lit {
        Some(s.skip(lit.len() as int))
    } else {
        None
    }
}

/// A literal at the front of a byte string is consumed exactly.
pub proof fn lemma_expect_roundtrip(lit: Seq<u8>, rest: Seq<u8>)
    ensures
        spec_expect(lit + rest, lit) == Some(rest),
{
    assert((lit + rest).subrange(0, lit.len() as int) =~= lit);
    assert((lit + rest).skip(lit.len() as int) =~= rest);
}

/// Check that the bytes of `lit` stand at `pos` in `s`; on success returns
/// the index just past them.
pub fn expect_bytes(s: &Vec<u8>, pos: usize, lit: &[u8]) -> (r: Option<usize>)
    requires
        pos <= s@.len(),
    ensures
        match spec_expect(s@.skip(pos as int), lit@) {
            Some(rem) => r == Some((s@.len() - rem.len()) as usize),
            None => r is None,
        },
{
    let ghost whole = s@.skip(pos as int);
    let n = s.len();
    if n - pos < lit.len() {
        return None;
    }
    let mut i: usize = 0;
    while i < lit.len()
        invariant
            0 <= i <= lit@.len(),
            pos + lit@.len() <= n == s@.len(),
            whole == s@.skip(pos as int),
            forall|j: int| 0 <= j < i ==> whole[j] == lit@[j],
        decreases lit@.len() - i,
    {
        if s[pos + i] != lit[i] {
            assert(whole[i as int] == s@[pos + i as int]);
            assert(whole.subrange(0, lit@.len() as int) != lit@) by {
                assert(whole.subrange(0, lit@.len() as int)[i as int] != lit@[i as int]);
            }
            return None;
        }
        assert(whole[i as int] == s@[pos + i as int]);
        i = i + 1;
    }
    assert(whole.subrange(0, lit@.len() as int) =~= lit@);
    assert(whole.skip(lit@.len() as int).len() == s@.len() - pos - lit@.len());
    Some(pos + lit.len())
}

/// The characters that a byte string below 0x80 stands for, one per byte.
pub open spec fn ascii_chars_of(b: Seq<u8>) -> Seq<char> {
    Seq::new(b.len(), |i: int| b[i] as char)
}

/// A byte string below 0x80 is valid UTF-8 and decodes to one character per
/// byte; those characters encode back to the same bytes.
pub proof fn lemma_ascii_bytes_decode(b: Seq<u8>)
    requires
        forall|i: int| 0 <= i < b.len() ==> b[i] < 0x80,
    ensures
        valid_utf8(b),
        decode_utf8(b) == ascii_chars_of(b),
        is_ascii_chars(ascii_chars_of(b)),
        encode_utf8(ascii_chars_of(b)) == b,
{
    let chars = ascii_chars_of(b);
    assert forall|i: int| 0 <= i < chars.len() implies '\0' <= #[trigger] chars[i] <= '\u{7f}' by {
        assert(b[i] < 0x80);
        assert(chars[i] == b[i] as char);
    }
    assert(is_ascii_chars(chars));
    is_ascii_chars_encode_utf8(chars);
    assert forall|i: int| 0 <= i < b.len() implies #[trigger] encode_utf8(chars)[i] == b[i] by {
        assert(chars[i] as u8 == encode_utf8(chars)[i]);
        assert((b[i] as char) as u8 == b[i]);
    }
    assert(encode_utf8(chars) =~= b);
    encode_utf8_valid_utf8(chars);
    encode_utf8_decode_utf8(chars);
}

/// Relies on `String::from_utf8` of std: it succeeds exactly on valid UTF-8
/// and returns the string those bytes encode.
#[verifier::external_body]
pub fn bytes_to_string(v: Vec<u8>) -> (r: Option<String>)
    ensures
        r is Some <==> valid_utf8(v@),
        r is Some ==> r->0@ == decode_utf8(v@),
{
    String::from_utf8(v).ok()
}

/// The bytes of a string's UTF-8 encoding, as an owned vector.
pub fn string_bytes(s: &str) -> (r: Vec<u8>)
    ensures
        r@ == encode_utf8(s@),
        decode_utf8(r@) == s@,
        valid_utf8(r@),
{
    let b = s.as_bytes();
    proof {
        encode_utf8_valid_utf8(s@);
        encode_utf8_decode_utf8(s@);
    }
    vstd::slice::slice_to_vec(b)
}

/// The decimal rendering of `n` as a string of digit characters.
pub open spec fn dec_chars(n: nat) -> Seq<char> {
    ascii_chars_of(dec_bytes(n))
}

/// Render `n` in decimal.
pub fn u64_to_string(n: u64) -> (r: String)
    ensures
        r@ == dec_chars(n as nat),
{
    let mut out: Vec<u8> = Vec::new();
    render_u64(&mut out, n);
    proof {
        lemma_dec_bytes_shape(n as nat);
        assert(forall|i: int| 0 <= i < out@.len() ==> out@[i] < 0x80);
        lemma_ascii_bytes_decode(out@);
    }
    match bytes_to_string(out) {
        Some(s) => s,
        None => {
            proof {
                assert(false);
            }
            String::new()
        },
    }
}

/// Whether two string slices hold the same characters.
pub fn str_eq(a: &str, b: &str) -> (r: bool)
    ensures
        r == (a@ == b@),
{
    proof {
        encode_utf8_decode_utf8(a@);
        encode_utf8_decode_utf8(b@);
    }
    let ab = a.as_bytes();
    let bb = b.as_bytes();
    if ab.len() != bb.len() {
        assert(encode_utf8(a@) != encode_utf8(b@));
        return false;
    }
    let n = ab.len();
    let mut i: usize = 0;
    while i < n
        invariant
            0 <= i <= n,
            ab@ == encode_utf8(a@),
            bb@ == encode_utf8(b@),
            n == ab@.len() == bb@.len(),
            forall|j: int| 0 <= j < i ==> ab@[j] == bb@[j],
        decreases n - i,
    {
        if ab[i] != bb[i] {
            assert(encode_utf8(a@)[i as int] != encode_utf8(b@)[i as int]);
            return false;
        }
        i = i + 1;
    }
    assert(ab@ =~= bb@);
    assert(decode_utf8(ab@) == decode_utf8(bb@));
    true
}

/// UTF-8 encoding distributes over concatenation.
pub proof fn lemma_encode_utf8_concat(a: Seq<char>, b: Seq<char>)
    ensures
        encode_utf8(a + b) == encode_utf8(a) + encode_utf8(b),
    decreases a.len(),
{
    if a.len() == 0 {
        assert(a + b =~= b);
        assert(encode_utf8(a) =~= Seq::<u8>::empty());
        assert(encode_utf8(a) + encode_utf8(b) =~= encode_utf8(b));
    } else {
        assert((a + b)[0] == a[0]);
        assert((a + b).drop_first() =~= a.drop_first() + b);
        lemma_encode_utf8_concat(a.drop_first(), b);
        assert(encode_utf8(a + b) == vstd::utf8::encode_scalar(a[0] as u32) + (encode_utf8(
            a.drop_first(),
        ) + encode_utf8(b)));
        assert(vstd::utf8::encode_scalar(a[0] as u32) + (encode_utf8(a.drop_first()) + encode_utf8(
            b,
        )) =~= (vstd::utf8::encode_scalar(a[0] as u32) + encode_utf8(a.drop_first()))
            + encode_utf8(b));
    }
}

/// Copy the bytes of `s` from `from` to its end into a fresh vector.
pub fn bytes_suffix(s: &Vec<u8>, from: usize) -> (r: Vec<u8>)
    requires
        from <= s@.len(),
    ensures
        r@ == s@.skip(from as int),
{
    let n = s.len();
    let mut out: Vec<u8> = Vec::new();
    let mut i: usize = from;
    while i < n
        invariant
            from <= i <= n == s@.len(),
            out@ == s@.subrange(from as int, i as int),
        decreases n - i,
    {
        out.push(s[i]);
        assert(out@ =~= s@.subrange(from as int, i as int + 1));
        i = i + 1;
    }
    assert(s@.subrange(from as int, n as int) =~= s@.skip(from as int));
    out
}

/// The UTF-8 bytes of an ASCII character sequence: one byte per character,
/// carrying its code.
pub proof fn lemma_ascii_seq(s: Seq<char>)
    requires
        is_ascii_chars(s),
    ensures
        encode_utf8(s).len() == s.len(),
        forall|i: int| 0 <= i < s.len() ==> encode_utf8(s)[i] == s[i] as u8,
{
    is_ascii_chars_encode_utf8(s);
}

/// The remainder a greedy digit scan leaves is a suffix of its input.
pub proof fn lemma_digits_loop_suffix(s: Seq<u8>, acc: nat)
    ensures
        spec_digits_loop(s, acc).1.len() <= s.len(),
        spec_digits_loop(s, acc).1 == s.skip(s.len() - spec_digits_loop(s, acc).1.len()),
    decreases s.len(),
{
    if s.len() > 0 && is_digit_byte(s[0]) {
        lemma_digits_loop_suffix(s.drop_first(), acc * 10 + (s[0] - DIGIT_ZERO) as nat);
        let rem = spec_digits_loop(s, acc).1;
        assert(rem == spec_digits_loop(s.drop_first(), acc * 10 + (s[0] - DIGIT_ZERO) as nat).1);
        assert(s.drop_first().skip(s.drop_first().len() - rem.len()) =~= s.skip(s.len()
            - rem.len()));
    } else {
        assert(s.skip(0) =~= s);
    }
}

/// A successful unsigned parse leaves a strict suffix of its input.
pub proof fn lemma_parse_u64_suffix(s: Seq<u8>)
    ensures
        spec_parse_u64(s) is Some ==> {
            let rem = (spec_parse_u64(s)->0).1;
            &&& rem.len() < s.len()
            &&& rem == s.skip(s.len() - rem.len())
        },
{
    if spec_parse_u64(s) is Some {
        lemma_digits_loop_suffix(s, 0);
        let rem = (spec_parse_u64(s)->0).1;
        assert(rem == spec_digits_loop(s, 0).1);
        if rem.len() == s.len() {
            assert(rem == s.skip(0));
            assert(s.skip(0) =~= s);
            assert(rem.len() > 0 && is_digit_byte(rem[0]));
            assert(spec_digits_loop(s, 0).1 == spec_digits_loop(
                s.drop_first(),
                (s[0] - DIGIT_ZERO) as nat,
            ).1);
            lemma_digits_loop_suffix(s.drop_first(), (s[0] - DIGIT_ZERO) as nat);
            assert(rem.len() <= s.drop_first().len());
        }
    }
}

/// A successful signed parse leaves a strict suffix of its input.
pub proof fn lemma_parse_i64_suffix(s: Seq<u8>)
    ensures
        spec_parse_i64(s) is Some ==> {
            let rem = (spec_parse_i64(s)->0).1;
            &&& rem.len() < s.len()
            &&& rem == s.skip(s.len() - rem.len())
        },
{
    if spec_parse_i64(s) is Some {
        let rem = (spec_parse_i64(s)->0).1;
        if s.len() > 0 && s[0] == MINUS {
            lemma_parse_u64_suffix(s.drop_first());
            assert(rem == (spec_parse_u64(s.drop_first())->0).1);
            assert(s.drop_first().skip(s.drop_first().len() - rem.len()) =~= s.skip(s.len()
                - rem.len()));
        } else {
            lemma_parse_u64_suffix(s);
        }
    }
}

/// A successful string-body parse leaves a strict suffix of its input.
pub proof fn lemma_parse_string_suffix(s: Seq<u8>)
    ensures
        spec_parse_string_body(s) is Some ==> {
            let rem = (spec_parse_string_body(s)->0).1;
            &&& rem.len() < s.len()
            &&& rem == s.skip(s.len() - rem.len())
        },
    decreases s.len(),
{
    if spec_parse_string_body(s) is Some {
        let rem = (spec_parse_string_body(s)->0).1;
        if s[0] == QUOTE {
            assert(rem == s.drop_first());
            assert(rem =~= s.skip(1));
            assert(s.skip(1) =~= s.skip(s.len() - rem.len()));
        } else if s[0] == BACKSLASH {
            lemma_parse_string_suffix(s.skip(2));
            assert(rem == (spec_parse_string_body(s.skip(2))->0).1);
            assert(s.skip(2).skip(s.skip(2).len() - rem.len()) =~= s.skip(s.len() - rem.len()));
        } else {
            lemma_parse_string_suffix(s.drop_first());
            assert(rem == (spec_parse_string_body(s.drop_first())->0).1);
            assert(s.drop_first() =~= s.skip(1));
            assert(s.skip(1).skip(s.skip(1).len() - rem.len()) =~= s.skip(s.len() - rem.len()));
        }
    }
}

} // verus!
