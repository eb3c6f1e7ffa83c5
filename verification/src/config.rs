//! Reading the server's settings from their textual values.
use vstd::prelude::*;
use vstd::string::*;

use vstd::utf8::*;

use crate::text::{lemma_ascii_literal_bytes, push_text, split_text, starts_char, text_equals};

verus! {

/// `c` is an ASCII decimal digit.
pub open spec fn is_digit(c: u8) -> bool {
    0x30u8 <= c <= 0x39u8
}

/// All bytes of `d` are ASCII decimal digits.
pub open spec fn all_digits(d: Seq<u8>) -> bool {
    forall|i: int| 0 <= i < d.len() ==> is_digit(#[trigger] d[i])
}

/// The number that the decimal digits `d` spell.
pub open spec fn digits_value(d: Seq<u8>) -> nat
    decreases d.len(),
{
    if d.len() == 0 {
        0
    } else {
        digits_value(d.drop_last()) * 10 + (d.last() - 0x30u8) as nat
    }
}

/// The digits of a decimal numeral: the text without one leading `+`.
pub open spec fn numeral_digits(b: Seq<u8>) -> Seq<u8> {
    if b.len() > 0 && b[0] == 0x2bu8 {
        b.drop_first()
    } else {
        b
    }
}

/// The value of the unsigned decimal numeral `b` (an optional `+` and at
/// least one digit), when it fits in `max`.
pub open spec fn spec_parse_decimal(b: Seq<u8>, max: nat) -> Option<nat> {
    let d = numeral_digits(b);
    if d.len() > 0 && all_digits(d) && digits_value(d) <= max {
        Some(digits_value(d))
    } else {
        None
    }
}

proof fn lemma_digits_value_prefix_monotone(d: Seq<u8>, i: int, j: int)
    requires
        0 <= i <= j <= d.len(),
    ensures
        digits_value(d.subrange(0, i)) <= digits_value(d.subrange(0, j)),
    decreases j - i,
{
    if i < j {
        lemma_digits_value_prefix_monotone(d, i, j - 1);
        assert(d.subrange(0, j).drop_last() =~= d.subrange(0, j - 1));
    }
}

/// Parses `text` as a `u32` written in decimal, as `str::parse::<u32>` does.
pub fn parse_decimal_u32(text: &str) -> (res: Option<u32>)
    ensures
        match spec_parse_decimal(text.spec_bytes(), u32::MAX as nat) {
            Some(v) => res == Some(v as u32),
            None => res is None,
        },
{
    let b = text.as_bytes();
    let n = b.len();
    let start: usize = if n > 0 && b[0] == 0x2bu8 { 1 } else { 0 };
    let ghost d = numeral_digits(b@);
    proof {
        assert(d =~= b@.subrange(start as int, n as int));
    }
    if start >= n {
        return None;
    }
    let mut acc: u32 = 0;
    let mut i: usize = start;
    while i < n
        invariant
            n == b@.len(),
            b@ == text.spec_bytes(),
            d == numeral_digits(b@),
            start <= i <= n,
            d == b@.subrange(start as int, n as int),
            forall|j: int| start <= j < i ==> is_digit(#[trigger] b@[j]),
            acc as nat == digits_value(d.subrange(0, i - start)),
        decreases n - i,
    {
        let c = b[i];
        if c < 0x30u8 || c > 0x39u8 {
            proof {
                assert(d[i - start] == c);
            }
            return None;
        }
        let digit = (c - 0x30u8) as u32;
        proof {
            assert(d.subrange(0, i - start + 1).drop_last() =~= d.subrange(0, i - start));
        }
        if acc > (u32::MAX - digit) / 10 {
            proof {
                assert(acc * 10 + digit > u32::MAX) by (nonlinear_arith)
                    requires
                        acc > (u32::MAX - digit) / 10,
                        digit <= 9,
                ;
                lemma_digits_value_prefix_monotone(d, i - start + 1, d.len() as int);
                assert(d.subrange(0, d.len() as int) =~= d);
            }
            return None;
        }
        acc = acc * 10 + digit;
        i = i + 1;
    }
    proof {
        assert(d.subrange(0, d.len() as int) =~= d);
        assert forall|j: int| 0 <= j < d.len() implies is_digit(#[trigger] d[j]) by {
            assert(d[j] == b@[start + j]);
        }
    }
    Some(acc)
}

/// Reads an on/off setting: a present value turns it on exactly when it is
/// `1` or `true`; an absent value gives `default`.
pub fn parse_bool_flag(value: Option<&str>, default: bool) -> (res: bool)
    ensures
        match value {
            Some(v) => res == (v@ == "1"@ || v@ == "true"@),
            None => res == default,
        },
{
    match value {
        Some(v) => text_equals(v, "1") || text_equals(v, "true"),
        None => default,
    }
}

/// The number of tokens to ask for: the value (`128` when absent) read as a
/// decimal `u32`, or 128 when it is not one.
pub fn parse_max_tokens(value: Option<&str>) -> (res: u32)
    ensures
        match value {
            Some(v) => match spec_parse_decimal(v.spec_bytes(), u32::MAX as nat) {
                Some(x) => res == x,
                None => res == 128,
            },
            None => res == 128,
        },
{
    match value {
        Some(v) => match parse_decimal_u32(v) {
            Some(x) => x,
            None => 128,
        },
        None => 128,
    }
}

/// The port to listen on: the value (`3000` when absent) read as a decimal
/// `u16`, or 3000 when it is not one.
pub fn parse_port(value: Option<&str>) -> (res: u16)
    ensures
        match value {
            Some(v) => match spec_parse_decimal(v.spec_bytes(), u16::MAX as nat) {
                Some(x) => res == x,
                None => res == 3000,
            },
            None => res == 3000,
        },
{
    match value {
        Some(v) => match parse_decimal_u32(v) {
            Some(x) => if x <= 65535 {
                x as u16
            } else {
                3000
            },
            None => 3000,
        },
        None => 3000,
    }
}

/// The language model server's infill endpoint under `base_url`.
pub fn infill_url(base_url: &str) -> (res: String)
    ensures
        res@ == base_url@ + "/infill"@,
{
    let mut url = base_url.to_owned();
    url.append("/infill");
    url
}

/// The decimal digits of `n`, most significant first, with no leading zero.
pub open spec fn decimal_bytes(n: nat) -> Seq<u8>
    decreases n,
{
    if n < 10 {
        seq![(n + 0x30) as u8]
    } else {
        decimal_bytes(n / 10) + seq![((n % 10) + 0x30) as u8]
    }
}

/// The text of the ten decimal digits.
const DIGITS: &'static str = "0123456789";

proof fn lemma_digits_bytes()
    ensures
        DIGITS.spec_bytes().len() == 10,
        forall|i: int| 0 <= i < 10 ==> #[trigger] DIGITS.spec_bytes()[i] == (i + 0x30) as u8,
{
    reveal_strlit("0123456789");
    lemma_ascii_literal_bytes(DIGITS);
    let b = DIGITS.spec_bytes();
    assert(b[0] == 0x30u8);
    assert(b[1] == 0x31u8);
    assert(b[2] == 0x32u8);
    assert(b[3] == 0x33u8);
    assert(b[4] == 0x34u8);
    assert(b[5] == 0x35u8);
    assert(b[6] == 0x36u8);
    assert(b[7] == 0x37u8);
    assert(b[8] == 0x38u8);
    assert(b[9] == 0x39u8);
}

/// The one-character text of the digit `d`.
fn digit_text(d: usize) -> (res: &'static str)
    requires
        d < 10,
    ensures
        res.spec_bytes() == seq![(d + 0x30) as u8],
{
    proof {
        lemma_digits_bytes();
        let b = DIGITS.spec_bytes();
        assert(starts_char(b, d as int));
        if d + 1 < 10 {
            assert(b[d + 1] == (d + 1 + 0x30) as u8);
        }
        assert(starts_char(b, d + 1));
    }
    let (_, tail) = split_text(DIGITS, d);
    proof {
        lemma_digits_bytes();
        let t = tail.spec_bytes();
        assert(t[0] == (d + 0x30) as u8);
        if t.len() > 1 {
            assert(t[1] == DIGITS.spec_bytes()[d + 1]);
        }
        assert(starts_char(t, 1));
    }
    let (digit, _) = split_text(tail, 1);
    proof {
        assert(digit.spec_bytes() =~= seq![(d + 0x30) as u8]);
    }
    digit
}

/// `n` written in decimal.
pub fn decimal_text(n: usize) -> (res: String)
    ensures
        encode_utf8(res@) == decimal_bytes(n as nat),
    decreases n,
{
    if n < 10 {
        digit_text(n).to_owned()
    } else {
        let mut text = decimal_text(n / 10);
        push_text(&mut text, digit_text(n % 10));
        text
    }
}

/// Reading back a number written in decimal gives the number, when it fits in `max`.
pub proof fn lemma_decimal_roundtrip(n: nat, max: nat)
    requires
        n <= max,
    ensures
        spec_parse_decimal(decimal_bytes(n), max) == Some(n),
{
    lemma_decimal_bytes_digits(n);
}

proof fn lemma_decimal_bytes_digits(n: nat)
    ensures
        decimal_bytes(n).len() > 0,
        all_digits(decimal_bytes(n)),
        digits_value(decimal_bytes(n)) == n,
        numeral_digits(decimal_bytes(n)) == decimal_bytes(n),
    decreases n,
{
    let d = decimal_bytes(n);
    if n < 10 {
        assert(d.drop_last() =~= Seq::<u8>::empty());
        assert(d.last() == (n + 0x30) as u8);
        assert(digits_value(d) == digits_value(d.drop_last()) * 10 + (d.last() - 0x30u8) as nat);
    } else {
        lemma_decimal_bytes_digits(n / 10);
        let h = decimal_bytes(n / 10);
        assert(d.drop_last() =~= h);
        assert forall|i: int| 0 <= i < d.len() implies is_digit(#[trigger] d[i]) by {
            if i < h.len() {
                assert(d[i] == h[i]);
            }
        }
        assert(d[0] == h[0]);
        assert(d.last() == ((n % 10) + 0x30) as u8);
        assert((n / 10) * 10 + n % 10 == n);
        assert(digits_value(d) == digits_value(h) * 10 + (d.last() - 0x30u8) as nat);
    }
}

} // verus!
