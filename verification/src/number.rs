//! Numbers as text: decimal and hexadecimal digits, and reading a decimal back.
use vstd::prelude::*;
use vstd::string::StringExecFns;
use crate::text::chars_of;

verus! {

/// The decimal digit of a number below ten.
pub open spec fn digit(d: int) -> char {
    (48 + d) as char
}

/// The decimal digits of a number, without leading zeros.
pub open spec fn decimal(n: nat) -> Seq<char>
    decreases n,
{
    if n < 10 {
        seq![digit(n as int)]
    } else {
        decimal(n / 10).push(digit((n % 10) as int))
    }
}

/// The decimal digits of a number, after a minus sign where it is negative.
pub open spec fn signed_decimal(n: int) -> Seq<char> {
    if n < 0 {
        seq!['-'] + decimal((-n) as nat)
    } else {
        decimal(n as nat)
    }
}

/// `n` zeros.
pub open spec fn zeros(n: int) -> Seq<char> {
    Seq::new(if n < 0 { 0 } else { n as nat }, |i: int| '0')
}

/// A number in at least `width` characters: zeros stand between the sign and the digits.
pub open spec fn padded_decimal(n: int, width: int) -> Seq<char> {
    if n < 0 {
        seq!['-'] + zeros(width - 1 - decimal((-n) as nat).len()) + decimal((-n) as nat)
    } else {
        zeros(width - decimal(n as nat).len()) + decimal(n as nat)
    }
}

/// The lowercase hexadecimal digit of a number below sixteen.
pub open spec fn hex_digit(d: int) -> char {
    if d < 10 {
        (48 + d) as char
    } else {
        (87 + d) as char
    }
}

/// A number below 65536 as four hexadecimal digits.
pub open spec fn hex4(n: u16) -> Seq<char> {
    seq![
        hex_digit(n as int / 4096),
        hex_digit(n as int / 256 % 16),
        hex_digit(n as int / 16 % 16),
        hex_digit(n as int % 16),
    ]
}

pub open spec fn is_digit(c: char) -> bool {
    '0' <= c <= '9'
}

/// The number that a run of decimal digits stands for.
pub open spec fn decimal_value(s: Seq<char>) -> nat
    decreases s.len(),
{
    if s.len() == 0 {
        0
    } else {
        decimal_value(s.drop_last()) * 10 + (s.last() as u32 - 48) as nat
    }
}

/// The text without one plus sign at its beginning.
pub open spec fn without_plus(s: Seq<char>) -> Seq<char> {
    if s.len() > 0 && s[0] == '+' {
        s.drop_first()
    } else {
        s
    }
}

/// The number below 65536 that a text stands for: decimal digits, one at least, after an
/// optional plus sign.
pub open spec fn parsed_u16(s: Seq<char>) -> Option<u16> {
    let body = without_plus(s);
    if body.len() > 0 && (forall|i: int| 0 <= i < body.len() ==> is_digit(body[i]))
        && decimal_value(body) <= 0xffff {
        Some(decimal_value(body) as u16)
    } else {
        None
    }
}

/// Every decimal is made of digits, one at least, and no number but one has it.
pub proof fn lemma_decimal(n: nat)
    ensures
        decimal(n).len() >= 1,
        forall|i: int| 0 <= i < decimal(n).len() ==> is_digit(#[trigger] decimal(n)[i]),
        decimal_value(decimal(n)) == n,
        n >= 10 ==> decimal(n)[0] != '0',
        0 < n < 10 ==> decimal(n)[0] != '0',
    decreases n,
{
    if n < 10 {
        let s = seq![digit(n as int)];
        assert(s.drop_last() =~= Seq::<char>::empty());
        assert(decimal_value(s.drop_last()) == 0);
    } else {
        lemma_decimal(n / 10);
        let s = decimal(n);
        assert(s.drop_last() =~= decimal(n / 10));
        assert(s[0] == decimal(n / 10)[0]);
    }
}

proof fn lemma_value_grows(s: Seq<char>, i: int)
    requires
        0 <= i <= s.len(),
        forall|j: int| 0 <= j < s.len() ==> is_digit(s[j]),
    ensures
        decimal_value(s.take(i)) <= decimal_value(s),
    decreases s.len() - i,
{
    if i == s.len() {
        assert(s.take(i) =~= s);
    } else {
        lemma_value_grows(s, i + 1);
        assert(s.take(i + 1).drop_last() =~= s.take(i));
    }
}

/// Leading zeros do not change the number.
pub proof fn lemma_value_of_zeros(k: int, s: Seq<char>)
    requires
        k >= 0,
    ensures
        decimal_value(zeros(k) + s) == decimal_value(s),
    decreases k + s.len(),
{
    let t = zeros(k) + s;
    if s.len() == 0 {
        if k > 0 {
            assert(t.drop_last() =~= zeros(k - 1) + s);
            lemma_value_of_zeros(k - 1, s);
        } else {
            assert(t =~= s);
        }
    } else {
        assert(t.drop_last() =~= zeros(k) + s.drop_last());
        lemma_value_of_zeros(k, s.drop_last());
    }
}

fn digit_char(d: u8) -> (r: char)
    requires
        d < 10,
    ensures
        r == digit(d as int),
{
    (48 + d) as char
}

/// The decimal digits of a number.
pub fn decimal_text(n: u64) -> (r: String)
    ensures
        r@ == decimal(n as nat),
    decreases n,
{
    let last: u8 = (n % 10) as u8;
    if n < 10 {
        let mut s = String::new();
        s.push(digit_char(last));
        assert(s@ =~= seq![digit(n as int)]);
        s
    } else {
        let mut s = decimal_text(n / 10);
        s.push(digit_char(last));
        s
    }
}

fn magnitude(n: i64) -> (r: u64)
    requires
        n < 0,
    ensures
        r == -n,
{
    ((-(n + 1)) as u64) + 1
}

/// The decimal digits of a signed number.
pub fn signed_decimal_text(n: i64) -> (r: String)
    ensures
        r@ == signed_decimal(n as int),
{
    if n < 0 {
        let digits = decimal_text(magnitude(n));
        let mut s = String::new();
        s.push('-');
        s.append(digits.as_str());
        assert(s@ =~= seq!['-'] + digits@);
        s
    } else {
        decimal_text(n as u64)
    }
}

/// The number in at least `width` characters, filled up with zeros.
pub fn padded_decimal_text(n: i64, width: usize) -> (r: String)
    ensures
        r@ == padded_decimal(n as int, width as int),
{
    let digits = if n < 0 {
        decimal_text(magnitude(n))
    } else {
        decimal_text(n as u64)
    };
    let mut out = String::new();
    let mut used: usize = 0;
    if n < 0 {
        out.push('-');
        used = 1;
    }
    let count: usize = chars_of(digits.as_str()).len();
    let fill: usize = if width >= used && width - used >= count {
        width - used - count
    } else {
        0
    };
    let ghost sign = out@;
    let mut i: usize = 0;
    assert(sign + zeros(0) =~= sign);
    while i < fill
        invariant
            i <= fill,
            out@ == sign + zeros(i as int),
        decreases fill - i,
    {
        out.push('0');
        i = i + 1;
        assert(out@ =~= sign + zeros(i as int));
    }
    out.append(digits.as_str());
    proof {
        lemma_decimal(if n < 0 { (-n) as nat } else { n as nat });
        if n < 0 {
            assert(sign =~= seq!['-']);
            assert(zeros(fill as int) =~= zeros(width - 1 - digits@.len()));
        } else {
            assert(sign =~= Seq::<char>::empty());
            assert(zeros(fill as int) =~= zeros(width - digits@.len()));
        }
        assert(out@ =~= padded_decimal(n as int, width as int));
    }
    out
}

fn hex_char(d: u8) -> (r: char)
    requires
        d < 16,
    ensures
        r == hex_digit(d as int),
{
    if d < 10 {
        (48 + d) as char
    } else {
        (87 + d) as char
    }
}

/// The number as four hexadecimal digits.
pub fn hex4_text(n: u16) -> (r: String)
    ensures
        r@ == hex4(n),
{
    let mut s = String::new();
    s.push(hex_char((n / 4096) as u8));
    s.push(hex_char((n / 256 % 16) as u8));
    s.push(hex_char((n / 16 % 16) as u8));
    s.push(hex_char((n % 16) as u8));
    assert(s@ =~= hex4(n));
    s
}

/// Reads a number below 65536: decimal digits after an optional plus sign.
pub fn parse_u16(s: &str) -> (r: Option<u16>)
    ensures
        r == parsed_u16(s@),
{
    let c = chars_of(s);
    let from: usize = if c.len() > 0 && c[0] == '+' { 1 } else { 0 };
    let ghost body = without_plus(c@);
    assert(body =~= c@.skip(from as int));
    if from == c.len() {
        return None;
    }
    let mut i: usize = from;
    let mut value: u32 = 0;
    assert(body.take(0) =~= Seq::<char>::empty());
    while i < c.len()
        invariant
            from <= i <= c@.len(),
            from < c@.len(),
            body == c@.skip(from as int),
            body == without_plus(c@),
            s@ == c@,
            forall|j: int| 0 <= j < i - from ==> is_digit(body[j]),
            value == decimal_value(body.take(i - from)),
            value <= 0xffff,
        decreases c@.len() - i,
    {
        let ch = c[i];
        assert(body[i - from] == ch);
        if !('0' <= ch && ch <= '9') {
            assert(!is_digit(body[i - from]));
            return None;
        }
        let d: u32 = ch as u32 - 48;
        value = value * 10 + d;
        i = i + 1;
        proof {
            assert(body.take(i - from).drop_last() =~= body.take(i - 1 - from));
        }
        if value > 0xffff {
            proof {
                if forall|j: int| 0 <= j < body.len() ==> is_digit(body[j]) {
                    lemma_value_grows(body, i - from);
                }
            }
            return None;
        }
    }
    assert(body.take(i - from) =~= body);
    Some(value as u16)
}

/// The decimal form of a number is read as that number, with or without a plus sign before it;
/// numbers above 65535 are not read, and neither is a text with any other character in it.
pub proof fn law_number_is_read_back(n: nat, text: Seq<char>, i: int)
    ensures
        n <= 65535 ==> parsed_u16(decimal(n)) == Some(n as u16),
        n <= 65535 ==> parsed_u16(seq!['+'] + decimal(n)) == Some(n as u16),
        n > 65535 ==> parsed_u16(decimal(n)) is None,
        n < 10 ==> decimal(n).len() == 1,
        n >= 10 ==> decimal(n).len() == decimal(n / 10).len() + 1,
        0 < i < text.len() && !('0' <= text[i] <= '9') ==> parsed_u16(text) is None,
        text.len() > 0 && !('0' <= text[0] <= '9') && text[0] != '+' ==> parsed_u16(text) is None,
        parsed_u16(seq![]) is None,
        parsed_u16(seq!['+']) is None,
{
    lemma_decimal(n);
    let s = decimal(n);
    assert(is_digit(s[0]));
    assert((seq!['+'] + s).drop_first() =~= s);
    assert(seq!['+'].drop_first() =~= Seq::<char>::empty());
    let body = without_plus(text);
    if 0 < i < text.len() && !('0' <= text[i] <= '9') {
        if text[0] == '+' {
            assert(body[i - 1] == text[i]);
        } else {
            assert(body[i] == text[i]);
        }
    }
    if text.len() > 0 && !('0' <= text[0] <= '9') && text[0] != '+' {
        assert(body[0] == text[0]);
    }
}

/// A negative number has a minus sign before its digits, and no other has one.
pub proof fn law_sign_of_a_number(n: int)
    ensures
        n < 0 ==> signed_decimal(n) == seq!['-'] + signed_decimal(-n),
        n >= 0 ==> decimal_value(signed_decimal(n)) == n && is_digit(signed_decimal(n)[0]),
{
    if n >= 0 {
        lemma_decimal(n as nat);
        assert(is_digit(decimal(n as nat)[0]));
    }
}

} // verus!
