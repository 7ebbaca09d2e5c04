use vstd::prelude::*;
use crate::text::{chars_of, string_of, string_of_range};

verus! {

/// Whether `c` is one of `0` to `9`.
pub open spec fn is_digit(c: char) -> bool {
    '0' <= c <= '9'
}

/// The value of the digit `c`.
pub open spec fn digit_value(c: char) -> nat {
    (c as u32 - '0' as u32) as nat
}

/// Every character is a digit, and there is at least one.
pub open spec fn all_digits(s: Seq<char>) -> bool {
    s.len() > 0 && forall|i: int| 0 <= i < s.len() ==> is_digit(#[trigger] s[i])
}

/// The number that the digits of `s` write in base ten.
pub open spec fn decimal_value(s: Seq<char>) -> nat
    decreases s.len(),
{
    if s.len() == 0 {
        0
    } else {
        decimal_value(s.drop_last()) * 10 + digit_value(s.last())
    }
}

/// The number written by `s`, where `s` is made of digits alone and the
/// number is at most `limit`.
pub open spec fn parsed(s: Seq<char>, limit: nat) -> Option<nat> {
    if all_digits(s) && decimal_value(s) <= limit {
        Some(decimal_value(s))
    } else {
        None
    }
}

proof fn lemma_decimal_value_grows(s: Seq<char>, n: int)
    requires
        0 <= n <= s.len(),
    ensures
        decimal_value(s.take(n)) <= decimal_value(s),
    decreases s.len() - n,
{
    if n < s.len() {
        lemma_decimal_value_grows(s, n + 1);
        assert(s.take(n + 1).drop_last() =~= s.take(n));
    } else {
        assert(s.take(n) =~= s);
    }
}

/// Reads a number written with digits alone. There is none where the text
/// is empty, holds another character, or writes a number above `limit`.
pub fn parse_number(text: &str, limit: u64) -> (value: Option<u64>)
    ensures
        match value {
            Some(n) => parsed(text@, limit as nat) == Some(n as nat),
            None => parsed(text@, limit as nat).is_none(),
        },
{
    let chars = chars_of(text);
    let n = chars.len();
    if n == 0 {
        return None;
    }
    let mut value: u64 = 0;
    let mut i: usize = 0;
    proof {
        assert(chars@.take(0).len() == 0);
    }
    while i < n
        invariant
            n == chars@.len(),
            chars@ == text@,
            n > 0,
            i <= n,
            forall|k: int| 0 <= k < i ==> is_digit(#[trigger] chars@[k]),
            value == decimal_value(chars@.take(i as int)),
            value <= limit,
        decreases n - i,
    {
        let c = chars[i];
        if !(c >= '0' && c <= '9') {
            return None;
        }
        let d: u64 = (c as u32 - '0' as u32) as u64;
        proof {
            assert(chars@.take(i + 1).drop_last() =~= chars@.take(i as int));
            assert(chars@.take(i + 1).last() == c);
            lemma_decimal_value_grows(chars@, i + 1);
        }
        if d > limit {
            return None;
        }
        if value > (limit - d) / 10 {
            proof {
                assert(value * 10 + d > limit) by (nonlinear_arith)
                    requires
                        value > (limit - d) / 10,
                        d <= limit,
                ;
            }
            return None;
        }
        proof {
            assert(value * 10 + d <= limit) by (nonlinear_arith)
                requires
                    value <= (limit - d) / 10,
                    d <= limit,
            ;
        }
        value = value * 10 + d;
        i = i + 1;
    }
    proof {
        assert(chars@.take(n as int) =~= chars@);
    }
    Some(value)
}

/// The number written by `s`, where `s` is made of digits alone, with or
/// without one `+` before them, and the number is at most `limit`.
pub open spec fn parsed_unsigned(s: Seq<char>, limit: nat) -> Option<nat> {
    if s.len() > 0 && s[0] == '+' {
        parsed(s.drop_first(), limit)
    } else {
        parsed(s, limit)
    }
}

/// Reads a number written with digits, with or without one `+` before
/// them. There is none where no digit follows the sign, where the text is
/// empty or holds another character, or where the number is above `limit`.
pub fn parse_unsigned(text: &str, limit: u64) -> (value: Option<u64>)
    ensures
        match value {
            Some(n) => parsed_unsigned(text@, limit as nat) == Some(n as nat),
            None => parsed_unsigned(text@, limit as nat).is_none(),
        },
{
    let chars = chars_of(text);
    if chars.len() > 0 && chars[0] == '+' {
        let digits = string_of_range(&chars, 1, chars.len());
        parse_number(digits.as_str(), limit)
    } else {
        parse_number(text, limit)
    }
}

/// The character that writes the digit `d`.
pub open spec fn digit_char(d: nat) -> char {
    if d == 0 {
        '0'
    } else if d == 1 {
        '1'
    } else if d == 2 {
        '2'
    } else if d == 3 {
        '3'
    } else if d == 4 {
        '4'
    } else if d == 5 {
        '5'
    } else if d == 6 {
        '6'
    } else if d == 7 {
        '7'
    } else if d == 8 {
        '8'
    } else {
        '9'
    }
}

/// `n` written in base ten, without leading zeros.
pub open spec fn decimal(n: nat) -> Seq<char>
    decreases n,
{
    if n < 10 {
        seq![digit_char(n)]
    } else {
        decimal(n / 10).push(digit_char(n % 10))
    }
}

fn digit_of(d: usize) -> (c: char)
    requires
        d < 10,
    ensures
        c == digit_char(d as nat),
{
    if d == 0 {
        '0'
    } else if d == 1 {
        '1'
    } else if d == 2 {
        '2'
    } else if d == 3 {
        '3'
    } else if d == 4 {
        '4'
    } else if d == 5 {
        '5'
    } else if d == 6 {
        '6'
    } else if d == 7 {
        '7'
    } else if d == 8 {
        '8'
    } else {
        '9'
    }
}

/// `len` spaces.
pub open spec fn spaces(len: nat) -> Seq<char> {
    Seq::new(len, |i: int| ' ')
}

/// `s` with spaces before it up to `width` characters; `s` itself where it
/// is as long or longer.
pub open spec fn pad_left(s: Seq<char>, width: nat) -> Seq<char> {
    if s.len() >= width {
        s
    } else {
        spaces((width - s.len()) as nat) + s
    }
}

/// `n` in base ten, with spaces before it where it has fewer than `width`
/// digits.
pub fn padded_decimal(n: usize, width: usize) -> (text: String)
    ensures
        text@ == pad_left(decimal(n as nat), width as nat),
{
    let mut reversed: Vec<char> = Vec::new();
    let mut rest: usize = n;
    let ghost mut tail: Seq<char> = Seq::empty();
    proof {
        assert(decimal(n as nat) =~= decimal(rest as nat) + tail);
    }
    while rest >= 10
        invariant
            reversed@.len() == tail.len(),
            forall|k: int| 0 <= k < tail.len() ==> reversed@[k] == tail[tail.len() - 1 - k],
            decimal(n as nat) == decimal(rest as nat) + tail,
        decreases rest,
    {
        let c = digit_of(rest % 10);
        reversed.push(c);
        proof {
            let grown = seq![c] + tail;
            assert(decimal(rest as nat) == decimal((rest / 10) as nat).push(c));
            assert(decimal((rest / 10) as nat).push(c) + tail =~= decimal((rest / 10) as nat)
                + grown);
            assert forall|k: int| 0 <= k < grown.len() implies reversed@[k] == grown[grown.len()
                - 1 - k] by {
                if k < tail.len() {
                    assert(grown[grown.len() - 1 - k] == tail[tail.len() - 1 - k]);
                }
            }
            tail = grown;
        }
        rest = rest / 10;
    }
    let c = digit_of(rest);
    reversed.push(c);
    proof {
        let grown = seq![c] + tail;
        assert(decimal(rest as nat) + tail =~= grown);
        assert forall|k: int| 0 <= k < grown.len() implies reversed@[k] == grown[grown.len() - 1
            - k] by {
            if k < tail.len() {
                assert(grown[grown.len() - 1 - k] == tail[tail.len() - 1 - k]);
            }
        }
        tail = grown;
    }
    let digits = reversed.len();
    let mut out: Vec<char> = Vec::new();
    let mut p: usize = digits;
    proof {
        assert(out@ =~= spaces(0));
    }
    while p < width
        invariant
            digits == tail.len(),
            digits <= p,
            p <= width || p == digits,
            out@ == spaces((p - digits) as nat),
        decreases width - p,
    {
        out.push(' ');
        proof {
            assert(out@ =~= spaces((p + 1 - digits) as nat));
        }
        p = p + 1;
    }
    let ghost lead = out@;
    let mut k: usize = digits;
    proof {
        assert(out@ =~= lead + tail.take(0));
    }
    while k > 0
        invariant
            digits == tail.len(),
            reversed@.len() == digits,
            k <= digits,
            forall|m: int| 0 <= m < tail.len() ==> reversed@[m] == tail[tail.len() - 1 - m],
            lead == spaces(if digits >= width { 0nat } else { (width - digits) as nat }),
            out@ == lead + tail.take(digits - k),
        decreases k,
    {
        out.push(reversed[k - 1]);
        proof {
            assert(tail.take(digits - k + 1) =~= tail.take(digits - k).push(tail[digits - k]));
            assert(out@ =~= lead + tail.take(digits - k + 1));
        }
        k = k - 1;
    }
    proof {
        assert(tail.take(digits as int) =~= tail);
        if digits >= width {
            assert(spaces(0) =~= Seq::<char>::empty());
            assert(lead + tail =~= tail);
        }
    }
    string_of(&out)
}

} // verus!
