//! Decimal numbers as text.

use vstd::prelude::*;

use crate::text::{chars_of, is_digit, is_digit_char};

verus! {

/// The character of the digit `d`.
pub open spec fn digit_char(d: nat) -> char {
    (d + 48) as char
}

/// The value of a digit character.
pub open spec fn digit_value(c: char) -> nat {
    (c as int - 48) as nat
}

/// The decimal digits of `n`, without leading zeros.
pub open spec fn digits(n: nat) -> Seq<char>
    decreases n,
{
    if n < 10 {
        seq![digit_char(n)]
    } else {
        digits(n / 10).push(digit_char(n % 10))
    }
}

/// The decimal text of `n`.
pub open spec fn decimal(n: int) -> Seq<char> {
    if n < 0 {
        seq!['-'] + digits((-n) as nat)
    } else {
        digits(n as nat)
    }
}

/// Only digits, and at least one.
pub open spec fn all_digits(s: Seq<char>) -> bool {
    s.len() > 0 && forall|i: int| 0 <= i < s.len() ==> is_digit_char(#[trigger] s[i])
}

/// The number that a run of digits stands for.
pub open spec fn digits_value(s: Seq<char>) -> nat
    decreases s.len(),
{
    if s.len() == 0 {
        0
    } else {
        digits_value(s.drop_last()) * 10 + digit_value(s.last())
    }
}

/// The integer that `s` denotes, if it denotes one in `min..=max`: an
/// optional sign (`-` only where negative numbers are in range) and at least
/// one digit.
pub open spec fn parsed_int(s: Seq<char>, min: int, max: int) -> Option<int> {
    let negative = s.len() > 0 && s[0] == '-' && min < 0;
    let body = if negative || (s.len() > 0 && s[0] == '+') {
        s.skip(1)
    } else {
        s
    };
    if !all_digits(body) {
        None
    } else {
        let n: int = if negative {
            -(digits_value(body) as int)
        } else {
            digits_value(body) as int
        };
        if min <= n <= max {
            Some(n)
        } else {
            None
        }
    }
}

fn digit_to_char(d: u8) -> (r: char)
    requires
        d < 10,
    ensures
        r == digit_char(d as nat),
{
    (d + 48) as char
}

fn push_digits(n: u64, out: &mut String)
    ensures
        final(out)@ == old(out)@ + digits(n as nat),
    decreases n,
{
    if n >= 10 {
        push_digits(n / 10, out);
    }
    out.push(digit_to_char((n % 10) as u8));
    proof {
        assert(out@ =~= old(out)@ + digits(n as nat));
    }
}

/// The decimal text of an unsigned number.
pub fn unsigned_text(n: u64) -> (r: String)
    ensures
        r@ == decimal(n as int),
{
    let mut out = String::new();
    push_digits(n, &mut out);
    proof {
        assert(out@ =~= digits(n as nat));
    }
    out
}

/// The decimal text of a signed number.
pub fn signed_text(n: i64) -> (r: String)
    ensures
        r@ == decimal(n as int),
{
    if n >= 0 {
        return unsigned_text(n as u64);
    }
    let mut out = String::new();
    out.push('-');
    let magnitude: u64 = (-(n as i128)) as u64;
    push_digits(magnitude, &mut out);
    proof {
        assert(out@ =~= seq!['-'] + digits(magnitude as nat));
    }
    out
}

proof fn lemma_digits_value_step(s: Seq<char>, i: int)
    requires
        0 <= i < s.len(),
    ensures
        digits_value(s.take(i + 1)) == digits_value(s.take(i)) * 10 + digit_value(s[i]),
{
    assert(s.take(i + 1).drop_last() =~= s.take(i));
}

/// Parse the digits from `from` on; `None` unless they are digits with a
/// value up to `limit`.
fn parse_digits(chars: &[char], from: usize, limit: u64) -> (r: Option<u64>)
    requires
        from <= chars@.len(),
    ensures
        ({
            let body = chars@.skip(from as int);
            match r {
                Some(n) => all_digits(body) && n == digits_value(body) && n <= limit,
                None => !all_digits(body) || digits_value(body) > limit,
            }
        }),
{
    let ghost body = chars@.skip(from as int);
    if from == chars.len() {
        return None;
    }
    let mut acc: u64 = 0;
    let mut over: bool = false;
    let mut i: usize = from;
    proof {
        assert(body.take(0) =~= Seq::<char>::empty());
    }
    while i < chars.len()
        invariant
            from <= i <= chars@.len(),
            body == chars@.skip(from as int),
            forall|k: int| 0 <= k < i - from ==> is_digit_char(#[trigger] body[k]),
            !over ==> acc == digits_value(body.take(i - from)) && acc <= limit,
            over ==> digits_value(body.take(i - from)) > limit,
        decreases chars.len() - i,
    {
        let c = chars[i];
        if !is_digit(c) {
            proof {
                assert(!is_digit_char(body[i - from]));
            }
            return None;
        }
        proof {
            lemma_digits_value_step(body, i - from);
            assert(body[i - from] == c);
        }
        if !over {
            let next: u128 = acc as u128 * 10 + (c as u32 - 48) as u128;
            if next > limit as u128 {
                over = true;
            } else {
                acc = next as u64;
            }
        }
        i += 1;
    }
    proof {
        assert(body.take(body.len() as int) =~= body);
    }
    if over {
        None
    } else {
        Some(acc)
    }
}

fn parse_in(chars: &[char], min: i64, max: u64) -> (r: Option<i128>)
    requires
        min <= 0,
    ensures
        match r {
            Some(n) => parsed_int(chars@, min as int, max as int) == Some(n as int),
            None => parsed_int(chars@, min as int, max as int) is None,
        },
{
    if chars.len() > 0 && chars[0] == '-' && min < 0 {
        let limit: u64 = (-(min as i128)) as u64;
        match parse_digits(chars, 1, limit) {
            Some(n) => Some(-(n as i128)),
            None => None,
        }
    } else {
        let from: usize = if chars.len() > 0 && chars[0] == '+' {
            1
        } else {
            0
        };
        proof {
            assert(chars@.skip(0) =~= chars@);
        }
        match parse_digits(chars, from, max) {
            Some(n) => Some(n as i128),
            None => None,
        }
    }
}

/// Parse a 64-bit integer.
pub fn parse_i64(s: &str) -> (r: Option<i64>)
    ensures
        match r {
            Some(n) => parsed_int(s@, i64::MIN as int, i64::MAX as int) == Some(n as int),
            None => parsed_int(s@, i64::MIN as int, i64::MAX as int) is None,
        },
{
    let chars = chars_of(s);
    match parse_in(chars.as_slice(), i64::MIN, i64::MAX as u64) {
        Some(n) => Some(n as i64),
        None => None,
    }
}

/// Parse a 32-bit integer.
pub fn parse_i32(s: &str) -> (r: Option<i32>)
    ensures
        match r {
            Some(n) => parsed_int(s@, i32::MIN as int, i32::MAX as int) == Some(n as int),
            None => parsed_int(s@, i32::MIN as int, i32::MAX as int) is None,
        },
{
    let chars = chars_of(s);
    match parse_in(chars.as_slice(), i32::MIN as i64, i32::MAX as u64) {
        Some(n) => Some(n as i32),
        None => None,
    }
}

/// Parse an unsigned 32-bit integer.
pub fn parse_u32(s: &str) -> (r: Option<u32>)
    ensures
        match r {
            Some(n) => parsed_int(s@, 0, u32::MAX as int) == Some(n as int),
            None => parsed_int(s@, 0, u32::MAX as int) is None,
        },
{
    let chars = chars_of(s);
    match parse_in(chars.as_slice(), 0, u32::MAX as u64) {
        Some(n) => Some(n as u32),
        None => None,
    }
}

/// Parse an index.
pub fn parse_usize(s: &str) -> (r: Option<usize>)
    ensures
        match r {
            Some(n) => parsed_int(s@, 0, usize::MAX as int) == Some(n as int),
            None => parsed_int(s@, 0, usize::MAX as int) is None,
        },
{
    let chars = chars_of(s);
    match parse_in(chars.as_slice(), 0, usize::MAX as u64) {
        Some(n) => Some(n as usize),
        None => None,
    }
}

pub proof fn lemma_digits_are_digits(n: nat)
    ensures
        all_digits(digits(n)),
        digits_value(digits(n)) == n,
    decreases n,
{
    if n >= 10 {
        lemma_digits_are_digits(n / 10);
        assert(digits(n).drop_last() =~= digits(n / 10));
        assert forall|i: int| 0 <= i < digits(n).len() implies is_digit_char(
            #[trigger] digits(n)[i],
        ) by {
            if i < digits(n).len() - 1 {
                assert(digits(n)[i] == digits(n / 10)[i]);
            }
        }
    } else {
        let s = digits(n);
        assert(s.drop_last() =~= Seq::<char>::empty());
        assert(digits_value(s.drop_last()) == 0);
    }
}

/// Reading the decimal text of a number gives the number back.
pub proof fn law_parse_reads_decimal(n: int, min: int, max: int)
    requires
        min <= n <= max,
    ensures
        parsed_int(decimal(n), min, max) == Some(n),
{
    let s = decimal(n);
    if n < 0 {
        lemma_digits_are_digits((-n) as nat);
        assert(s.skip(1) =~= digits((-n) as nat));
    } else {
        lemma_digits_are_digits(n as nat);
        assert(is_digit_char(s[0]));
    }
}

/// One more digit makes ten times the number and the digit, and the digits of a
/// number have no zero in front.
pub proof fn law_digits(n: nat, d: nat)
    requires
        d < 10,
        n > 0,
    ensures
        digits(10 * n + d) == digits(n).push(
            seq!['0', '1', '2', '3', '4', '5', '6', '7', '8', '9'][d as int],
        ),
        digits(d) == seq![seq!['0', '1', '2', '3', '4', '5', '6', '7', '8', '9'][d as int]],
        digits(n)[0] != '0',
    decreases n,
{
    assert((10 * n + d) / 10 == n);
    assert((10 * n + d) % 10 == d);
    if n >= 10 {
        law_digits(n / 10, d);
        assert(digits(n)[0] == digits(n / 10)[0]) by {
            lemma_digits_are_digits(n / 10);
        }
    }
}

/// A sign in front: `+` changes nothing, `-` negates where negative numbers are
/// in range and is no number where they are not. Leading zeros change nothing.
pub proof fn law_parse_signs(n: nat, min: int, max: int)
    requires
        n <= max,
        min <= 0,
    ensures
        parsed_int(seq!['+'] + digits(n), min, max) == Some(n as int),
        min <= -n && min < 0 ==> parsed_int(seq!['-'] + digits(n), min, max) == Some(-(n as int)),
        min == 0 ==> parsed_int(seq!['-'] + digits(n), min, max) is None,
        parsed_int(seq!['0'] + digits(n), min, max) == Some(n as int),
{
    lemma_digits_are_digits(n);
    let body = digits(n);
    let plus = seq!['+'] + body;
    let minus = seq!['-'] + body;
    let zero = seq!['0'] + body;
    assert(plus.skip(1) =~= body);
    assert(minus.skip(1) =~= body);
    assert(!is_digit_char(minus[0]));
    assert(all_digits(zero)) by {
        assert forall|i: int| 0 <= i < zero.len() implies is_digit_char(#[trigger] zero[i]) by {
            if i > 0 {
                assert(zero[i] == body[i - 1]);
            }
        }
    }
    lemma_leading_zero(body);
}

proof fn lemma_leading_zero(body: Seq<char>)
    ensures
        digits_value(seq!['0'] + body) == digits_value(body),
    decreases body.len(),
{
    let all = seq!['0'] + body;
    if body.len() == 0 {
        assert(all.drop_last() =~= Seq::<char>::empty());
        assert(digits_value(all.drop_last()) == 0);
    } else {
        assert(all.drop_last() =~= seq!['0'] + body.drop_last());
        lemma_leading_zero(body.drop_last());
    }
}

/// What is no number: nothing at all, a sign alone, a text with any other
/// character in it, and a number out of range.
pub proof fn law_parse_refuses(s: Seq<char>, i: int, n: nat, min: int, max: int)
    requires
        min <= 0 <= max,
    ensures
        parsed_int(Seq::empty(), min, max) is None,
        parsed_int(seq!['+'], min, max) is None,
        parsed_int(seq!['-'], min, max) is None,
        0 <= i < s.len() && !('0' <= s[i] <= '9') && (i > 0 || (s[0] != '-' && s[0] != '+'))
            ==> parsed_int(s, min, max) is None,
        n > max ==> parsed_int(digits(n), min, max) is None,
        -(n as int) < min ==> parsed_int(seq!['-'] + digits(n), min, max) is None,
{
    assert(seq!['+'].skip(1) =~= Seq::<char>::empty());
    assert(seq!['-'].skip(1) =~= Seq::<char>::empty());
    if 0 <= i < s.len() && !('0' <= s[i] <= '9') && (i > 0 || (s[0] != '-' && s[0] != '+')) {
        assert(!is_digit_char(s[i]));
        if i > 0 {
            assert(s.skip(1)[i - 1] == s[i]);
        }
    }
    lemma_digits_are_digits(n);
    assert(is_digit_char(digits(n)[0]));
    assert((seq!['-'] + digits(n)).skip(1) =~= digits(n));
    if min == 0 {
        assert(!is_digit_char((seq!['-'] + digits(n))[0]));
    }
}

} // verus!
