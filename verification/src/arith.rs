//! `$((...))` arithmetic.

use vstd::prelude::*;

use crate::env::Env;
use crate::lexer::{at, name_end};
use crate::number::{
    decimal, digits, law_parse_reads_decimal, lemma_digits_are_digits, parse_i64, parsed_int,
    signed_text,
};
use crate::text::{
    chars_of, is_digit, is_digit_char, is_name_part, is_white_space, is_whitespace, string_of,
    trim_text, trimmed,
};

verus! {

/// Variables by name.
pub type Vars = Map<Seq<char>, Seq<char>>;

/// A value and the position after what it was read from.
pub type Reading = Option<(int, int)>;

/// `n`, if it fits in 64 bits.
pub open spec fn fitting(n: int) -> Option<int> {
    if i64::MIN <= n <= i64::MAX {
        Some(n)
    } else {
        None
    }
}

/// The magnitude of `n`.
pub open spec fn magnitude(n: int) -> int {
    if n < 0 {
        -n
    } else {
        n
    }
}

/// The quotient, rounded toward zero.
pub open spec fn quotient(a: int, b: int) -> int {
    if (a < 0) == (b < 0) {
        magnitude(a) / magnitude(b)
    } else {
        -(magnitude(a) / magnitude(b))
    }
}

/// The remainder that goes with [`quotient`]: it has the sign of `a`.
pub open spec fn remainder(a: int, b: int) -> int {
    if a < 0 {
        -(magnitude(a) % magnitude(b))
    } else {
        magnitude(a) % magnitude(b)
    }
}

/// The value of a binary operation; nothing on division by zero and on
/// overflow.
pub open spec fn applied(op: char, a: int, b: int) -> Option<int> {
    if op == '+' {
        fitting(a + b)
    } else if op == '-' {
        fitting(a - b)
    } else if op == '*' {
        fitting(a * b)
    } else if b == 0 {
        None
    } else if op == '/' {
        fitting(quotient(a, b))
    } else if fitting(quotient(a, b)) is None {
        None
    } else {
        fitting(remainder(a, b))
    }
}

/// The first position at or after `i` without white space.
pub open spec fn after_blanks(s: Seq<char>, i: int) -> int
    decreases s.len() - i,
{
    if 0 <= i < s.len() && is_white_space(s[i]) {
        after_blanks(s, i + 1)
    } else {
        i
    }
}

/// The end of the run of digits that starts at `i`.
pub open spec fn digits_end(s: Seq<char>, i: int) -> int
    decreases s.len() - i,
{
    if 0 <= i < s.len() && is_digit_char(s[i]) {
        digits_end(s, i + 1)
    } else {
        i
    }
}

/// The number that a variable stands for: 0 when it is unset or not numeric.
pub open spec fn var_number(vars: Vars, name: Seq<char>) -> int {
    if vars.contains_key(name) {
        match parsed_int(trimmed(vars[name]), i64::MIN as int, i64::MAX as int) {
            Some(n) => n,
            None => 0,
        }
    } else {
        0
    }
}

/// A sum: terms joined by `+` and `-`, from the left.
pub open spec fn arith_expr(s: Seq<char>, i: int, vars: Vars) -> Reading
    decreases s.len() - i, 4int,
{
    match arith_term(s, i, vars) {
        Some((value, end)) if i <= end <= s.len() => arith_sum(s, end, vars, value),
        _ => None,
    }
}

/// The rest of a sum whose value up to `i` is `lhs`.
pub open spec fn arith_sum(s: Seq<char>, i: int, vars: Vars, lhs: int) -> Reading
    decreases s.len() - i, 3int,
{
    let j = after_blanks(s, i);
    if i <= j < s.len() && (s[j] == '+' || s[j] == '-') {
        match arith_term(s, j + 1, vars) {
            Some((rhs, end)) if j < end <= s.len() => match applied(s[j], lhs, rhs) {
                Some(value) => arith_sum(s, end, vars, value),
                None => None,
            },
            _ => None,
        }
    } else {
        Some((lhs, i))
    }
}

/// A product: factors joined by `*`, `/` and `%`, from the left.
pub open spec fn arith_term(s: Seq<char>, i: int, vars: Vars) -> Reading
    decreases s.len() - i, 2int,
{
    match arith_factor(s, i, vars) {
        Some((value, end)) if i <= end <= s.len() => arith_product(s, end, vars, value),
        _ => None,
    }
}

/// The rest of a product whose value up to `i` is `lhs`.
pub open spec fn arith_product(s: Seq<char>, i: int, vars: Vars, lhs: int) -> Reading
    decreases s.len() - i, 1int,
{
    let j = after_blanks(s, i);
    if i <= j < s.len() && (s[j] == '*' || s[j] == '/' || s[j] == '%') {
        match arith_factor(s, j + 1, vars) {
            Some((rhs, end)) if j < end <= s.len() => match applied(s[j], lhs, rhs) {
                Some(value) => arith_product(s, end, vars, value),
                None => None,
            },
            _ => None,
        }
    } else {
        Some((lhs, i))
    }
}

/// A signed factor, a parenthesised expression, a number or a variable (bare
/// or with `$`).
pub open spec fn arith_factor(s: Seq<char>, i: int, vars: Vars) -> Reading
    decreases s.len() - i, 0int,
{
    let j = after_blanks(s, i);
    if !(0 <= i <= j < s.len()) {
        None
    } else if s[j] == '-' {
        match arith_factor(s, j + 1, vars) {
            Some((value, end)) => match fitting(-value) {
                Some(value) => Some((value, end)),
                None => None,
            },
            None => None,
        }
    } else if s[j] == '+' {
        arith_factor(s, j + 1, vars)
    } else if s[j] == '(' {
        match arith_expr(s, j + 1, vars) {
            Some((value, end)) => if at(s, after_blanks(s, end), ')') {
                Some((value, after_blanks(s, end) + 1))
            } else {
                None
            },
            None => None,
        }
    } else if is_digit_char(s[j]) {
        let end = digits_end(s, j);
        match parsed_int(s.subrange(j, end), i64::MIN as int, i64::MAX as int) {
            Some(value) => Some((value, end)),
            None => None,
        }
    } else {
        let start = if s[j] == '$' {
            j + 1
        } else {
            j
        };
        let end = name_end(s, start);
        if end == start {
            None
        } else {
            Some((var_number(vars, s.subrange(start, end)), end))
        }
    }
}

/// The value of an arithmetic expression, if it has one.
pub open spec fn arith_value(s: Seq<char>, vars: Vars) -> Option<int> {
    match arith_expr(s, 0, vars) {
        Some((value, end)) => if after_blanks(s, end) == s.len() {
            Some(value)
        } else {
            None
        },
        None => None,
    }
}

/// What `$((...))` expands to: the value, or nothing when there is none.
pub open spec fn arith_text(s: Seq<char>, vars: Vars) -> Seq<char> {
    match arith_value(s, vars) {
        Some(value) => decimal(value),
        None => Seq::empty(),
    }
}

/// The first position at or after `i` without white space.
fn skip_blanks(chars: &[char], i: usize) -> (r: usize)
    requires
        i <= chars@.len(),
    ensures
        r == after_blanks(chars@, i as int),
        i <= r <= chars@.len(),
{
    let mut j: usize = i;
    while j < chars.len() && is_whitespace(chars[j])
        invariant
            i <= j <= chars@.len(),
            after_blanks(chars@, i as int) == after_blanks(chars@, j as int),
        decreases chars.len() - j,
    {
        j += 1;
    }
    j
}

/// `reading` is what `spec` says, and ends in the text.
pub open spec fn reads(r: Option<(i64, usize)>, reading: Reading, from: int, len: int) -> bool {
    match r {
        Some((value, end)) => reading == Some((value as int, end as int)) && from < end <= len,
        None => reading is None,
    }
}

fn apply(op: char, a: i64, b: i64) -> (r: Option<i64>)
    requires
        op == '+' || op == '-' || op == '*' || op == '/' || op == '%',
    ensures
        match r {
            Some(value) => applied(op, a as int, b as int) == Some(value as int),
            None => applied(op, a as int, b as int) is None,
        },
{
    if op == '+' {
        a.checked_add(b)
    } else if op == '-' {
        a.checked_sub(b)
    } else if op == '*' {
        a.checked_mul(b)
    } else if op == '/' {
        a.checked_div(b)
    } else {
        proof {
            if b != 0 {
                lemma_remainder(a as int, b as int);
            }
        }
        a.checked_rem(b)
    }
}

proof fn lemma_remainder(a: int, b: int)
    requires
        b != 0,
        i64::MIN <= a <= i64::MAX,
        i64::MIN <= b <= i64::MAX,
    ensures
        fitting(quotient(a, b)) is None <==> a == i64::MIN && b == -1,
        fitting(remainder(a, b)) is Some,
{
    let m = magnitude(a);
    let d = magnitude(b);
    assert(0 <= m / d <= m && 0 <= m % d < d) by (nonlinear_arith)
        requires
            m >= 0,
            d > 0,
    ;
    if d > 1 {
        assert(m / d <= m / 2) by (nonlinear_arith)
            requires
                m >= 0,
                d >= 2,
        ;
    } else {
        assert(m / 1 == m);
    }
}

fn read_expr(chars: &[char], i: usize, env: &Env) -> (r: Option<(i64, usize)>)
    requires
        i <= chars@.len(),
    ensures
        reads(r, arith_expr(chars@, i as int, env@), i as int, chars@.len() as int),
    decreases chars@.len() - i, 4int,
{
    let (first, from) = match read_term(chars, i, env) {
        None => {
            return None;
        },
        Some(reading) => reading,
    };
    let mut lhs: i64 = first;
    let mut pos: usize = from;
    loop
        invariant
            i < pos <= chars@.len(),
            arith_expr(chars@, i as int, env@) == arith_sum(
                chars@,
                pos as int,
                env@,
                lhs as int,
            ),
        decreases chars@.len() - pos,
    {
        let j = skip_blanks(chars, pos);
        if j < chars.len() && (chars[j] == '+' || chars[j] == '-') {
            match read_term(chars, j + 1, env) {
                None => {
                    return None;
                },
                Some((rhs, end)) => match apply(chars[j], lhs, rhs) {
                    None => {
                        return None;
                    },
                    Some(value) => {
                        lhs = value;
                        pos = end;
                    },
                },
            }
        } else {
            return Some((lhs, pos));
        }
    }
}

fn read_term(chars: &[char], i: usize, env: &Env) -> (r: Option<(i64, usize)>)
    requires
        i <= chars@.len(),
    ensures
        reads(r, arith_term(chars@, i as int, env@), i as int, chars@.len() as int),
    decreases chars@.len() - i, 2int,
{
    let (first, from) = match read_factor(chars, i, env) {
        None => {
            return None;
        },
        Some(reading) => reading,
    };
    let mut lhs: i64 = first;
    let mut pos: usize = from;
    loop
        invariant
            i < pos <= chars@.len(),
            arith_term(chars@, i as int, env@) == arith_product(
                chars@,
                pos as int,
                env@,
                lhs as int,
            ),
        decreases chars@.len() - pos,
    {
        let j = skip_blanks(chars, pos);
        if j < chars.len() && (chars[j] == '*' || chars[j] == '/' || chars[j] == '%') {
            match read_factor(chars, j + 1, env) {
                None => {
                    return None;
                },
                Some((rhs, end)) => match apply(chars[j], lhs, rhs) {
                    None => {
                        return None;
                    },
                    Some(value) => {
                        lhs = value;
                        pos = end;
                    },
                },
            }
        } else {
            return Some((lhs, pos));
        }
    }
}

fn read_factor(chars: &[char], i: usize, env: &Env) -> (r: Option<(i64, usize)>)
    requires
        i <= chars@.len(),
    ensures
        reads(r, arith_factor(chars@, i as int, env@), i as int, chars@.len() as int),
    decreases chars@.len() - i, 0int,
{
    let j = skip_blanks(chars, i);
    if j >= chars.len() {
        return None;
    }
    let c = chars[j];
    if c == '-' {
        match read_factor(chars, j + 1, env) {
            None => None,
            Some((value, end)) => match 0i64.checked_sub(value) {
                None => None,
                Some(value) => Some((value, end)),
            },
        }
    } else if c == '+' {
        read_factor(chars, j + 1, env)
    } else if c == '(' {
        match read_expr(chars, j + 1, env) {
            None => None,
            Some((value, end)) => {
                let close = skip_blanks(chars, end);
                if close < chars.len() && chars[close] == ')' {
                    Some((value, close + 1))
                } else {
                    None
                }
            },
        }
    } else if is_digit(c) {
        read_number(chars, j)
    } else {
        read_variable(chars, j, env)
    }
}

fn read_number(chars: &[char], j: usize) -> (r: Option<(i64, usize)>)
    requires
        j < chars@.len(),
        is_digit_char(chars@[j as int]),
    ensures
        ({
            let end = digits_end(chars@, j as int);
            match parsed_int(chars@.subrange(j as int, end), i64::MIN as int, i64::MAX as int) {
                Some(value) => r matches Some((v, e)) && v == value && e == end && j < end
                    <= chars@.len(),
                None => r is None,
            }
        }),
{
    let mut end: usize = j;
    while end < chars.len() && is_digit(chars[end])
        invariant
            j <= end <= chars@.len(),
            digits_end(chars@, j as int) == digits_end(chars@, end as int),
        decreases chars.len() - end,
    {
        end += 1;
    }
    let text = string_of(chars, j, end);
    match parse_i64(text.as_str()) {
        Some(value) => Some((value, end)),
        None => None,
    }
}

fn read_variable(chars: &[char], j: usize, env: &Env) -> (r: Option<(i64, usize)>)
    requires
        j < chars@.len(),
    ensures
        ({
            let start = if chars@[j as int] == '$' {
                j + 1
            } else {
                j as int
            };
            let end = name_end(chars@, start);
            if end == start {
                r is None
            } else {
                r matches Some((v, e)) && v == var_number(env@, chars@.subrange(start, end)) && e
                    == end && j < end <= chars@.len()
            }
        }),
{
    let start: usize = if chars[j] == '$' {
        j + 1
    } else {
        j
    };
    let mut end: usize = start;
    while end < chars.len() && is_name_part(chars[end])
        invariant
            start <= end <= chars@.len(),
            name_end(chars@, start as int) == name_end(chars@, end as int),
        decreases chars.len() - end,
    {
        end += 1;
    }
    if end == start {
        return None;
    }
    let name = string_of(chars, start, end);
    let value: i64 = match env.get(name.as_str()) {
        None => 0,
        Some(text) => match parse_i64(trim_text(text.as_str()).as_str()) {
            None => 0,
            Some(n) => n,
        },
    };
    Some((value, end))
}

/// Evaluate a `$((...))` body: i64 arithmetic with `+ - * / %`, unary
/// `-`/`+`, parentheses and variables (bare or `$name`; unset or
/// non-numeric variables count as 0). Any error — syntax, division by
/// zero, overflow — yields an empty expansion.
pub fn eval_arith(body: &str, env: &Env) -> (r: String)
    ensures
        r@ == arith_text(body@, env@),
{
    let chars = chars_of(body);
    match read_expr(chars.as_slice(), 0, env) {
        Some((value, end)) => {
            if skip_blanks(chars.as_slice(), end) == chars.len() {
                signed_text(value)
            } else {
                String::new()
            }
        },
        None => String::new(),
    }
}

/// The decimal text of a number evaluates to the number. The least 64-bit
/// number is left out: its magnitude does not fit, so negating it overflows.
pub proof fn law_decimal_evaluates(n: int, vars: Vars)
    requires
        i64::MIN < n <= i64::MAX,
    ensures
        arith_value(decimal(n), vars) == Some(n),
{
    let s = decimal(n);
    let m = magnitude(n);
    let start: int = if n < 0 {
        1
    } else {
        0
    };
    let len = s.len() as int;
    lemma_digits_are_digits(m as nat);
    law_parse_reads_decimal(m, i64::MIN as int, i64::MAX as int);
    assert(s.subrange(start, len) =~= digits(m as nat));
    assert forall|k: int| start <= k < len implies is_digit_char(#[trigger] s[k]) by {
        assert(s[k] == digits(m as nat)[k - start]);
    }
    lemma_digits_end(s, start);
    assert(after_blanks(s, start) == start);
    assert(after_blanks(s, len) == len);
    assert(arith_factor(s, start, vars) == Some((m, len)));
    if n < 0 {
        assert(after_blanks(s, 0) == 0);
        assert(arith_factor(s, 0, vars) == Some((n, len)));
    }
    assert(arith_product(s, len, vars, n) == Some((n, len)));
    assert(arith_sum(s, len, vars, n) == Some((n, len)));
    assert(arith_term(s, 0, vars) == Some((n, len)));
}

proof fn lemma_digits_end(s: Seq<char>, i: int)
    requires
        0 <= i <= s.len(),
        forall|k: int| i <= k < s.len() ==> is_digit_char(#[trigger] s[k]),
    ensures
        digits_end(s, i) == s.len(),
    decreases s.len() - i,
{
    if i < s.len() {
        assert(is_digit_char(s[i]));
        lemma_digits_end(s, i + 1);
    }
}

} // verus!
