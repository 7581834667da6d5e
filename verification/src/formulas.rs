//! What arithmetic expressions evaluate to.

use vstd::prelude::*;

use crate::arith::{
    after_blanks, applied, arith_expr, arith_factor, arith_product, arith_sum, arith_term,
    arith_text, arith_value, digits_end, magnitude, quotient, remainder, var_number, Reading, Vars,
};
use crate::lexer::name_end;
use crate::number::{decimal, digits, law_parse_reads_decimal, lemma_digits_are_digits};
use crate::text::{is_digit_char, is_name_char, is_white_space, trimmed};

verus! {

// ---------------------------------------------------------------------------
// Operations.

/// What the operators do with two numbers: they add, subtract, multiply and
/// divide, and there is no result that does not fit in 64 bits.
pub proof fn law_operations(a: int, b: int)
    ensures
        i64::MIN <= a + b <= i64::MAX ==> applied('+', a, b) == Some(a + b),
        i64::MIN <= a - b <= i64::MAX ==> applied('-', a, b) == Some(a - b),
        i64::MIN <= a * b <= i64::MAX ==> applied('*', a, b) == Some(a * b),
        !(i64::MIN <= a + b <= i64::MAX) ==> applied('+', a, b) is None,
        !(i64::MIN <= a - b <= i64::MAX) ==> applied('-', a, b) is None,
        !(i64::MIN <= a * b <= i64::MAX) ==> applied('*', a, b) is None,
        applied('/', a, 0) is None,
        applied('%', a, 0) is None,
{
}

/// Division rounds toward zero, and the remainder is what is left: it is
/// smaller than the divisor and has the sign of the dividend. The one quotient
/// that does not fit has no remainder either.
pub proof fn law_division(a: int, b: int)
    requires
        i64::MIN <= a <= i64::MAX,
        i64::MIN <= b <= i64::MAX,
        b != 0,
    ensures
        a == i64::MIN && b == -1 ==> applied('/', a, b) is None && applied('%', a, b) is None,
        !(a == i64::MIN && b == -1) ==> {
            &&& applied('/', a, b) matches Some(q)
            &&& applied('%', a, b) matches Some(r)
            &&& a == q * b + r
            &&& magnitude(r) < magnitude(b)
            &&& r > 0 ==> a > 0
            &&& r < 0 ==> a < 0
        },
{
    let m = magnitude(a);
    let d = magnitude(b);
    let k = m / d;
    let l = m % d;
    assert(m == k * d + l && 0 <= l < d && 0 <= k <= m) by (nonlinear_arith)
        requires
            m >= 0,
            d > 0,
            k == m / d,
            l == m % d,
    ;
    if d > 1 {
        assert(k <= m / 2) by (nonlinear_arith)
            requires
                m >= 0,
                d >= 2,
                k == m / d,
        ;
    } else {
        assert(m / 1 == m);
    }
    let q = quotient(a, b);
    let r = remainder(a, b);
    assert(a == q * b + r) by (nonlinear_arith)
        requires
            m == k * d + l,
            m == (if a < 0 {
                -a
            } else {
                a
            }),
            d == (if b < 0 {
                -b
            } else {
                b
            }),
            q == (if (a < 0) == (b < 0) {
                k
            } else {
                -k
            }),
            r == (if a < 0 {
                -l
            } else {
                l
            }),
    ;
}

// ---------------------------------------------------------------------------
// Formulas.

/// An expression that stands for itself wherever it is written.
pub enum Formula {
    Number(nat),
    /// A variable, with or without a `$` before its name.
    Variable { dollar: bool, name: Seq<char> },
    /// `-` and a formula.
    Negated(Box<Formula>),
    /// `+` and a formula.
    Same(Box<Formula>),
    /// White space and a formula.
    Blank(Seq<char>, Box<Formula>),
    /// Two formulas and the operator between them, in parentheses, with white
    /// space before the operator and before the closing parenthesis.
    Operation {
        left: Box<Formula>,
        before: Seq<char>,
        op: char,
        right: Box<Formula>,
        after: Seq<char>,
    },
}

/// Every character is white space.
pub open spec fn all_blank(text: Seq<char>) -> bool {
    forall|k: int| 0 <= k < text.len() ==> is_white_space(#[trigger] text[k])
}

/// `+`, `-`, `*`, `/` or `%`.
pub open spec fn is_arith_operator(c: char) -> bool {
    c == '+' || c == '-' || c == '*' || c == '/' || c == '%'
}

/// `*`, `/` or `%`.
pub open spec fn binds_tighter(c: char) -> bool {
    c == '*' || c == '/' || c == '%'
}

impl Formula {
    /// Names are names, operators operators and blanks blank.
    pub open spec fn wf(self) -> bool
        decreases self,
    {
        match self {
            Formula::Number(_) => true,
            Formula::Variable { dollar, name } => {
                &&& name.len() > 0
                &&& forall|k: int| 0 <= k < name.len() ==> is_name_char(#[trigger] name[k])
                &&& !dollar ==> !is_digit_char(name[0])
            },
            Formula::Negated(inner) => inner.wf(),
            Formula::Same(inner) => inner.wf(),
            Formula::Blank(blanks, inner) => all_blank(blanks) && inner.wf(),
            Formula::Operation { left, before, op, right, after } => {
                &&& left.wf()
                &&& right.wf()
                &&& all_blank(before)
                &&& all_blank(after)
                &&& is_arith_operator(op)
            },
        }
    }

    /// How the formula is written.
    pub open spec fn text(self) -> Seq<char>
        decreases self,
    {
        match self {
            Formula::Number(n) => digits(n),
            Formula::Variable { dollar, name } => if dollar {
                seq!['$'] + name
            } else {
                name
            },
            Formula::Negated(inner) => seq!['-'] + inner.text(),
            Formula::Same(inner) => seq!['+'] + inner.text(),
            Formula::Blank(blanks, inner) => blanks + inner.text(),
            Formula::Operation { left, before, op, right, after } => seq!['('] + left.text()
                + before + seq![op] + right.text() + after + seq![')'],
        }
    }

    /// The value of the formula, if it and all it is made of fit in 64 bits.
    pub open spec fn value(self, vars: Vars) -> Option<int>
        decreases self,
    {
        match self {
            Formula::Number(n) => if n <= i64::MAX {
                Some(n as int)
            } else {
                None
            },
            Formula::Variable { name, .. } => Some(var_number(vars, name)),
            Formula::Negated(inner) => match inner.value(vars) {
                Some(v) => if v == i64::MIN {
                    None
                } else {
                    Some(-v)
                },
                None => None,
            },
            Formula::Same(inner) => inner.value(vars),
            Formula::Blank(_, inner) => inner.value(vars),
            Formula::Operation { left, op, right, .. } => combined(
                left.value(vars),
                op,
                right.value(vars),
            ),
        }
    }
}

/// The value of an operation on two values, if there are two.
pub open spec fn combined(a: Option<int>, op: char, b: Option<int>) -> Option<int> {
    match (a, b) {
        (Some(a), Some(b)) => applied(op, a, b),
        _ => None,
    }
}

/// `text` stands in `s` at `off`.
spec fn stands(s: Seq<char>, off: int, text: Seq<char>) -> bool {
    &&& 0 <= off
    &&& off + text.len() <= s.len()
    &&& forall|k: int| 0 <= k < text.len() ==> s[off + k] == #[trigger] text[k]
}

/// No name and no number goes on at `i`.
spec fn stops(s: Seq<char>, i: int) -> bool {
    i < s.len() ==> !is_name_char(s[i])
}

/// What is read is the value, up to `end`, or nothing without one.
spec fn yields(reading: Reading, value: Option<int>, end: int) -> bool {
    match value {
        Some(v) => reading == Some((v, end)),
        None => reading is None,
    }
}

proof fn lemma_blanks(s: Seq<char>, i: int, k: int)
    requires
        0 <= i <= k <= s.len(),
        forall|j: int| i <= j < k ==> is_white_space(#[trigger] s[j]),
        k < s.len() ==> !is_white_space(s[k]),
    ensures
        after_blanks(s, i) == k,
    decreases k - i,
{
    if i < k {
        assert(is_white_space(s[i]));
        lemma_blanks(s, i + 1, k);
    }
}

proof fn lemma_digits_run(s: Seq<char>, i: int, k: int)
    requires
        0 <= i <= k <= s.len(),
        forall|j: int| i <= j < k ==> is_digit_char(#[trigger] s[j]),
        k < s.len() ==> !is_digit_char(s[k]),
    ensures
        digits_end(s, i) == k,
    decreases k - i,
{
    if i < k {
        assert(is_digit_char(s[i]));
        lemma_digits_run(s, i + 1, k);
    }
}

proof fn lemma_name_run(s: Seq<char>, i: int, k: int)
    requires
        0 <= i <= k <= s.len(),
        forall|j: int| i <= j < k ==> is_name_char(#[trigger] s[j]),
        k < s.len() ==> !is_name_char(s[k]),
    ensures
        name_end(s, i) == k,
    decreases k - i,
{
    if i < k {
        assert(is_name_char(s[i]));
        lemma_name_run(s, i + 1, k);
    }
}

proof fn lemma_var_fits(vars: Vars, name: Seq<char>)
    ensures
        i64::MIN <= var_number(vars, name) <= i64::MAX,
{
}

proof fn lemma_value_fits(f: Formula, vars: Vars)
    requires
        f.wf(),
    ensures
        f.value(vars) matches Some(v) ==> i64::MIN <= v <= i64::MAX,
    decreases f,
{
    match f {
        Formula::Negated(inner) => lemma_value_fits(*inner, vars),
        Formula::Same(inner) => lemma_value_fits(*inner, vars),
        Formula::Blank(_, inner) => lemma_value_fits(*inner, vars),
        Formula::Operation { left, right, .. } => {
            lemma_value_fits(*left, vars);
            lemma_value_fits(*right, vars);
        },
        Formula::Variable { name, .. } => lemma_var_fits(vars, name),
        _ => {},
    }
}

proof fn lemma_text_len(f: Formula)
    requires
        f.wf(),
    ensures
        f.text().len() > 0,
    decreases f,
{
    match f {
        Formula::Number(n) => lemma_digits_are_digits(n),
        Formula::Blank(_, inner) => lemma_text_len(*inner),
        _ => {},
    }
}

proof fn lemma_number(s: Seq<char>, off: int, n: nat, vars: Vars)
    requires
        stands(s, off, digits(n)),
        stops(s, off + digits(n).len()),
    ensures
        yields(
            arith_factor(s, off, vars),
            Formula::Number(n).value(vars),
            off + digits(n).len(),
        ),
{
    let text = digits(n);
    let end = off + text.len();
    lemma_digits_are_digits(n);
    assert forall|j: int| off <= j < end implies is_digit_char(#[trigger] s[j]) by {
        assert(s[off + (j - off)] == text[j - off]);
    }
    lemma_digits_run(s, off, end);
    assert(s.subrange(off, end) =~= text) by {
        assert forall|j: int| 0 <= j < text.len() implies s[off + j] == #[trigger] text[j] by {}
    }
    assert(is_digit_char(s[off]));
    assert(after_blanks(s, off) == off);
    assert(is_digit_char(text[0]));
    if n <= i64::MAX {
        law_parse_reads_decimal(n as int, i64::MIN as int, i64::MAX as int);
    }
}

proof fn lemma_variable(s: Seq<char>, off: int, dollar: bool, name: Seq<char>, vars: Vars)
    requires
        (Formula::Variable { dollar, name }).wf(),
        stands(s, off, (Formula::Variable { dollar, name }).text()),
        stops(s, off + (Formula::Variable { dollar, name }).text().len()),
    ensures
        arith_factor(s, off, vars) == Some(
            (var_number(vars, name), off + (Formula::Variable { dollar, name }).text().len()),
        ),
{
    let text = (Formula::Variable { dollar, name }).text();
    let end = off + text.len();
    let start = if dollar {
        off + 1
    } else {
        off
    };
    assert forall|j: int| start <= j < end implies is_name_char(#[trigger] s[j]) by {
        assert(s[off + (j - off)] == text[j - off]);
        assert(text[j - off] == name[j - start]);
    }
    lemma_name_run(s, start, end);
    assert(s.subrange(start, end) =~= name) by {
        assert forall|j: int| 0 <= j < name.len() implies s[start + j] == #[trigger] name[j] by {
            assert(s[off + (start + j - off)] == text[start + j - off]);
        }
    }
    assert(s[off + 0] == text[0]);
    assert(is_name_char(name[0]));
    assert(after_blanks(s, off) == off);
}

/// The parts of an operation stand where they are written.
proof fn lemma_operation_text(
    s: Seq<char>,
    off: int,
    left: Seq<char>,
    before: Seq<char>,
    op: char,
    right: Seq<char>,
    after: Seq<char>,
)
    requires
        stands(s, off, seq!['('] + left + before + seq![op] + right + after + seq![')']),
    ensures
        ({
            let a = off + 1;
            let b = a + left.len();
            let c = b + before.len();
            let d = c + 1;
            let e = d + right.len();
            let f = e + after.len();
            &&& s[off] == '('
            &&& stands(s, a, left)
            &&& stands(s, b, before)
            &&& s[c] == op
            &&& stands(s, d, right)
            &&& stands(s, e, after)
            &&& s[f] == ')'
            &&& f + 1 == off + (seq!['('] + left + before + seq![op] + right + after + seq![
                ')',
            ]).len()
            &&& f < s.len()
        }),
{
    let all = seq!['('] + left + before + seq![op] + right + after + seq![')'];
    let b = 1 + left.len() as int;
    let c = b + before.len();
    let d = c + 1;
    let e = d + right.len();
    let f = e + after.len();
    assert(s[off + 0] == all[0]);
    assert(s[off + c] == all[c]);
    assert(s[off + f] == all[f]);
    assert forall|k: int| 0 <= k < left.len() implies s[off + 1 + k] == #[trigger] left[k] by {
        assert(s[off + (1 + k)] == all[1 + k]);
    }
    assert forall|k: int| 0 <= k < before.len() implies s[off + b + k] == #[trigger] before[k] by {
        assert(s[off + (b + k)] == all[b + k]);
    }
    assert forall|k: int| 0 <= k < right.len() implies s[off + d + k] == #[trigger] right[k] by {
        assert(s[off + (d + k)] == all[d + k]);
    }
    assert forall|k: int| 0 <= k < after.len() implies s[off + e + k] == #[trigger] after[k] by {
        assert(s[off + (e + k)] == all[e + k]);
    }
}

proof fn lemma_blank_run(s: Seq<char>, i: int, blanks: Seq<char>)
    requires
        stands(s, i, blanks),
        all_blank(blanks),
        i + blanks.len() < s.len() ==> !is_white_space(s[i + blanks.len()]),
    ensures
        after_blanks(s, i) == i + blanks.len(),
{
    assert forall|j: int| i <= j < i + blanks.len() implies is_white_space(#[trigger] s[j]) by {
        assert(s[i + (j - i)] == blanks[j - i]);
    }
    lemma_blanks(s, i, i + blanks.len());
}

/// Two factors, with the operator at `c`, are read as their combination where
/// no operator follows.
proof fn lemma_two_factors(
    s: Seq<char>,
    a: int,
    b: int,
    c: int,
    e: int,
    f: int,
    x: Option<int>,
    y: Option<int>,
    vars: Vars,
)
    requires
        0 <= a < b <= c,
        c + 1 < e <= f <= s.len(),
        is_arith_operator(s[c]),
        yields(arith_factor(s, a, vars), x, b),
        after_blanks(s, b) == c,
        yields(arith_factor(s, c + 1, vars), y, e),
        after_blanks(s, e) == f,
        f < s.len() ==> !is_arith_operator(s[f]),
    ensures
        yields(arith_expr(s, a, vars), combined(x, s[c], y), e),
{
    if let Some(v) = x {
        if binds_tighter(s[c]) {
            if let Some(w) = y {
                if let Some(z) = applied(s[c], v, w) {
                    assert(arith_product(s, e, vars, z) == Some((z, e)));
                    assert(arith_sum(s, e, vars, z) == Some((z, e)));
                }
            }
        } else {
            assert(arith_product(s, b, vars, v) == Some((v, b)));
            if let Some(w) = y {
                assert(arith_product(s, e, vars, w) == Some((w, e)));
                assert(arith_term(s, c + 1, vars) == Some((w, e)));
                if let Some(z) = applied(s[c], v, w) {
                    assert(arith_sum(s, e, vars, z) == Some((z, e)));
                }
            }
        }
    }
}

proof fn lemma_factor(s: Seq<char>, off: int, f: Formula, vars: Vars)
    requires
        f.wf(),
        stands(s, off, f.text()),
        stops(s, off + f.text().len()),
    ensures
        yields(arith_factor(s, off, vars), f.value(vars), off + f.text().len()),
    decreases f,
{
    let text = f.text();
    let end = off + text.len();
    lemma_text_len(f);
    match f {
        Formula::Number(n) => lemma_number(s, off, n, vars),
        Formula::Variable { dollar, name } => lemma_variable(s, off, dollar, name, vars),
        Formula::Negated(inner) => {
            assert(s[off + 0] == text[0]);
            assert(stands(s, off + 1, inner.text())) by {
                assert forall|k: int| 0 <= k < inner.text().len() implies s[off + 1 + k]
                    == #[trigger] inner.text()[k] by {
                    assert(s[off + (1 + k)] == text[1 + k]);
                }
            }
            lemma_factor(s, off + 1, *inner, vars);
            lemma_value_fits(*inner, vars);
            assert(after_blanks(s, off) == off);
        },
        Formula::Same(inner) => {
            assert(s[off + 0] == text[0]);
            assert(stands(s, off + 1, inner.text())) by {
                assert forall|k: int| 0 <= k < inner.text().len() implies s[off + 1 + k]
                    == #[trigger] inner.text()[k] by {
                    assert(s[off + (1 + k)] == text[1 + k]);
                }
            }
            lemma_factor(s, off + 1, *inner, vars);
            assert(after_blanks(s, off) == off);
        },
        Formula::Blank(blanks, inner) => {
            let n = blanks.len() as int;
            assert(stands(s, off + n, inner.text())) by {
                assert forall|k: int| 0 <= k < inner.text().len() implies s[off + n + k]
                    == #[trigger] inner.text()[k] by {
                    assert(s[off + (n + k)] == text[n + k]);
                }
            }
            assert(stands(s, off, blanks)) by {
                assert forall|k: int| 0 <= k < n implies s[off + k] == #[trigger] blanks[k] by {
                    assert(s[off + k] == text[k]);
                }
            }
            lemma_factor(s, off + n, *inner, vars);
            lemma_skip_blanks(s, off, blanks);
            lemma_same_factor(s, off, off + n, vars);
        },
        Formula::Operation { left, before, op, right, after } => {
            lemma_operation_text(s, off, left.text(), before, op, right.text(), after);
            lemma_text_len(*left);
            lemma_text_len(*right);
            let a = off + 1;
            let b = a + left.text().len();
            let c = b + before.len();
            let d = c + 1;
            let e = d + right.text().len();
            let close = e + after.len();
            assert(stops(s, b)) by {
                if before.len() > 0 {
                    assert(s[b + 0] == before[0]);
                    assert(is_white_space(before[0]));
                }
            }
            assert(stops(s, e)) by {
                if after.len() > 0 {
                    assert(s[e + 0] == after[0]);
                    assert(is_white_space(after[0]));
                }
            }
            lemma_factor(s, a, *left, vars);
            lemma_factor(s, d, *right, vars);
            lemma_blank_run(s, b, before);
            lemma_blank_run(s, e, after);
            lemma_two_factors(
                s,
                a,
                b,
                c,
                e,
                close,
                left.value(vars),
                right.value(vars),
                vars,
            );
            assert(after_blanks(s, off) == off);
            assert(close + 1 == end);
        },
    }
}

proof fn lemma_skip_blanks(s: Seq<char>, i: int, blanks: Seq<char>)
    requires
        stands(s, i, blanks),
        all_blank(blanks),
    ensures
        after_blanks(s, i) == after_blanks(s, i + blanks.len()),
    decreases blanks.len(),
{
    if blanks.len() > 0 {
        assert(s[i + 0] == blanks[0]);
        let rest = blanks.skip(1);
        assert forall|k: int| 0 <= k < rest.len() implies s[i + 1 + k] == #[trigger] rest[k] by {
            assert(s[i + (k + 1)] == blanks[k + 1]);
        }
        assert forall|k: int| 0 <= k < rest.len() implies is_white_space(#[trigger] rest[k]) by {
            assert(is_white_space(blanks[k + 1]));
        }
        assert(is_white_space(blanks[0]));
        lemma_skip_blanks(s, i + 1, rest);
    }
}

proof fn lemma_same_factor(s: Seq<char>, i: int, k: int, vars: Vars)
    requires
        0 <= i <= k <= s.len(),
        after_blanks(s, i) == after_blanks(s, k),
    ensures
        arith_factor(s, i, vars) == arith_factor(s, k, vars),
{
    lemma_blanks_grow(s, k);
}

proof fn lemma_blanks_grow(s: Seq<char>, i: int)
    requires
        0 <= i <= s.len(),
    ensures
        i <= after_blanks(s, i) <= s.len(),
    decreases s.len() - i,
{
    if i < s.len() && is_white_space(s[i]) {
        lemma_blanks_grow(s, i + 1);
    }
}

/// The text of `f` and blanks at the end evaluate to its value: parentheses
/// group, white space makes no difference, variables stand for their numbers,
/// and where anything does not fit there is no value.
pub proof fn law_formulas_evaluate(f: Formula, blanks: Seq<char>, vars: Vars)
    requires
        f.wf(),
        all_blank(blanks),
    ensures
        arith_value(f.text() + blanks, vars) == f.value(vars),
        arith_text(f.text() + blanks, vars) == match f.value(vars) {
            Some(v) => decimal(v),
            None => Seq::empty(),
        },
{
    let s = f.text() + blanks;
    let n = f.text().len() as int;
    lemma_text_len(f);
    assert(stops(s, n)) by {
        if blanks.len() > 0 {
            assert(s[n] == blanks[0]);
            assert(is_white_space(blanks[0]));
        }
    }
    assert(stands(s, 0, f.text()));
    assert(stands(s, n, blanks));
    lemma_factor(s, 0, f, vars);
    lemma_blank_run(s, n, blanks);
    if let Some(v) = f.value(vars) {
        assert(arith_product(s, n, vars, v) == Some((v, n)));
        assert(arith_sum(s, n, vars, v) == Some((v, n)));
    }
}

// ---------------------------------------------------------------------------
// Formulas in a row.

/// The operators and formulas that follow a formula, as they are written.
pub open spec fn tail_text(tail: Seq<(char, Formula)>) -> Seq<char>
    decreases tail.len(),
{
    if tail.len() == 0 {
        Seq::empty()
    } else {
        tail_text(tail.drop_last()) + seq![tail.last().0] + tail.last().1.text()
    }
}

/// The value of a row that is combined from the left.
pub open spec fn folded(first: Option<int>, tail: Seq<(char, Formula)>, vars: Vars) -> Option<int>
    decreases tail.len(),
{
    if tail.len() == 0 {
        first
    } else {
        combined(
            folded(first, tail.drop_last(), vars),
            tail.last().0,
            tail.last().1.value(vars),
        )
    }
}

/// All operators of the row are additions and subtractions, or all are
/// multiplications and divisions.
pub open spec fn one_level(tail: Seq<(char, Formula)>, tight: bool) -> bool {
    forall|k: int|
        0 <= k < tail.len() ==> (#[trigger] tail[k]).1.wf() && is_arith_operator(tail[k].0)
            && binds_tighter(tail[k].0) == tight
}

proof fn lemma_tail_first(tail: Seq<(char, Formula)>)
    requires
        tail.len() > 0,
    ensures
        tail_text(tail) == seq![tail[0].0] + tail[0].1.text() + tail_text(tail.skip(1)),
    decreases tail.len(),
{
    let first = seq![tail[0].0] + tail[0].1.text();
    if tail.len() == 1 {
        let none = Seq::<char>::empty();
        assert(tail_text(tail.drop_last()) == none);
        assert(tail_text(tail.skip(1)) == none);
        assert(none + seq![tail[0].0] + tail[0].1.text() =~= first + none);
    } else {
        let head = tail.drop_last();
        lemma_tail_first(head);
        assert(tail.skip(1).drop_last() =~= head.skip(1));
        assert(tail.skip(1).last() == tail.last());
        let mid = tail_text(head.skip(1));
        let last = seq![tail.last().0];
        let text = tail.last().1.text();
        assert((first + mid) + last + text =~= first + (mid + last + text));
    }
}

proof fn lemma_folded_first(first: Option<int>, tail: Seq<(char, Formula)>, vars: Vars)
    requires
        tail.len() > 0,
    ensures
        folded(first, tail, vars) == folded(
            combined(first, tail[0].0, tail[0].1.value(vars)),
            tail.skip(1),
            vars,
        ),
    decreases tail.len(),
{
    if tail.len() > 1 {
        lemma_folded_first(first, tail.drop_last(), vars);
        assert(tail.skip(1).drop_last() =~= tail.drop_last().skip(1));
        assert(tail.skip(1).last() == tail.last());
    } else {
        assert(folded(first, tail.drop_last(), vars) == first);
    }
}

proof fn lemma_folded_none(tail: Seq<(char, Formula)>, vars: Vars)
    ensures
        folded(None, tail, vars) is None,
    decreases tail.len(),
{
    if tail.len() > 0 {
        lemma_folded_none(tail.drop_last(), vars);
    }
}

proof fn lemma_row(s: Seq<char>, i: int, tail: Seq<(char, Formula)>, tight: bool, lhs: int, vars: Vars)
    requires
        one_level(tail, tight),
        0 < i <= s.len(),
        stands(s, i, tail_text(tail)),
        i + tail_text(tail).len() == s.len(),
    ensures
        tight ==> yields(
            arith_product(s, i, vars, lhs),
            folded(Some(lhs), tail, vars),
            s.len() as int,
        ),
        !tight ==> yields(
            arith_sum(s, i, vars, lhs),
            folded(Some(lhs), tail, vars),
            s.len() as int,
        ),
    decreases tail.len(),
{
    if tail.len() == 0 {
        assert(after_blanks(s, i) == i);
    } else {
        let (op, f) = tail[0];
        let rest = tail.skip(1);
        let text = f.text();
        let end = i + 1 + text.len();
        lemma_tail_first(tail);
        lemma_folded_first(Some(lhs), tail, vars);
        assert(f.wf() && is_arith_operator(op));
        let all = tail_text(tail);
        assert(s[i + 0] == all[0]);
        assert(s[i] == op);
        assert forall|k: int| 0 <= k < text.len() implies s[i + 1 + k] == #[trigger] text[k] by {
            assert(s[i + (1 + k)] == all[1 + k]);
        }
        let more = tail_text(rest);
        assert forall|k: int| 0 <= k < more.len() implies s[end + k] == #[trigger] more[k] by {
            let j = 1 + text.len() + k;
            assert(s[i + j] == all[j]);
        }
        assert(stops(s, end)) by {
            if rest.len() > 0 {
                lemma_tail_first(rest);
                assert(rest[0] == tail[1]);
                assert(s[end + 0] == more[0]);
            }
        }
        assert forall|k: int| 0 <= k < rest.len() implies (#[trigger] rest[k]).1.wf()
            && is_arith_operator(rest[k].0) && binds_tighter(rest[k].0) == tight by {
            assert(rest[k] == tail[k + 1]);
        }
        lemma_text_len(f);
        lemma_factor(s, i + 1, f, vars);
        lemma_folded_none(rest, vars);
        assert(after_blanks(s, i) == i);
        if let Some(w) = f.value(vars) {
            if let Some(z) = applied(op, lhs, w) {
                lemma_row(s, end, rest, tight, z, vars);
            }
            if !tight {
                // No tighter operator follows the factor, so it is a term.
                assert(arith_product(s, end, vars, w) == Some((w, end))) by {
                    if rest.len() > 0 {
                        lemma_tail_first(rest);
                        assert(rest[0] == tail[1]);
                        assert(s[end + 0] == more[0]);
                        assert(!binds_tighter(rest[0].0) && is_arith_operator(rest[0].0));
                    }
                    assert(after_blanks(s, end) == end);
                }
                assert(arith_term(s, i + 1, vars) == Some((w, end)));
            }
        }
    }
}

/// Formulas with operators of one level between them, however many, are
/// combined from the left.
pub proof fn law_rows_fold_from_the_left(
    first: Formula,
    tail: Seq<(char, Formula)>,
    tight: bool,
    vars: Vars,
)
    requires
        first.wf(),
        one_level(tail, tight),
    ensures
        arith_value(first.text() + tail_text(tail), vars) == folded(
            first.value(vars),
            tail,
            vars,
        ),
{
    let s = first.text() + tail_text(tail);
    let n = first.text().len() as int;
    lemma_text_len(first);
    assert(stands(s, 0, first.text()));
    assert(stands(s, n, tail_text(tail)));
    if tail.len() > 0 {
        lemma_tail_first(tail);
        assert(s[n] == tail[0].0);
        assert(is_arith_operator(tail[0].0) && binds_tighter(tail[0].0) == tight);
    }
    lemma_factor(s, 0, first, vars);
    lemma_folded_none(tail, vars);
    let len = s.len() as int;
    assert(after_blanks(s, len) == len);
    if let Some(v) = first.value(vars) {
        lemma_row(s, n, tail, tight, v, vars);
        if tight {
            if let Some(z) = folded(Some(v), tail, vars) {
                assert(arith_sum(s, len, vars, z) == Some((z, len)));
            }
        } else {
            assert(arith_product(s, n, vars, v) == Some((v, n))) by {
                assert(after_blanks(s, n) == n);
            }
        }
    }
}

/// `*`, `/` and `%` bind tighter than `+` and `-`.
pub proof fn law_products_bind_tighter(
    x: Formula,
    plus: char,
    y: Formula,
    times: char,
    z: Formula,
    vars: Vars,
)
    requires
        x.wf(),
        y.wf(),
        z.wf(),
        plus == '+' || plus == '-',
        binds_tighter(times),
    ensures
        arith_value(x.text() + seq![plus] + y.text() + seq![times] + z.text(), vars) == combined(
            x.value(vars),
            plus,
            combined(y.value(vars), times, z.value(vars)),
        ),
        arith_value(y.text() + seq![times] + z.text() + seq![plus] + x.text(), vars) == combined(
            combined(y.value(vars), times, z.value(vars)),
            plus,
            x.value(vars),
        ),
{
    lemma_text_len(x);
    lemma_text_len(y);
    lemma_text_len(z);
    lemma_sum_of_product(x, plus, y, times, z, vars);
    lemma_product_in_sum(y, times, z, plus, x, vars);
}

#[verifier::spinoff_prover]
#[verifier::rlimit(60)]
proof fn lemma_sum_of_product(
    x: Formula,
    plus: char,
    y: Formula,
    times: char,
    z: Formula,
    vars: Vars,
)
    requires
        x.wf(),
        y.wf(),
        z.wf(),
        plus == '+' || plus == '-',
        binds_tighter(times),
        x.text().len() > 0,
        y.text().len() > 0,
        z.text().len() > 0,
    ensures
        arith_value(x.text() + seq![plus] + y.text() + seq![times] + z.text(), vars) == combined(
            x.value(vars),
            plus,
            combined(y.value(vars), times, z.value(vars)),
        ),
{
    let s = x.text() + seq![plus] + y.text() + seq![times] + z.text();
    let a = x.text().len() as int;
    let b = a + 1 + y.text().len();
    let n = s.len() as int;
    assert(s[a] == plus);
    assert(s[b] == times);
    assert(stands(s, 0, x.text()));
    assert(stands(s, a + 1, y.text()));
    assert(stands(s, b + 1, z.text()));
    lemma_factor(s, 0, x, vars);
    lemma_factor(s, a + 1, y, vars);
    lemma_factor(s, b + 1, z, vars);
    assert(after_blanks(s, a) == a);
    assert(after_blanks(s, b) == b);
    assert(after_blanks(s, n) == n);
    if let Some(u) = x.value(vars) {
        assert(arith_product(s, a, vars, u) == Some((u, a)));
        assert(arith_term(s, 0, vars) == Some((u, a)));
        if let Some(v) = y.value(vars) {
            if let Some(w) = z.value(vars) {
                if let Some(p) = applied(times, v, w) {
                    assert(arith_product(s, n, vars, p) == Some((p, n)));
                    assert(arith_term(s, a + 1, vars) == Some((p, n)));
                    if let Some(q) = applied(plus, u, p) {
                        assert(arith_sum(s, n, vars, q) == Some((q, n)));
                    }
                }
            }
        }
    }
}

#[verifier::spinoff_prover]
#[verifier::rlimit(60)]
proof fn lemma_product_in_sum(
    y: Formula,
    times: char,
    z: Formula,
    plus: char,
    x: Formula,
    vars: Vars,
)
    requires
        x.wf(),
        y.wf(),
        z.wf(),
        plus == '+' || plus == '-',
        binds_tighter(times),
        x.text().len() > 0,
        y.text().len() > 0,
        z.text().len() > 0,
    ensures
        arith_value(y.text() + seq![times] + z.text() + seq![plus] + x.text(), vars) == combined(
            combined(y.value(vars), times, z.value(vars)),
            plus,
            x.value(vars),
        ),
{
    let s = y.text() + seq![times] + z.text() + seq![plus] + x.text();
    let a = y.text().len() as int;
    let b = a + 1 + z.text().len();
    let n = s.len() as int;
    assert(s[a] == times);
    assert(s[b] == plus);
    assert(stands(s, 0, y.text()));
    assert(stands(s, a + 1, z.text()));
    assert(stands(s, b + 1, x.text()));
    lemma_factor(s, 0, y, vars);
    lemma_factor(s, a + 1, z, vars);
    lemma_factor(s, b + 1, x, vars);
    assert(after_blanks(s, a) == a);
    assert(after_blanks(s, b) == b);
    assert(after_blanks(s, n) == n);
    if let Some(v) = y.value(vars) {
        if let Some(w) = z.value(vars) {
            if let Some(p) = applied(times, v, w) {
                assert(arith_product(s, b, vars, p) == Some((p, b)));
                assert(arith_term(s, 0, vars) == Some((p, b)));
                if let Some(u) = x.value(vars) {
                    assert(arith_product(s, n, vars, u) == Some((u, n)));
                    assert(arith_term(s, b + 1, vars) == Some((u, n)));
                    if let Some(q) = applied(plus, p, u) {
                        assert(arith_sum(s, n, vars, q) == Some((q, n)));
                    }
                }
            }
        }
    }
}

// ---------------------------------------------------------------------------
// Variables.

/// A variable stands for the number that its value writes, white space around
/// it aside, and for 0 where it is unset or writes none.
pub proof fn law_variables_are_numbers(name: Seq<char>, n: int, vars: Vars)
    ensures
        !vars.contains_key(name) ==> var_number(vars, name) == 0,
        vars.contains_key(name) && trimmed(vars[name]) == decimal(n) && i64::MIN <= n <= i64::MAX
            ==> var_number(vars, name) == n,
        vars.contains_key(name) && (exists|k: int|
            0 < k < trimmed(vars[name]).len() && !is_digit_char(
                #[trigger] trimmed(vars[name])[k],
            )) ==> var_number(vars, name) == 0,
{
    if i64::MIN <= n <= i64::MAX {
        law_parse_reads_decimal(n, i64::MIN as int, i64::MAX as int);
    }
    if vars.contains_key(name) && exists|k: int|
        0 < k < trimmed(vars[name]).len() && !is_digit_char(#[trigger] trimmed(vars[name])[k]) {
        let text = trimmed(vars[name]);
        let k = choose|k: int| 0 < k < text.len() && !is_digit_char(#[trigger] text[k]);
        crate::number::law_parse_refuses(text, k, 0, i64::MIN as int, i64::MAX as int);
    }
}

/// What is no expression has no value: an empty text, an operator without a
/// right side, an open parenthesis, and anything after an expression.
pub proof fn law_broken_formulas_have_no_value(f: Formula, c: char, g: Formula, vars: Vars)
    requires
        f.wf(),
        g.wf(),
        is_arith_operator(c),
    ensures
        arith_value(Seq::empty(), vars) is None,
        arith_value(f.text() + seq![c], vars) is None,
        arith_value(seq!['('] + f.text(), vars) is None,
        arith_value(f.text() + seq![')'], vars) is None,
        arith_value(f.text() + seq![' '] + (Formula::Number(0)).text(), vars) is None,
{
    lemma_text_len(f);
    let n = f.text().len() as int;
    let a = f.text() + seq![c];
    assert(stands(a, 0, f.text()));
    lemma_factor(a, 0, f, vars);
    assert(after_blanks(a, n) == n);
    assert(after_blanks(a, n + 1) == n + 1);
    assert(arith_factor(a, n + 1, vars) is None);
    assert(arith_term(a, n + 1, vars) is None);
    let b = seq!['('] + f.text();
    assert(stands(b, 1, f.text()));
    lemma_factor(b, 1, f, vars);
    assert(after_blanks(b, 0) == 0);
    assert(after_blanks(b, n + 1) == n + 1);
    if let Some(v) = f.value(vars) {
        assert(arith_product(b, n + 1, vars, v) == Some((v, n + 1)));
        assert(arith_sum(b, n + 1, vars, v) == Some((v, n + 1)));
        assert(arith_expr(b, 1, vars) == Some((v, n + 1)));
    }
    assert(arith_factor(b, 0, vars) is None);
    let d = f.text() + seq![')'];
    assert(stands(d, 0, f.text()));
    lemma_factor(d, 0, f, vars);
    assert(after_blanks(d, n) == n);
    if let Some(v) = f.value(vars) {
        assert(arith_product(d, n, vars, v) == Some((v, n)));
        assert(arith_sum(d, n, vars, v) == Some((v, n)));
    }
    let zero = digits(0);
    let e = f.text() + seq![' '] + zero;
    assert(stands(e, 0, f.text()));
    lemma_factor(e, 0, f, vars);
    assert(e[n] == ' ');
    assert(e[n + 1] == zero[0]);
    assert(after_blanks(e, n + 1) == n + 1);
    assert(after_blanks(e, n) == n + 1);
    if let Some(v) = f.value(vars) {
        assert(arith_product(e, n, vars, v) == Some((v, n)));
        assert(arith_sum(e, n, vars, v) == Some((v, n)));
    }
    let none = Seq::<char>::empty();
    assert(arith_factor(none, 0, vars) is None);
}

} // verus!
