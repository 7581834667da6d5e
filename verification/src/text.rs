//! Characters and strings: the small vocabulary the other modules are
//! written in.

use vstd::prelude::*;
use vstd::utf8::{encode_scalar, encode_utf8};

verus! {

/// `String::push`: appends one character.
pub assume_specification[ String::push ](s: &mut String, c: char)
    ensures
        final(s)@ == old(s)@.push(c),
;

/// Characters with the Unicode `White_Space` property.
pub open spec fn is_white_space(c: char) -> bool {
    ||| '\u{9}' <= c <= '\u{d}'
    ||| c == ' '
    ||| c == '\u{85}'
    ||| c == '\u{a0}'
    ||| c == '\u{1680}'
    ||| '\u{2000}' <= c <= '\u{200a}'
    ||| c == '\u{2028}'
    ||| c == '\u{2029}'
    ||| c == '\u{202f}'
    ||| c == '\u{205f}'
    ||| c == '\u{3000}'
}

/// Whether `c` has the Unicode `White_Space` property.
pub fn is_whitespace(c: char) -> (r: bool)
    ensures
        r == is_white_space(c),
{
    ('\u{9}' <= c && c <= '\u{d}') || c == ' ' || c == '\u{85}' || c == '\u{a0}' || c == '\u{1680}'
        || ('\u{2000}' <= c && c <= '\u{200a}') || c == '\u{2028}' || c == '\u{2029}' || c
        == '\u{202f}' || c == '\u{205f}' || c == '\u{3000}'
}

/// `0`-`9`.
pub open spec fn is_digit_char(c: char) -> bool {
    '0' <= c <= '9'
}

/// `A`-`Z` or `a`-`z`.
pub open spec fn is_letter_char(c: char) -> bool {
    'A' <= c <= 'Z' || 'a' <= c <= 'z'
}

/// A character of an identifier: an ASCII letter, an ASCII digit or `_`.
pub open spec fn is_name_char(c: char) -> bool {
    is_letter_char(c) || is_digit_char(c) || c == '_'
}

pub fn is_digit(c: char) -> (r: bool)
    ensures
        r == is_digit_char(c),
{
    '0' <= c && c <= '9'
}

pub fn is_letter(c: char) -> (r: bool)
    ensures
        r == is_letter_char(c),
{
    ('A' <= c && c <= 'Z') || ('a' <= c && c <= 'z')
}

pub fn is_name_part(c: char) -> (r: bool)
    ensures
        r == is_name_char(c),
{
    is_letter(c) || is_digit(c) || c == '_'
}

/// The texts of a list of strings.
pub open spec fn texts(v: Seq<String>) -> Seq<Seq<char>> {
    Seq::new(v.len(), |i: int| v[i]@)
}

/// The characters of a string, in order.
pub fn chars_of(s: &str) -> (r: Vec<char>)
    ensures
        r@ == s@,
{
    let mut out: Vec<char> = Vec::new();
    for c in it: s.chars()
        invariant
            it.seq() == s@,
            out@ == s@.take(it.index()),
    {
        out.push(c);
        proof {
            assert(s@.take(it.index() + 1) =~= s@.take(it.index()).push(s@[it.index()]));
        }
    }
    proof {
        assert(s@.take(s@.len() as int) =~= s@);
    }
    out
}

/// The string made of `chars[from..to]`.
pub fn string_of(chars: &[char], from: usize, to: usize) -> (r: String)
    requires
        from <= to <= chars@.len(),
    ensures
        r@ == chars@.subrange(from as int, to as int),
{
    let mut out = String::new();
    let mut i: usize = from;
    while i < to
        invariant
            from <= i <= to <= chars@.len(),
            out@ == chars@.subrange(from as int, i as int),
        decreases to - i,
    {
        out.push(chars[i]);
        proof {
            assert(chars@.subrange(from as int, i + 1) =~= chars@.subrange(from as int, i as int).push(
                chars@[i as int],
            ));
        }
        i += 1;
    }
    out
}

/// The string made of all of `chars`.
pub fn string_from(chars: &[char]) -> (r: String)
    ensures
        r@ == chars@,
{
    proof {
        assert(chars@.subrange(0, chars@.len() as int) =~= chars@);
    }
    string_of(chars, 0, chars.len())
}

/// Whether two character slices are equal.
pub fn same_chars(a: &[char], b: &[char]) -> (r: bool)
    ensures
        r == (a@ == b@),
{
    if a.len() != b.len() {
        return false;
    }
    let mut i: usize = 0;
    while i < a.len()
        invariant
            i <= a@.len(),
            a@.len() == b@.len(),
            forall|k: int| 0 <= k < i ==> a@[k] == b@[k],
        decreases a.len() - i,
    {
        if a[i] != b[i] {
            return false;
        }
        i += 1;
    }
    proof {
        assert(a@ =~= b@);
    }
    true
}

/// Whether two strings are equal.
pub fn same_text(a: &str, b: &str) -> (r: bool)
    ensures
        r == (a@ == b@),
{
    let x = chars_of(a);
    let y = chars_of(b);
    same_chars(x.as_slice(), y.as_slice())
}

/// Whether `chars` begins with `prefix`.
pub fn has_prefix(chars: &[char], prefix: &[char]) -> (r: bool)
    ensures
        r == prefix@.is_prefix_of(chars@),
{
    if prefix.len() > chars.len() {
        return false;
    }
    let mut i: usize = 0;
    while i < prefix.len()
        invariant
            i <= prefix@.len() <= chars@.len(),
            forall|k: int| 0 <= k < i ==> chars@[k] == prefix@[k],
        decreases prefix.len() - i,
    {
        if chars[i] != prefix[i] {
            proof {
                assert(chars@.subrange(0, prefix@.len() as int)[i as int] != prefix@[i as int]);
            }
            return false;
        }
        i += 1;
    }
    proof {
        assert(prefix@ =~= chars@.subrange(0, prefix@.len() as int));
    }
    true
}

/// Whether `chars` holds `c`.
pub fn has_char(chars: &[char], c: char) -> (r: bool)
    ensures
        r == chars@.contains(c),
{
    let mut i: usize = 0;
    while i < chars.len()
        invariant
            i <= chars@.len(),
            forall|k: int| 0 <= k < i ==> chars@[k] != c,
        decreases chars.len() - i,
    {
        if chars[i] == c {
            return true;
        }
        i += 1;
    }
    false
}

/// `s` without its leading white space.
pub open spec fn trim_front(s: Seq<char>) -> Seq<char>
    decreases s.len(),
{
    if s.len() > 0 && is_white_space(s[0]) {
        trim_front(s.skip(1))
    } else {
        s
    }
}

/// `s` without its trailing white space.
pub open spec fn trim_back(s: Seq<char>) -> Seq<char>
    decreases s.len(),
{
    if s.len() > 0 && is_white_space(s.last()) {
        trim_back(s.drop_last())
    } else {
        s
    }
}

/// `s` without white space at either end.
pub open spec fn trimmed(s: Seq<char>) -> Seq<char> {
    trim_back(trim_front(s))
}

/// The string without white space at either end.
pub fn trim_text(s: &str) -> (r: String)
    ensures
        r@ == trimmed(s@),
{
    let chars = chars_of(s);
    let mut from: usize = 0;
    proof {
        assert(chars@.skip(0) =~= chars@);
    }
    while from < chars.len() && is_whitespace(chars[from])
        invariant
            from <= chars@.len(),
            trim_front(chars@) == trim_front(chars@.skip(from as int)),
        decreases chars.len() - from,
    {
        proof {
            assert(chars@.skip(from as int).skip(1) =~= chars@.skip(from + 1));
        }
        from += 1;
    }
    let mut to: usize = chars.len();
    proof {
        assert(chars@.skip(from as int) =~= chars@.subrange(from as int, to as int));
    }
    while to > from && is_whitespace(chars[to - 1])
        invariant
            from <= to <= chars@.len(),
            trim_front(chars@) == chars@.skip(from as int),
            trimmed(chars@) == trim_back(chars@.subrange(from as int, to as int)),
        decreases to,
    {
        proof {
            assert(chars@.subrange(from as int, to as int).drop_last() =~= chars@.subrange(
                from as int,
                to - 1,
            ));
        }
        to -= 1;
    }
    string_of(chars.as_slice(), from, to)
}

/// The length of a text in bytes.
#[verifier::opaque]
pub open spec fn byte_len(text: Seq<char>) -> int {
    encode_utf8(text).len() as int
}

/// The length of a text in bytes.
pub fn text_len(text: &str) -> (r: usize)
    ensures
        r == byte_len(text@),
{
    proof {
        reveal(byte_len);
    }
    text.as_bytes().len()
}

/// A longer beginning of a text has more bytes.
pub proof fn lemma_byte_len_grows(text: Seq<char>, i: int, j: int)
    requires
        0 <= i < j <= text.len(),
    ensures
        byte_len(text.take(i)) < byte_len(text.take(j)),
    decreases i,
{
    reveal(byte_len);
    let rest = text.drop_first();
    assert(text.take(j).drop_first() =~= rest.take(j - 1));
    assert(encode_utf8(text.take(j)) == encode_scalar(text[0] as u32) + encode_utf8(
        rest.take(j - 1),
    ));
    assert(encode_scalar(text[0] as u32).len() > 0);
    if i == 0 {
        assert(encode_utf8(text.take(0)).len() == 0);
    } else {
        assert(text.take(i).drop_first() =~= rest.take(i - 1));
        lemma_byte_len_grows(rest, i - 1, j - 1);
    }
}

/// The texts of `parts` with `sep` between neighbours.
pub open spec fn joined(parts: Seq<Seq<char>>, sep: Seq<char>) -> Seq<char>
    decreases parts.len(),
{
    if parts.len() == 0 {
        Seq::empty()
    } else if parts.len() == 1 {
        parts[0]
    } else {
        joined(parts.drop_last(), sep) + sep + parts.last()
    }
}

/// Join strings with a separator.
pub fn join_texts(parts: &[String], sep: &str) -> (r: String)
    ensures
        r@ == joined(texts(parts@), sep@),
{
    let mut out = String::new();
    let mut i: usize = 0;
    while i < parts.len()
        invariant
            i <= parts@.len(),
            out@ == joined(texts(parts@).take(i as int), sep@),
        decreases parts.len() - i,
    {
        proof {
            let all = texts(parts@);
            assert(all.take(i + 1).drop_last() =~= all.take(i as int));
            assert(all.take(i + 1).last() == parts@[i as int]@);
            if i == 0 {
                assert(out@ + parts@[0]@ =~= parts@[0]@);
            }
        }
        if i > 0 {
            out.append(sep);
        }
        out.append(parts[i].as_str());
        i += 1;
    }
    proof {
        assert(texts(parts@).take(parts@.len() as int) =~= texts(parts@));
    }
    out
}

// ---------------------------------------------------------------------------
// Laws.

/// The codes of the white space characters.
pub open spec fn white_space_codes() -> Seq<int> {
    seq![
        9, 10, 11, 12, 13, 32, 133, 160, 5760, 8192, 8193, 8194, 8195, 8196, 8197, 8198, 8199, 8200,
        8201, 8202, 8232, 8233, 8239, 8287, 12288,
    ]
}

/// Digits, letters, the characters of names and white space by their codes.
pub proof fn law_character_classes(c: char)
    ensures
        is_digit_char(c) <==> 48 <= c as int <= 57,
        is_letter_char(c) <==> (65 <= c as int <= 90 || 97 <= c as int <= 122),
        is_name_char(c) <==> (is_digit_char(c) || is_letter_char(c) || c as int == 95),
        is_white_space(c) <==> white_space_codes().contains(c as int),
{
    let codes = white_space_codes();
    let v = c as int;
    if is_white_space(c) {
        assert(v == codes[0] || v == codes[1] || v == codes[2] || v == codes[3] || v == codes[4]
            || v == codes[5] || v == codes[6] || v == codes[7] || v == codes[8] || v == codes[9]
            || v == codes[10] || v == codes[11] || v == codes[12] || v == codes[13] || v == codes[14]
            || v == codes[15] || v == codes[16] || v == codes[17] || v == codes[18] || v == codes[19]
            || v == codes[20] || v == codes[21] || v == codes[22] || v == codes[23] || v
            == codes[24]);
    }
    if codes.contains(v) {
        let k = choose|k: int| 0 <= k < codes.len() && codes[k] == v;
        assert(codes[k] == codes[0] || codes[k] == codes[1] || codes[k] == codes[2] || codes[k]
            == codes[3] || codes[k] == codes[4] || codes[k] == codes[5] || codes[k] == codes[6]
            || codes[k] == codes[7] || codes[k] == codes[8] || codes[k] == codes[9] || codes[k]
            == codes[10] || codes[k] == codes[11] || codes[k] == codes[12] || codes[k] == codes[13]
            || codes[k] == codes[14] || codes[k] == codes[15] || codes[k] == codes[16] || codes[k]
            == codes[17] || codes[k] == codes[18] || codes[k] == codes[19] || codes[k] == codes[20]
            || codes[k] == codes[21] || codes[k] == codes[22] || codes[k] == codes[23] || codes[k]
            == codes[24]);
    }
}

/// White space only.
pub open spec fn is_blank(s: Seq<char>) -> bool {
    forall|k: int| 0 <= k < s.len() ==> is_white_space(#[trigger] s[k])
}

proof fn lemma_trim_front(before: Seq<char>, text: Seq<char>)
    requires
        is_blank(before),
        text.len() > 0 ==> !is_white_space(text[0]),
    ensures
        trim_front(before + text) == text,
    decreases before.len(),
{
    let s = before + text;
    if before.len() > 0 {
        assert(s[0] == before[0]);
        assert(s.skip(1) =~= before.skip(1) + text);
        assert(is_blank(before.skip(1))) by {
            assert forall|k: int| 0 <= k < before.skip(1).len() implies is_white_space(
                #[trigger] before.skip(1)[k],
            ) by {
                assert(is_white_space(before[k + 1]));
            }
        }
        lemma_trim_front(before.skip(1), text);
    } else {
        assert(s =~= text);
    }
}

proof fn lemma_trim_back(text: Seq<char>, after: Seq<char>)
    requires
        is_blank(after),
        text.len() > 0 ==> !is_white_space(text.last()),
    ensures
        trim_back(text + after) == text,
    decreases after.len(),
{
    let s = text + after;
    if after.len() > 0 {
        assert(s.last() == after.last());
        assert(s.drop_last() =~= text + after.drop_last());
        assert(is_blank(after.drop_last())) by {
            assert forall|k: int| 0 <= k < after.drop_last().len() implies is_white_space(
                #[trigger] after.drop_last()[k],
            ) by {
                assert(is_white_space(after[k]));
            }
        }
        lemma_trim_back(text, after.drop_last());
    } else {
        assert(s =~= text);
    }
}

/// Trimming takes the white space at both ends away, and nothing else.
pub proof fn law_trimming(before: Seq<char>, text: Seq<char>, after: Seq<char>)
    requires
        is_blank(before),
        is_blank(after),
        text.len() > 0 ==> !is_white_space(text[0]) && !is_white_space(text.last()),
    ensures
        trimmed(before + text + after) == text,
{
    let rest = text + after;
    assert(before + text + after =~= before + rest);
    if text.len() > 0 {
        assert(rest[0] == text[0]);
        lemma_trim_front(before, rest);
        lemma_trim_back(text, after);
    } else {
        let all = before + after;
        assert(before + rest =~= all + Seq::<char>::empty());
        assert(is_blank(all)) by {
            assert forall|k: int| 0 <= k < all.len() implies is_white_space(#[trigger] all[k]) by {
                if k < before.len() {
                    assert(all[k] == before[k]);
                } else {
                    assert(all[k] == after[k - before.len()]);
                }
            }
        }
        lemma_trim_front(all, Seq::<char>::empty());
        assert(text =~= Seq::<char>::empty());
    }
}

/// The texts, each with `sep` before it.
pub open spec fn led_by(parts: Seq<Seq<char>>, sep: Seq<char>) -> Seq<char>
    decreases parts.len(),
{
    if parts.len() == 0 {
        Seq::empty()
    } else {
        sep + parts[0] + led_by(parts.skip(1), sep)
    }
}

proof fn lemma_led_by(parts: Seq<Seq<char>>, sep: Seq<char>)
    requires
        parts.len() > 0,
    ensures
        led_by(parts, sep) == led_by(parts.drop_last(), sep) + sep + parts.last(),
    decreases parts.len(),
{
    let init = parts.drop_last();
    if parts.len() == 1 {
        assert(parts.skip(1) =~= Seq::<Seq<char>>::empty());
        assert(led_by(parts.skip(1), sep) =~= Seq::<char>::empty());
        assert(led_by(init, sep) =~= Seq::<char>::empty());
        assert(led_by(parts, sep) =~= Seq::<char>::empty() + sep + parts.last());
    } else {
        lemma_led_by(parts.skip(1), sep);
        assert(parts.skip(1).drop_last() =~= init.skip(1));
        assert(parts.skip(1).last() == parts.last());
        assert(init[0] == parts[0]);
        assert(led_by(parts, sep) =~= sep + parts[0] + led_by(init.skip(1), sep) + sep
            + parts.last());
    }
}

/// Joined texts are the first one, and then each of the others with the
/// separator before it.
pub proof fn law_joining(first: Seq<char>, rest: Seq<Seq<char>>, sep: Seq<char>)
    ensures
        joined(seq![first] + rest, sep) == first + led_by(rest, sep),
        joined(Seq::empty(), sep) == Seq::<char>::empty(),
    decreases rest.len(),
{
    let all = seq![first] + rest;
    if rest.len() == 0 {
        assert(all =~= seq![first]);
        assert(first + led_by(rest, sep) =~= first);
    } else {
        law_joining(first, rest.drop_last(), sep);
        lemma_led_by(rest, sep);
        assert(all.drop_last() =~= seq![first] + rest.drop_last());
        assert(all.last() == rest.last());
        assert(first + led_by(rest.drop_last(), sep) + sep + rest.last() =~= first + led_by(
            rest,
            sep,
        ));
    }
}

} // verus!
