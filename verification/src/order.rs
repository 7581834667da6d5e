//! Alphabetical order of texts, and sorting.

use vstd::prelude::*;

use crate::text::{chars_of, texts};

verus! {

/// Alphabetical order by character code: a proper prefix comes first.
pub open spec fn text_lt(a: Seq<char>, b: Seq<char>) -> bool
    decreases a.len(),
{
    if b.len() == 0 {
        false
    } else if a.len() == 0 {
        true
    } else if a[0] != b[0] {
        a[0] < b[0]
    } else {
        text_lt(a.skip(1), b.skip(1))
    }
}

/// No text comes before an earlier one.
pub open spec fn in_order(s: Seq<Seq<char>>) -> bool {
    forall|i: int, j: int| 0 <= i < j < s.len() ==> !text_lt(#[trigger] s[j], #[trigger] s[i])
}

/// Every text comes after all earlier ones.
pub open spec fn strictly_in_order(s: Seq<Seq<char>>) -> bool {
    forall|i: int, j: int| 0 <= i < j < s.len() ==> text_lt(#[trigger] s[i], #[trigger] s[j])
}

pub proof fn lemma_lt_irreflexive(a: Seq<char>)
    ensures
        !text_lt(a, a),
    decreases a.len(),
{
    if a.len() > 0 {
        lemma_lt_irreflexive(a.skip(1));
    }
}

pub proof fn lemma_lt_transitive(a: Seq<char>, b: Seq<char>, c: Seq<char>)
    requires
        text_lt(a, b),
        text_lt(b, c),
    ensures
        text_lt(a, c),
    decreases a.len(),
{
    if a.len() > 0 && b.len() > 0 && c.len() > 0 && a[0] == b[0] && b[0] == c[0] {
        lemma_lt_transitive(a.skip(1), b.skip(1), c.skip(1));
    }
}

pub proof fn lemma_lt_total(a: Seq<char>, b: Seq<char>)
    ensures
        text_lt(a, b) || text_lt(b, a) || a == b,
    decreases a.len(),
{
    if a.len() > 0 && b.len() > 0 && a[0] == b[0] {
        lemma_lt_total(a.skip(1), b.skip(1));
        if a.skip(1) == b.skip(1) {
            assert(a =~= seq![a[0]] + a.skip(1));
            assert(b =~= seq![b[0]] + b.skip(1));
        }
    } else if a.len() == 0 && b.len() == 0 {
        assert(a =~= b);
    }
}

/// Whether `a` comes before `b`.
pub fn text_before(a: &str, b: &str) -> (r: bool)
    ensures
        r == text_lt(a@, b@),
{
    let x = chars_of(a);
    let y = chars_of(b);
    let mut i: usize = 0;
    proof {
        assert(x@.skip(0) =~= x@);
        assert(y@.skip(0) =~= y@);
    }
    while i < x.len() && i < y.len()
        invariant
            x@ == a@,
            y@ == b@,
            i <= x@.len(),
            i <= y@.len(),
            text_lt(x@, y@) == text_lt(x@.skip(i as int), y@.skip(i as int)),
        decreases x.len() - i,
    {
        let cx: char = x[i];
        let cy: char = y[i];
        if cx != cy {
            return cx < cy;
        }
        proof {
            assert(x@.skip(i as int).skip(1) =~= x@.skip(i + 1));
            assert(y@.skip(i as int).skip(1) =~= y@.skip(i + 1));
        }
        i += 1;
    }
    i < y.len()
}

/// `s` with `t` put in its place: before the texts at the end that are
/// greater.
pub open spec fn inserted(s: Seq<Seq<char>>, t: Seq<char>) -> Seq<Seq<char>>
    decreases s.len(),
{
    if s.len() > 0 && text_lt(t, s.last()) {
        inserted(s.drop_last(), t).push(s.last())
    } else {
        s.push(t)
    }
}

/// The texts of `s` in alphabetical order.
pub open spec fn sorted(s: Seq<Seq<char>>) -> Seq<Seq<char>>
    decreases s.len(),
{
    if s.len() == 0 {
        Seq::empty()
    } else {
        inserted(sorted(s.drop_last()), s.last())
    }
}

/// Put `item` in its place among texts that are in order.
fn insert_in_order(v: &mut Vec<String>, item: String)
    requires
        in_order(texts(old(v)@)),
    ensures
        in_order(texts(final(v)@)),
        texts(final(v)@).to_multiset() == texts(old(v)@).to_multiset().insert(item@),
        texts(final(v)@) == inserted(texts(old(v)@), item@),
{
    let mut k: usize = v.len();
    let ghost all = texts(v@);
    proof {
        assert(all.take(all.len() as int) =~= all);
        assert(inserted(all, item@) + all.skip(all.len() as int) =~= inserted(all, item@));
    }
    while k > 0 && text_before(item.as_str(), v[k - 1].as_str())
        invariant
            k <= v@.len(),
            v@ == old(v)@,
            all == texts(v@),
            in_order(texts(v@)),
            forall|j: int| k <= j < v@.len() ==> text_lt(item@, #[trigger] texts(v@)[j]),
            inserted(all, item@) == inserted(all.take(k as int), item@) + all.skip(k as int),
        decreases k,
    {
        proof {
            let head = all.take(k as int);
            assert(head.drop_last() =~= all.take(k - 1));
            assert(inserted(head.drop_last(), item@).push(head.last()) + all.skip(k as int)
                =~= inserted(all.take(k - 1), item@) + all.skip(k - 1));
        }
        k -= 1;
    }
    let ghost before = texts(v@);
    let ghost text = item@;
    v.insert(k, item);
    proof {
        let after = texts(v@);
        assert(after =~= before.insert(k as int, text));
        assert(after =~= before.take(k as int).push(text) + before.skip(k as int));
        vstd::seq_lib::to_multiset_insert(before, k as int, text);
        assert forall|i: int, j: int| 0 <= i < j < after.len() implies !text_lt(
            #[trigger] after[j],
            #[trigger] after[i],
        ) by {
            let bi: int = if i < k { i } else { i - 1 };
            let bj: int = if j < k { j } else { j - 1 };
            if i == k {
                if text_lt(after[j], text) {
                    assert(after[j] == before[bj]);
                    lemma_lt_transitive(text, before[bj], text);
                    lemma_lt_irreflexive(text);
                }
            } else if j == k {
                if text_lt(text, after[i]) {
                    assert(after[i] == before[i]);
                    // before[i] is not after before[k - 1], which is not after `text`
                    lemma_lt_total(before[i], before[k - 1]);
                    if text_lt(before[i], before[k - 1]) {
                        lemma_lt_transitive(text, before[i], before[k - 1]);
                    }
                    if i < k - 1 {
                        assert(!text_lt(before[k - 1], before[i]));
                    }
                    assert(text_lt(text, before[k - 1]));
                    assert(false);
                }
            } else {
                assert(after[i] == before[bi]);
                assert(after[j] == before[bj]);
                assert(!text_lt(before[bj], before[bi]));
            }
        }
    }
}

/// The texts of `v` in alphabetical order.
pub fn sort_texts(v: Vec<String>) -> (r: Vec<String>)
    ensures
        texts(r@) == sorted(texts(v@)),
        in_order(texts(r@)),
        texts(r@).to_multiset() == texts(v@).to_multiset(),
{
    let mut out: Vec<String> = Vec::new();
    let mut i: usize = 0;
    proof {
        assert(texts(out@) =~= Seq::empty());
        assert(texts(v@).take(0) =~= Seq::empty());
    }
    while i < v.len()
        invariant
            i <= v@.len(),
            in_order(texts(out@)),
            texts(out@).to_multiset() == texts(v@).take(i as int).to_multiset(),
            texts(out@) == sorted(texts(v@).take(i as int)),
        decreases v.len() - i,
    {
        insert_in_order(&mut out, v[i].clone());
        proof {
            assert(texts(v@).take(i + 1) =~= texts(v@).take(i as int).push(v@[i as int]@));
            assert(texts(v@).take(i + 1).drop_last() =~= texts(v@).take(i as int));
            vstd::seq_lib::to_multiset_build(texts(v@).take(i as int), v@[i as int]@);
        }
        i += 1;
    }
    proof {
        assert(texts(v@).take(v@.len() as int) =~= texts(v@));
    }
    out
}

/// Add `item` to texts that are strictly in order, unless it is there.
pub fn insert_once(v: &mut Vec<String>, item: &String)
    requires
        strictly_in_order(texts(old(v)@)),
    ensures
        strictly_in_order(texts(final(v)@)),
        forall|t: Seq<char>| #[trigger]
            texts(final(v)@).contains(t) <==> texts(old(v)@).contains(t) || t == item@,
{
    let ghost before = texts(v@);
    let ghost text = item@;
    let mut k: usize = v.len();
    while k > 0 && text_before(item.as_str(), v[k - 1].as_str())
        invariant
            k <= v@.len(),
            v@ == old(v)@,
            text == item@,
            before == texts(v@),
            strictly_in_order(before),
            forall|j: int| k <= j < v@.len() ==> text_lt(text, #[trigger] before[j]),
        decreases k,
    {
        k -= 1;
    }
    if k > 0 && *item == v[k - 1] {
        proof {
            assert(before[k - 1] == text);
        }
        return;
    }
    v.insert(k, item.clone());
    proof {
        let after = texts(v@);
        assert(after =~= before.insert(k as int, text));
        assert(after =~= before.take(k as int).push(text) + before.skip(k as int));
        if k > 0 {
            lemma_lt_total(before[k - 1], text);
            assert(text_lt(before[k - 1], text));
        }
        assert forall|i: int, j: int| 0 <= i < j < after.len() implies text_lt(
            #[trigger] after[i],
            #[trigger] after[j],
        ) by {
            let bi: int = if i < k { i } else { i - 1 };
            let bj: int = if j < k { j } else { j - 1 };
            if i == k {
                assert(after[j] == before[bj]);
            } else if j == k {
                assert(after[i] == before[i]);
                if i < k - 1 {
                    lemma_lt_transitive(before[i], before[k - 1], text);
                }
            } else {
                assert(after[i] == before[bi]);
                assert(after[j] == before[bj]);
            }
        }
        assert forall|t: Seq<char>| #[trigger] after.contains(t) <==> before.contains(t) || t
            == text by {
            if before.contains(t) {
                let i = choose|i: int| 0 <= i < before.len() && before[i] == t;
                let ai: int = if i < k { i } else { i + 1 };
                assert(after[ai] == t);
            }
            if t == text {
                assert(after[k as int] == t);
            }
            if after.contains(t) {
                let i = choose|i: int| 0 <= i < after.len() && after[i] == t;
                if i < k {
                    assert(before[i] == t);
                } else if i > k {
                    assert(before[i - 1] == t);
                }
            }
        }
    }
}

/// Lists in strict order with the same entries are equal.
pub proof fn lemma_strict_order_unique(a: Seq<Seq<char>>, b: Seq<Seq<char>>)
    requires
        strictly_in_order(a),
        strictly_in_order(b),
        forall|t: Seq<char>| a.contains(t) <==> b.contains(t),
    ensures
        a == b,
    decreases a.len(),
{
    if a.len() == 0 {
        if b.len() > 0 {
            assert(b.contains(b[0]));
            assert(a.contains(b[0]));
        }
        assert(a =~= b);
    } else {
        assert(a.contains(a[0]));
        assert(b.contains(a[0]));
        let m = choose|m: int| 0 <= m < b.len() && b[m] == a[0];
        assert(b.contains(b[0]));
        assert(a.contains(b[0]));
        let n = choose|n: int| 0 <= n < a.len() && a[n] == b[0];
        if m > 0 && n > 0 {
            assert(text_lt(b[0], b[m]));
            assert(text_lt(a[0], a[n]));
            lemma_lt_transitive(a[0], b[0], a[0]);
            lemma_lt_irreflexive(a[0]);
        }
        assert(a[0] == b[0]);
        let x = a.skip(1);
        let y = b.skip(1);
        assert forall|t: Seq<char>| x.contains(t) <==> y.contains(t) by {
            lemma_lt_irreflexive(t);
            if x.contains(t) {
                let k = choose|k: int| 0 <= k < x.len() && x[k] == t;
                assert(a[k + 1] == t);
                assert(a.contains(t));
                assert(text_lt(a[0], a[k + 1]));
                let j = choose|j: int| 0 <= j < b.len() && b[j] == t;
                assert(y[j - 1] == t);
            }
            if y.contains(t) {
                let k = choose|k: int| 0 <= k < y.len() && y[k] == t;
                assert(b[k + 1] == t);
                assert(b.contains(t));
                assert(text_lt(b[0], b[k + 1]));
                let j = choose|j: int| 0 <= j < a.len() && a[j] == t;
                assert(x[j - 1] == t);
            }
        }
        lemma_strict_order_unique(x, y);
        assert(a =~= seq![a[0]] + x);
        assert(b =~= seq![b[0]] + y);
    }
}

/// The texts of a sorted list are those of the list, in alphabetical order.
pub proof fn law_sorted(s: Seq<Seq<char>>)
    ensures
        in_order(sorted(s)),
        sorted(s).to_multiset() == s.to_multiset(),
    decreases s.len(),
{
    if s.len() > 0 {
        let head = s.drop_last();
        law_sorted(head);
        lemma_inserted(sorted(head), s.last());
        assert(head.push(s.last()) =~= s);
        vstd::seq_lib::to_multiset_build(head, s.last());
    } else {
        assert(s =~= Seq::empty());
    }
}

proof fn lemma_inserted(s: Seq<Seq<char>>, t: Seq<char>)
    requires
        in_order(s),
    ensures
        in_order(inserted(s, t)),
        inserted(s, t).to_multiset() == s.to_multiset().insert(t),
        forall|k: int| 0 <= k < inserted(s, t).len() ==> (#[trigger] inserted(s, t)[k] == t
            || s.contains(inserted(s, t)[k])),
    decreases s.len(),
{
    let out = inserted(s, t);
    vstd::seq_lib::to_multiset_build(s, t);
    if s.len() > 0 && text_lt(t, s.last()) {
        let head = s.drop_last();
        let inner = inserted(head, t);
        lemma_inserted(head, t);
        assert(head.push(s.last()) =~= s);
        vstd::seq_lib::to_multiset_build(head, s.last());
        vstd::seq_lib::to_multiset_build(inner, s.last());
        assert(head.to_multiset().insert(t).insert(s.last()) =~= head.to_multiset().insert(
            s.last(),
        ).insert(t));
        assert forall|i: int, j: int| 0 <= i < j < out.len() implies !text_lt(
            #[trigger] out[j],
            #[trigger] out[i],
        ) by {
            if j < inner.len() {
                assert(out[j] == inner[j] && out[i] == inner[i]);
            } else {
                assert(out[i] == inner[i]);
                if text_lt(s.last(), inner[i]) {
                    if inner[i] == t {
                        lemma_lt_transitive(t, s.last(), t);
                        lemma_lt_irreflexive(t);
                    } else {
                        let m = choose|m: int| 0 <= m < head.len() && head[m] == inner[i];
                        assert(s[m] == inner[i]);
                        assert(!text_lt(s[s.len() - 1], s[m]));
                    }
                }
            }
        }
        assert forall|k: int| 0 <= k < out.len() implies (#[trigger] out[k] == t || s.contains(
            out[k],
        )) by {
            if k < inner.len() {
                assert(out[k] == inner[k]);
                if inner[k] != t {
                    let m = choose|m: int| 0 <= m < head.len() && head[m] == inner[k];
                    assert(s[m] == inner[k]);
                }
            } else {
                assert(s[s.len() - 1] == out[k]);
            }
        }
    } else {
        assert(out == s.push(t));
        assert forall|i: int, j: int| 0 <= i < j < out.len() implies !text_lt(
            #[trigger] out[j],
            #[trigger] out[i],
        ) by {
            if j < s.len() {
                assert(out[j] == s[j] && out[i] == s[i]);
            } else {
                assert(out[i] == s[i]);
                if text_lt(t, s[i]) {
                    lemma_lt_total(s[i], s.last());
                    if text_lt(s[i], s.last()) {
                        lemma_lt_transitive(t, s[i], s.last());
                    } else if i < s.len() - 1 {
                        assert(!text_lt(s[s.len() - 1], s[i]));
                    }
                }
            }
        }
        assert forall|k: int| 0 <= k < out.len() implies (#[trigger] out[k] == t || s.contains(
            out[k],
        )) by {
            if k < s.len() {
                assert(s[k] == out[k]);
            }
        }
    }
}

/// Sorting keeps the number of texts.
pub proof fn lemma_sorted_len(s: Seq<Seq<char>>)
    ensures
        sorted(s).len() == s.len(),
    decreases s.len(),
{
    if s.len() > 0 {
        lemma_sorted_len(s.drop_last());
        lemma_inserted_len(sorted(s.drop_last()), s.last());
    }
}

proof fn lemma_inserted_len(s: Seq<Seq<char>>, t: Seq<char>)
    ensures
        inserted(s, t).len() == s.len() + 1,
    decreases s.len(),
{
    if s.len() > 0 && text_lt(t, s.last()) {
        lemma_inserted_len(s.drop_last(), t);
    }
}

/// The first characters that differ decide, the smaller code first; where there
/// are none the shorter text comes first.
pub proof fn law_first_difference_decides(common: Seq<char>, a: Seq<char>, b: Seq<char>)
    requires
        a.len() > 0 && b.len() > 0 ==> a[0] != b[0],
    ensures
        text_lt(common + a, common + b) <==> b.len() > 0 && (a.len() == 0 || (a[0] as int) < (
        b[0] as int)),
    decreases common.len(),
{
    let x = common + a;
    let y = common + b;
    if common.len() == 0 {
        assert(x =~= a);
        assert(y =~= b);
    } else {
        assert(x[0] == common[0] && y[0] == common[0]);
        assert(x.skip(1) =~= common.skip(1) + a);
        assert(y.skip(1) =~= common.skip(1) + b);
        law_first_difference_decides(common.skip(1), a, b);
    }
}

} // verus!
