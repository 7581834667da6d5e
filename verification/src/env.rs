//! The shell's variables.

use vstd::prelude::*;

use crate::order::{
    lemma_lt_irreflexive, lemma_lt_total, lemma_lt_transitive, strictly_in_order, text_before,
    text_lt,
};
use crate::text::same_text;

verus! {

/// The names of a list of entries.
pub open spec fn entry_names(v: Seq<(String, String)>) -> Seq<Seq<char>> {
    Seq::new(v.len(), |i: int| v[i].0@)
}

/// The entry at `i` is that of the variable `name`.
pub open spec fn holds(v: Seq<(String, String)>, i: int, name: Seq<char>) -> bool {
    0 <= i < v.len() && v[i].0@ == name
}

/// The variables that a list of entries with distinct names defines.
pub open spec fn entry_map(v: Seq<(String, String)>) -> Map<Seq<char>, Seq<char>> {
    Map::new(
        |name: Seq<char>| exists|i: int| holds(v, i, name),
        |name: Seq<char>| v[choose|i: int| holds(v, i, name)].1@,
    )
}

/// Variables by name. The entries are kept in the order of their names, each
/// name once.
pub struct Env {
    entries: Vec<(String, String)>,
}

impl View for Env {
    type V = Map<Seq<char>, Seq<char>>;

    closed spec fn view(&self) -> Map<Seq<char>, Seq<char>> {
        entry_map(self.entries@)
    }
}

proof fn lemma_entry(v: Seq<(String, String)>, i: int)
    requires
        strictly_in_order(entry_names(v)),
        0 <= i < v.len(),
    ensures
        entry_map(v).contains_key(v[i].0@),
        entry_map(v)[v[i].0@] == v[i].1@,
{
    let name = v[i].0@;
    assert(holds(v, i, name));
    let j = choose|j: int| holds(v, j, name);
    if j != i {
        lemma_lt_irreflexive(name);
        assert(entry_names(v)[i] == name);
        assert(entry_names(v)[j] == name);
        if i < j {
            assert(text_lt(entry_names(v)[i], entry_names(v)[j]));
        } else {
            assert(text_lt(entry_names(v)[j], entry_names(v)[i]));
        }
    }
}

proof fn lemma_no_entry(v: Seq<(String, String)>, name: Seq<char>)
    requires
        forall|i: int| 0 <= i < v.len() ==> (#[trigger] v[i]).0@ != name,
    ensures
        !entry_map(v).contains_key(name),
{
    if exists|i: int| holds(v, i, name) {
        let i = choose|i: int| holds(v, i, name);
        assert(v[i].0@ == name);
    }
}

proof fn lemma_has_entry(v: Seq<(String, String)>, name: Seq<char>) -> (i: int)
    requires
        entry_map(v).contains_key(name),
    ensures
        0 <= i < v.len(),
        v[i].0@ == name,
{
    choose|i: int| holds(v, i, name)
}

impl Env {
    #[verifier::type_invariant]
    closed spec fn sorted(self) -> bool {
        strictly_in_order(entry_names(self.entries@))
    }

    /// No variables.
    pub fn new() -> (r: Env)
        ensures
            r@ == Map::<Seq<char>, Seq<char>>::empty(),
    {
        let r = Env { entries: Vec::new() };
        proof {
            assert forall|name: Seq<char>| !(#[trigger] r@.contains_key(name)) by {
                lemma_no_entry(r.entries@, name);
            }
            assert(r@ =~= Map::<Seq<char>, Seq<char>>::empty());
        }
        r
    }

    /// Where `name` stands, or where it would have to be inserted.
    fn search(&self, name: &str) -> (r: (bool, usize))
        ensures
            r.1 <= self.entries@.len(),
            r.0 == self@.contains_key(name@),
            r.0 ==> r.1 < self.entries@.len() && self.entries@[r.1 as int].0@ == name@,
            !r.0 ==> forall|j: int| r.1 <= j < self.entries@.len() ==> text_lt(name@, #[trigger] entry_names(self.entries@)[j]),
            forall|j: int| 0 <= j < r.1 ==> text_lt(#[trigger] entry_names(self.entries@)[j], name@),
    {
        proof {
            use_type_invariant(self);
        }
        let ghost names = entry_names(self.entries@);
        let mut i: usize = 0;
        while i < self.entries.len() && text_before(self.entries[i].0.as_str(), name)
            invariant
                i <= self.entries@.len(),
                names == entry_names(self.entries@),
                forall|j: int| 0 <= j < i ==> text_lt(#[trigger] names[j], name@),
            decreases self.entries.len() - i,
        {
            i += 1;
        }
        if i < self.entries.len() && same_text(self.entries[i].0.as_str(), name) {
            proof {
                lemma_entry(self.entries@, i as int);
            }
            return (true, i);
        }
        proof {
            assert forall|j: int| i <= j < names.len() implies text_lt(
                name@,
                #[trigger] names[j],
            ) by {
                assert(names[i as int] == self.entries@[i as int].0@);
                lemma_lt_total(names[i as int], name@);
                if j > i {
                    lemma_lt_transitive(name@, names[i as int], names[j]);
                }
            }
            assert forall|j: int| 0 <= j < self.entries@.len() implies (
            #[trigger] self.entries@[j]).0@ != name@ by {
                assert(names[j] == self.entries@[j].0@);
                lemma_lt_irreflexive(name@);
            }
            lemma_no_entry(self.entries@, name@);
        }
        (false, i)
    }

    /// The value of a variable.
    pub fn get(&self, name: &str) -> (r: Option<String>)
        ensures
            match r {
                Some(value) => self@.contains_key(name@) && value@ == self@[name@],
                None => !self@.contains_key(name@),
            },
    {
        proof {
            use_type_invariant(self);
        }
        let (found, i) = self.search(name);
        if found {
            proof {
                lemma_entry(self.entries@, i as int);
            }
            Some(self.entries[i].1.clone())
        } else {
            None
        }
    }

    /// Whether a variable is set.
    pub fn contains_key(&self, name: &str) -> (r: bool)
        ensures
            r == self@.contains_key(name@),
    {
        self.search(name).0
    }

    /// The entries, taken out to be changed.
    fn take_entries(&mut self) -> (r: Vec<(String, String)>)
        ensures
            r == old(self).entries,
    {
        let mut taken = Env::new();
        std::mem::swap(self, &mut taken);
        taken.entries
    }

    /// Set a variable.
    pub fn insert(&mut self, name: String, value: String)
        ensures
            final(self)@ == old(self)@.insert(name@, value@),
    {
        proof {
            use_type_invariant(&*self);
        }
        let (found, i) = self.search(name.as_str());
        let ghost before = self.entries@;
        let ghost key = name@;
        let mut entries = self.take_entries();
        let ghost text = value@;
        if found {
            proof {
                let after = before.update(i as int, (name, value));
                assert(entry_names(after) =~= entry_names(before));
            }
            entries.set(i, (name, value));
            *self = Env { entries };
        } else {
            proof {
                let after = before.insert(i as int, (name, value));
                let names = entry_names(before);
                assert(entry_names(after) =~= names.insert(i as int, key));
                assert forall|a: int, b: int| 0 <= a < b < after.len() implies text_lt(
                    #[trigger] entry_names(after)[a],
                    #[trigger] entry_names(after)[b],
                ) by {
                    let na: int = if a < i { a } else { a - 1 };
                    let nb: int = if b < i { b } else { b - 1 };
                    if a == i {
                        assert(entry_names(after)[b] == names[nb]);
                    } else if b == i {
                        assert(entry_names(after)[a] == names[a]);
                    } else {
                        assert(entry_names(after)[a] == names[na]);
                        assert(entry_names(after)[b] == names[nb]);
                    }
                }
            }
            entries.insert(i, (name, value));
            *self = Env { entries };
        }
        proof {
            let after = self.entries@;
            let m = old(self)@.insert(key, text);
            lemma_entry(after, i as int);
            assert forall|k: Seq<char>| #[trigger] entry_map(after).contains_key(k) == m.contains_key(
                k,
            ) && (m.contains_key(k) ==> entry_map(after)[k] == m[k]) by {
                if k != key {
                    if m.contains_key(k) {
                        let j = lemma_has_entry(before, k);
                        lemma_entry(before, j);
                        let j2: int = if found || j < i { j } else { j + 1 };
                        assert(after[j2] == before[j]);
                        lemma_entry(after, j2);
                    } else if entry_map(after).contains_key(k) {
                        let j = lemma_has_entry(after, k);
                        let j2: int = if found || j < i { j } else { j - 1 };
                        assert(after[j] == before[j2]);
                        lemma_entry(before, j2);
                    }
                }
            }
            assert(self@ =~= m);
        }
    }

    /// Unset a variable.
    pub fn remove(&mut self, name: &str)
        ensures
            final(self)@ == old(self)@.remove(name@),
    {
        proof {
            use_type_invariant(&*self);
        }
        let (found, i) = self.search(name);
        let ghost before = self.entries@;
        let ghost key = name@;
        let mut entries = self.take_entries();
        if found {
            proof {
                let after = before.remove(i as int);
                let names = entry_names(before);
                assert forall|a: int, b: int| 0 <= a < b < after.len() implies text_lt(
                    #[trigger] entry_names(after)[a],
                    #[trigger] entry_names(after)[b],
                ) by {
                    let na: int = if a < i { a } else { a + 1 };
                    let nb: int = if b < i { b } else { b + 1 };
                    assert(entry_names(after)[a] == names[na]);
                    assert(entry_names(after)[b] == names[nb]);
                }
            }
            entries.remove(i);
            *self = Env { entries };
            proof {
                let after = self.entries@;
                let m = old(self)@.remove(key);
                lemma_entry(before, i as int);
                assert forall|k: Seq<char>| #[trigger]
                    entry_map(after).contains_key(k) == m.contains_key(k) && (m.contains_key(k)
                        ==> entry_map(after)[k] == m[k]) by {
                    if m.contains_key(k) {
                        let j = lemma_has_entry(before, k);
                        lemma_entry(before, j);
                        let j2: int = if j < i { j } else { j - 1 };
                        assert(after[j2] == before[j]);
                        lemma_entry(after, j2);
                    } else if entry_map(after).contains_key(k) {
                        let j = lemma_has_entry(after, k);
                        let j2: int = if j < i { j } else { j + 1 };
                        assert(after[j] == before[j2]);
                        lemma_entry(before, j2);
                        if k == key {
                            assert(entry_names(before)[j2] == key);
                            assert(entry_names(before)[i as int] == key);
                            lemma_lt_irreflexive(key);
                        }
                    }
                }
                assert(self@ =~= m);
            }
        } else {
            *self = Env { entries };
            proof {
                assert(self@ =~= old(self)@.remove(key));
            }
        }
    }

    /// The variables in the order of their names, each once.
    pub fn entries(&self) -> (r: &Vec<(String, String)>)
        ensures
            strictly_in_order(entry_names(r@)),
            entry_map(r@) == self@,
    {
        proof {
            use_type_invariant(self);
        }
        &self.entries
    }

    /// The variables of a list of pairs; a later pair wins over an earlier one
    /// with the same name.
    pub fn from_pairs(pairs: Vec<(String, String)>) -> (r: Env)
        ensures
            r@ == defined_by(pairs@),
    {
        let mut env = Env::new();
        let mut i: usize = 0;
        while i < pairs.len()
            invariant
                i <= pairs@.len(),
                env@ == defined_by(pairs@.take(i as int)),
            decreases pairs.len() - i,
        {
            env.insert(pairs[i].0.clone(), pairs[i].1.clone());
            proof {
                assert(pairs@.take(i + 1).drop_last() =~= pairs@.take(i as int));
            }
            i += 1;
        }
        proof {
            assert(pairs@.take(pairs@.len() as int) =~= pairs@);
        }
        env
    }
}

/// What a list of pairs defines when each is set in turn.
pub open spec fn defined_by(pairs: Seq<(String, String)>) -> Map<Seq<char>, Seq<char>>
    decreases pairs.len(),
{
    if pairs.len() == 0 {
        Map::empty()
    } else {
        defined_by(pairs.drop_last()).insert(pairs.last().0@, pairs.last().1@)
    }
}

/// A later definition of a variable takes the place of an earlier one.
pub proof fn law_later_definitions_win(pairs: Seq<(String, String)>, pair: (String, String))
    ensures
        defined_by(pairs.push(pair)) == defined_by(pairs).insert(pair.0@, pair.1@),
        defined_by(Seq::empty()) == Map::<Seq<char>, Seq<char>>::empty(),
{
    assert(pairs.push(pair).drop_last() =~= pairs);
}

} // verus!
