//! A map from text to text that keeps its entries in the order of their first insertion.

use vstd::prelude::*;

use crate::text::str_eq;

verus! {

/// What a run of key and value pairs denotes.
pub open spec fn pairs(v: Seq<(String, String)>) -> Seq<(Seq<char>, Seq<char>)> {
    Seq::new(v.len(), |i: int| (v[i].0@, v[i].1@))
}

/// The first position, from `i` on, that holds `key`; the length when none does.
pub open spec fn position_from(m: Seq<(Seq<char>, Seq<char>)>, key: Seq<char>, i: int) -> int
    decreases m.len() - i,
{
    if i >= m.len() {
        m.len() as int
    } else if m[i].0 == key {
        i
    } else {
        position_from(m, key, i + 1)
    }
}

/// The value under `key`, if there is one.
pub open spec fn lookup(m: Seq<(Seq<char>, Seq<char>)>, key: Seq<char>) -> Option<Seq<char>> {
    let p = position_from(m, key, 0);
    if p < m.len() {
        Some(m[p].1)
    } else {
        None
    }
}

/// The entries after `value` was put under `key`: in the place of the value that was
/// there, or behind the others.
pub open spec fn put(
    m: Seq<(Seq<char>, Seq<char>)>,
    key: Seq<char>,
    value: Seq<char>,
) -> Seq<(Seq<char>, Seq<char>)> {
    let p = position_from(m, key, 0);
    if p < m.len() {
        m.update(p, (key, value))
    } else {
        m.push((key, value))
    }
}

/// Whether no key stands twice.
pub open spec fn distinct_keys(m: Seq<(Seq<char>, Seq<char>)>) -> bool {
    forall|i: int, j: int| 0 <= i < j < m.len() ==> (#[trigger] m[i]).0 != (#[trigger] m[j]).0
}

/// `position_from` is the first position of the key.
pub proof fn lemma_position(m: Seq<(Seq<char>, Seq<char>)>, key: Seq<char>, i: int)
    requires
        0 <= i <= m.len(),
    ensures
        i <= position_from(m, key, i) <= m.len(),
        position_from(m, key, i) < m.len() ==> m[position_from(m, key, i)].0 == key,
        forall|j: int|
            i <= j < position_from(m, key, i) ==> (#[trigger] m[j]).0 != key,
    decreases m.len() - i,
{
    if i < m.len() && m[i].0 != key {
        lemma_position(m, key, i + 1);
    }
}

/// What was put under a key is found under it, and every other key keeps its value.
pub proof fn law_put_then_lookup(
    m: Seq<(Seq<char>, Seq<char>)>,
    key: Seq<char>,
    value: Seq<char>,
    other: Seq<char>,
)
    ensures
        lookup(put(m, key, value), key) == Some(value),
        other != key ==> lookup(put(m, key, value), other) == lookup(m, other),
{
    let n = put(m, key, value);
    lemma_position(m, key, 0);
    lemma_position(n, key, 0);
    lemma_position(m, other, 0);
    lemma_position(n, other, 0);
    let p = position_from(m, key, 0);
    let q = position_from(n, key, 0);
    assert(n[p].0 == key);
    assert(p <= q) by {
        if q < p {
            assert(m[q].0 == n[q].0);
        }
    }
    if other != key {
        let a = position_from(m, other, 0);
        let b = position_from(n, other, 0);
        if a < m.len() {
            assert(n[a].0 == other);
            if b < a {
                assert(m[b].0 == n[b].0);
            }
        } else if b < n.len() {
            assert(b < m.len());
            assert(m[b].0 == n[b].0);
        }
    }
}

/// Putting a value keeps the keys distinct.
pub proof fn law_put_keeps_keys_distinct(
    m: Seq<(Seq<char>, Seq<char>)>,
    key: Seq<char>,
    value: Seq<char>,
)
    requires
        distinct_keys(m),
    ensures
        distinct_keys(put(m, key, value)),
{
    lemma_position(m, key, 0);
    let n = put(m, key, value);
    assert forall|i: int, j: int| 0 <= i < j < n.len() implies (#[trigger] n[i]).0 != (
    #[trigger] n[j]).0 by {
        if j < m.len() {
            assert(n[i].0 == m[i].0);
            assert(n[j].0 == m[j].0);
        } else {
            assert(n[i].0 == m[i].0);
        }
    }
}

/// A map from text to text.
pub struct StrMap {
    pub entries: Vec<(String, String)>,
}

impl View for StrMap {
    type V = Seq<(Seq<char>, Seq<char>)>;

    open spec fn view(&self) -> Seq<(Seq<char>, Seq<char>)> {
        pairs(self.entries@)
    }
}

impl StrMap {
    /// A map without entries.
    pub fn new() -> (r: StrMap)
        ensures
            r@ == Seq::<(Seq<char>, Seq<char>)>::empty(),
    {
        let r = StrMap { entries: Vec::new() };
        assert(r@ =~= Seq::<(Seq<char>, Seq<char>)>::empty());
        r
    }

    /// How many entries there are.
    pub fn len(&self) -> (n: usize)
        ensures
            n == self@.len(),
    {
        self.entries.len()
    }

    fn position(&self, key: &str) -> (p: usize)
        ensures
            p == position_from(self@, key@, 0),
            p <= self@.len(),
    {
        let mut i: usize = 0;
        while i < self.entries.len()
            invariant
                i <= self.entries@.len(),
                position_from(self@, key@, 0) == position_from(self@, key@, i as int),
            decreases self.entries@.len() - i,
        {
            if str_eq(self.entries[i].0.as_str(), key) {
                return i;
            }
            i += 1;
        }
        i
    }

    /// The value under `key`.
    pub fn get(&self, key: &str) -> (r: Option<&String>)
        ensures
            match r {
                Some(v) => lookup(self@, key@) == Some(v@),
                None => lookup(self@, key@) is None,
            },
    {
        let p = self.position(key);
        if p < self.entries.len() {
            Some(&self.entries[p].1)
        } else {
            None
        }
    }

    /// Whether there is a value under `key`.
    pub fn contains_key(&self, key: &str) -> (r: bool)
        ensures
            r == (lookup(self@, key@) is Some),
    {
        self.position(key) < self.entries.len()
    }

    /// Puts `value` under `key`, in the place of what was there.
    pub fn insert(&mut self, key: String, value: String)
        ensures
            final(self)@ == put(old(self)@, key@, value@),
    {
        let p = self.position(key.as_str());
        let ghost k = key@;
        let ghost v = value@;
        if p < self.entries.len() {
            self.entries.set(p, (key, value));
        } else {
            self.entries.push((key, value));
        }
        assert(self@ =~= put(old(self)@, k, v));
    }

    /// A map with the same entries.
    pub fn copy(&self) -> (r: StrMap)
        ensures
            r@ == self@,
    {
        let mut entries: Vec<(String, String)> = Vec::new();
        let mut i: usize = 0;
        while i < self.entries.len()
            invariant
                i <= self.entries@.len(),
                pairs(entries@) == self@.take(i as int),
            decreases self.entries@.len() - i,
        {
            let ghost before = entries@;
            entries.push((self.entries[i].0.clone(), self.entries[i].1.clone()));
            i += 1;
            assert(pairs(entries@) =~= pairs(before).push(self@[i - 1]));
            assert(self@.take(i as int) =~= self@.take(i - 1).push(self@[i - 1]));
        }
        assert(self@.take(self@.len() as int) =~= self@);
        StrMap { entries }
    }
}

/// Pairs of texts denote the pairs of what they hold, each in its place, and a map denotes
/// its entries.
pub proof fn law_entries_are_what_they_hold(m: StrMap, v: Seq<(String, String)>, i: int)
    ensures
        pairs(v).len() == v.len(),
        0 <= i < v.len() ==> pairs(v)[i].0 == v[i].0@ && pairs(v)[i].1 == v[i].1@,
        m@.len() == m.entries@.len(),
        0 <= i < m@.len() ==> m@[i].0 == m.entries@[i].0@ && m@[i].1 == m.entries@[i].1@,
{
}

/// A value is found exactly where it stands: what is found is an entry, what is not found has
/// no entry, and where no key stands twice every entry is found.
pub proof fn law_lookup_finds_the_entries(
    m: Seq<(Seq<char>, Seq<char>)>,
    key: Seq<char>,
    value: Seq<char>,
)
    ensures
        lookup(m, key) == Some(value) ==> m.contains((key, value)),
        lookup(m, key) is None <==> forall|i: int| 0 <= i < m.len() ==> (#[trigger] m[i]).0 != key,
        distinct_keys(m) && m.contains((key, value)) ==> lookup(m, key) == Some(value),
        distinct_keys(m) <==> forall|i: int, j: int|
            0 <= i < m.len() && 0 <= j < m.len() && i != j ==> (#[trigger] m[i]).0 != (#[trigger] m[j]).0,
{
    lemma_position(m, key, 0);
    let p = position_from(m, key, 0);
    if lookup(m, key) == Some(value) {
        assert(m[p] == (key, value));
    }
    if m.contains((key, value)) {
        let i = choose|i: int| 0 <= i < m.len() && m[i] == (key, value);
        assert(p <= i);
        if distinct_keys(m) && p < i {
            assert(m[p].0 != m[i].0);
        }
    }
}

/// Putting a value changes the entry of its key alone, and adds one entry where the key had
/// none.
pub proof fn law_put_changes_one_entry(
    m: Seq<(Seq<char>, Seq<char>)>,
    key: Seq<char>,
    value: Seq<char>,
)
    ensures
        lookup(m, key) is None ==> put(m, key, value) == m + seq![(key, value)],
        lookup(m, key) is Some ==> put(m, key, value).len() == m.len(),
        forall|i: int|
            0 <= i < m.len() ==> (#[trigger] put(m, key, value)[i]).0 == m[i].0,
        forall|i: int|
            0 <= i < m.len() && m[i].0 != key ==> (#[trigger] put(m, key, value)[i]) == m[i],
{
    lemma_position(m, key, 0);
    assert(lookup(m, key) is None ==> put(m, key, value) =~= m + seq![(key, value)]);
}

} // verus!
