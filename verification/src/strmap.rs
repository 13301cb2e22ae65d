//! A map from strings to values, kept as a list in rising order of its keys.

use vstd::prelude::*;
use crate::text::{
    is_sorted_listing, lemma_sorted_keys_is, lemma_text_lt_asymmetric, lemma_text_lt_total,
    lemma_text_lt_transitive, sorted_keys, str_eq, str_lt, strictly_sorted, text_lt,
};

verus! {

pub struct StrMap<V: View> {
    entries: Vec<(String, V)>,
}

/// The keys of `entries`, in their order.
pub open spec fn keys_of<V>(entries: Seq<(String, V)>) -> Seq<Seq<char>> {
    Seq::new(entries.len(), |i: int| entries[i].0@)
}

/// The values of `entries`, in their order.
pub open spec fn values_of<V>(entries: Seq<(String, V)>) -> Seq<V> {
    Seq::new(entries.len(), |i: int| entries[i].1)
}

/// An index at which `entries` holds the key `k`.
pub open spec fn index_of_key<V>(entries: Seq<(String, V)>, k: Seq<char>) -> int {
    choose|i: int| 0 <= i < entries.len() && entries[i].0@ == k
}

/// The map that `entries` stands for.
pub open spec fn map_of<V: View>(entries: Seq<(String, V)>) -> Map<Seq<char>, V::V> {
    Map::new(
        |k: Seq<char>| keys_of(entries).contains(k),
        |k: Seq<char>| entries[index_of_key(entries, k)].1@,
    )
}

proof fn lemma_map_of_at<V: View>(entries: Seq<(String, V)>, i: int)
    requires
        strictly_sorted(keys_of(entries)),
        0 <= i < entries.len(),
    ensures
        map_of(entries).contains_key(entries[i].0@),
        map_of(entries)[entries[i].0@] == entries[i].1@,
        index_of_key(entries, entries[i].0@) == i,
{
    let k = entries[i].0@;
    assert(keys_of(entries)[i] == k);
    assert(keys_of(entries).contains(k));
    let j = index_of_key(entries, k);
    if j != i {
        assert(keys_of(entries)[j] == k);
        lemma_text_lt_asymmetric(k, k);
        if j < i {
            assert(text_lt(keys_of(entries)[j], keys_of(entries)[i]));
        } else {
            assert(text_lt(keys_of(entries)[i], keys_of(entries)[j]));
        }
    }
}

proof fn lemma_map_of_dom<V: View>(entries: Seq<(String, V)>, k: Seq<char>)
    ensures
        map_of(entries).contains_key(k) <==> exists|i: int|
            0 <= i < entries.len() && entries[i].0@ == k,
{
    if map_of(entries).contains_key(k) {
        let i = choose|i: int| 0 <= i < keys_of(entries).len() && keys_of(entries)[i] == k;
        assert(entries[i].0@ == k);
    }
    if exists|i: int| 0 <= i < entries.len() && entries[i].0@ == k {
        let i = choose|i: int| 0 <= i < entries.len() && entries[i].0@ == k;
        assert(keys_of(entries)[i] == k);
    }
}

proof fn lemma_update_entry<V: View>(before: Seq<(String, V)>, i: int, e: (String, V))
    requires
        strictly_sorted(keys_of(before)),
        0 <= i < before.len(),
        before[i].0@ == e.0@,
    ensures
        strictly_sorted(keys_of(before.update(i, e))),
        map_of(before.update(i, e)) == map_of(before).insert(e.0@, e.1@),
{
    let after = before.update(i, e);
    let k = e.0@;
    assert(keys_of(after) =~= keys_of(before));
    assert forall|q: Seq<char>| #[trigger]
        map_of(after).contains_key(q) <==> map_of(before).insert(k, e.1@).contains_key(q) by {
        lemma_map_of_dom(before, k);
    }
    assert forall|q: Seq<char>| #[trigger] map_of(after).contains_key(q) implies map_of(after)[q]
        == map_of(before).insert(k, e.1@)[q] by {
        lemma_map_of_dom(after, q);
        let n = choose|n: int| 0 <= n < after.len() && after[n].0@ == q;
        lemma_map_of_at(after, n);
        if q != k {
            assert(after[n] == before[n]);
            lemma_map_of_at(before, n);
        } else {
            lemma_map_of_at(after, i);
        }
    }
    assert(map_of(after) =~= map_of(before).insert(k, e.1@));
}

proof fn lemma_insert_entry<V: View>(before: Seq<(String, V)>, i: int, e: (String, V))
    requires
        strictly_sorted(keys_of(before)),
        0 <= i <= before.len(),
        forall|j: int| 0 <= j < i ==> text_lt(#[trigger] before[j].0@, e.0@),
        i < before.len() ==> text_lt(e.0@, before[i].0@),
    ensures
        strictly_sorted(keys_of(before.insert(i, e))),
        map_of(before.insert(i, e)) == map_of(before).insert(e.0@, e.1@),
{
    let after = before.insert(i, e);
    let k = e.0@;
    assert forall|x: int, y: int| 0 <= x < y < after.len() implies text_lt(
        #[trigger] keys_of(after)[x],
        #[trigger] keys_of(after)[y],
    ) by {
        if y < i {
            assert(text_lt(keys_of(before)[x], keys_of(before)[y]));
        } else if y == i {
            assert(text_lt(before[x].0@, k));
        } else if x < i {
            assert(text_lt(before[x].0@, k));
            if y - 1 > i {
                assert(text_lt(keys_of(before)[i], keys_of(before)[y - 1]));
                lemma_text_lt_transitive(k, before[i].0@, before[y - 1].0@);
            }
            lemma_text_lt_transitive(before[x].0@, k, before[y - 1].0@);
        } else if x == i {
            if y - 1 > i {
                assert(text_lt(keys_of(before)[i], keys_of(before)[y - 1]));
                lemma_text_lt_transitive(k, before[i].0@, before[y - 1].0@);
            }
        } else {
            assert(text_lt(keys_of(before)[x - 1], keys_of(before)[y - 1]));
        }
    }
    assert forall|q: Seq<char>| #[trigger]
        map_of(after).contains_key(q) <==> map_of(before).insert(k, e.1@).contains_key(q) by {
        lemma_map_of_dom(before, q);
        lemma_map_of_dom(after, q);
        if map_of(before).contains_key(q) {
            let n = choose|n: int| 0 <= n < before.len() && before[n].0@ == q;
            if n < i {
                assert(after[n].0@ == q);
            } else {
                assert(after[n + 1].0@ == q);
            }
        }
        if q == k {
            assert(after[i].0@ == q);
        }
        if map_of(after).contains_key(q) && q != k {
            let n = choose|n: int| 0 <= n < after.len() && after[n].0@ == q;
            if n < i {
                assert(before[n].0@ == q);
            } else {
                assert(before[n - 1].0@ == q);
            }
        }
    }
    assert forall|q: Seq<char>| #[trigger] map_of(after).contains_key(q) implies map_of(after)[q]
        == map_of(before).insert(k, e.1@)[q] by {
        lemma_map_of_dom(after, q);
        let n = choose|n: int| 0 <= n < after.len() && after[n].0@ == q;
        lemma_map_of_at(after, n);
        lemma_map_of_at(after, i);
        if n < i {
            lemma_map_of_at(before, n);
        } else if n > i {
            lemma_map_of_at(before, n - 1);
        }
    }
    assert(map_of(after) =~= map_of(before).insert(k, e.1@));
}

proof fn lemma_remove_entry<V: View>(before: Seq<(String, V)>, i: int)
    requires
        strictly_sorted(keys_of(before)),
        0 <= i < before.len(),
    ensures
        strictly_sorted(keys_of(before.remove(i))),
        map_of(before.remove(i)) == map_of(before).remove(before[i].0@),
{
    let after = before.remove(i);
    let k = before[i].0@;
    assert forall|x: int, y: int| 0 <= x < y < after.len() implies text_lt(
        #[trigger] keys_of(after)[x],
        #[trigger] keys_of(after)[y],
    ) by {
        let bx = if x < i { x } else { x + 1 };
        let by = if y < i { y } else { y + 1 };
        assert(text_lt(keys_of(before)[bx], keys_of(before)[by]));
    }
    assert forall|q: Seq<char>| #[trigger]
        map_of(after).contains_key(q) <==> map_of(before).remove(k).contains_key(q) by {
        lemma_map_of_dom(before, q);
        lemma_map_of_dom(after, q);
        if map_of(before).contains_key(q) && q != k {
            let n = choose|n: int| 0 <= n < before.len() && before[n].0@ == q;
            if n < i {
                assert(after[n].0@ == q);
            } else {
                assert(after[n - 1].0@ == q);
            }
        }
        if map_of(after).contains_key(q) {
            let n = choose|n: int| 0 <= n < after.len() && after[n].0@ == q;
            let bn = if n < i { n } else { n + 1 };
            assert(before[bn].0@ == q);
            lemma_text_lt_asymmetric(k, k);
            if bn < i {
                assert(text_lt(keys_of(before)[bn], keys_of(before)[i]));
            } else {
                assert(text_lt(keys_of(before)[i], keys_of(before)[bn]));
            }
        }
    }
    assert forall|q: Seq<char>| #[trigger] map_of(after).contains_key(q) implies map_of(after)[q]
        == map_of(before).remove(k)[q] by {
        lemma_map_of_dom(after, q);
        let n = choose|n: int| 0 <= n < after.len() && after[n].0@ == q;
        lemma_map_of_at(after, n);
        let bn = if n < i { n } else { n + 1 };
        lemma_map_of_at(before, bn);
    }
    assert(map_of(after) =~= map_of(before).remove(k));
}

impl<V: View> View for StrMap<V> {
    type V = Map<Seq<char>, V::V>;

    closed spec fn view(&self) -> Map<Seq<char>, V::V> {
        map_of(self.entries@)
    }
}

impl<V: View> StrMap<V> {
    /// The keys are in strictly rising order, so that none occurs twice.
    #[verifier::type_invariant]
    pub closed spec fn inv(&self) -> bool {
        strictly_sorted(keys_of(self.entries@))
    }

    /// The keys in the order in which they are held.
    pub closed spec fn spec_keys(&self) -> Seq<Seq<char>> {
        keys_of(self.entries@)
    }

    /// The values in the order of their keys.
    pub closed spec fn spec_values(&self) -> Seq<V> {
        values_of(self.entries@)
    }

    /// The keys are held in rising order, and each with its value.
    pub proof fn lemma_listing(&self)
        requires
            self.inv(),
        ensures
            self.spec_keys() == sorted_keys(self@.dom()),
            is_sorted_listing(self.spec_keys(), self@.dom()),
            self.spec_values().len() == self.spec_keys().len(),
            forall|i: int|
                0 <= i < self.spec_keys().len() ==> self@.contains_key(
                    #[trigger] self.spec_keys()[i],
                ) && self@[self.spec_keys()[i]] == self.spec_values()[i]@,
            forall|k: Seq<char>| self@.contains_key(k) <==> self.spec_keys().contains(k),
            self@.dom().finite(),
    {
        let keys = self.spec_keys();
        assert(is_sorted_listing(keys, self@.dom()));
        lemma_sorted_keys_is(keys, self@.dom());
        assert forall|i: int| 0 <= i < keys.len() implies self@.contains_key(#[trigger] keys[i])
            && self@[keys[i]] == self.spec_values()[i]@ by {
            lemma_map_of_at(self.entries@, i);
        }
        assert(self@.dom() =~= keys.to_set());
        vstd::seq_lib::seq_to_set_is_finite(keys);
    }

    /// The map without keys.
    pub fn new() -> (m: Self)
        ensures
            m@ == Map::<Seq<char>, V::V>::empty(),
            m.spec_keys().len() == 0,
            m.spec_values().len() == 0,
            m.inv(),
    {
        let m = StrMap { entries: Vec::new() };
        assert(m@ =~= Map::<Seq<char>, V::V>::empty());
        m
    }

    /// How many keys the map holds.
    pub fn len(&self) -> (n: usize)
        ensures
            n == self.spec_keys().len(),
    {
        self.entries.len()
    }

    /// The key at place `i` of the rising order.
    pub fn key_at(&self, i: usize) -> (k: &String)
        requires
            i < self.spec_keys().len(),
        ensures
            k@ == self.spec_keys()[i as int],
    {
        &self.entries[i].0
    }

    /// The value of the key at place `i` of the rising order.
    pub fn value_at(&self, i: usize) -> (v: &V)
        requires
            i < self.spec_keys().len(),
        ensures
            *v == self.spec_values()[i as int],
    {
        &self.entries[i].1
    }

    /// The first place whose key is not below `key`, and whether that key
    /// is `key`.
    fn position(&self, key: &str) -> (r: (usize, bool))
        ensures
            r.0 <= self.entries@.len(),
            forall|j: int| 0 <= j < r.0 ==> text_lt(#[trigger] self.entries@[j].0@, key@),
            r.0 < self.entries@.len() ==> !text_lt(self.entries@[r.0 as int].0@, key@),
            r.1 <==> (r.0 < self.entries@.len() && self.entries@[r.0 as int].0@ == key@),
            r.1 <==> self@.contains_key(key@),
    {
        proof {
            use_type_invariant(self);
        }
        let mut i: usize = 0;
        while i < self.entries.len() && str_lt(self.entries[i].0.as_str(), key)
            invariant
                i <= self.entries@.len(),
                forall|j: int| 0 <= j < i ==> text_lt(#[trigger] self.entries@[j].0@, key@),
            decreases self.entries@.len() - i,
        {
            i += 1;
        }
        let found = i < self.entries.len() && str_eq(self.entries[i].0.as_str(), key);
        proof {
            lemma_map_of_dom(self.entries@, key@);
            if self@.contains_key(key@) {
                let n = choose|n: int| 0 <= n < self.entries@.len() && self.entries@[n].0@ == key@;
                lemma_text_lt_asymmetric(key@, key@);
                if n > i {
                    assert(text_lt(keys_of(self.entries@)[i as int], keys_of(self.entries@)[n]));
                }
            }
        }
        (i, found)
    }

    /// Whether the map holds `key`.
    pub fn contains_key(&self, key: &str) -> (r: bool)
        ensures
            r == self@.contains_key(key@),
    {
        self.position(key).1
    }

    /// The value of `key`, where the map holds it.
    pub fn get(&self, key: &str) -> (r: Option<&V>)
        ensures
            match r {
                Some(v) => self@.contains_key(key@) && v@ == self@[key@],
                None => !self@.contains_key(key@),
            },
    {
        let (i, found) = self.position(key);
        if found {
            proof {
                use_type_invariant(self);
                lemma_map_of_at(self.entries@, i as int);
            }
            Some(&self.entries[i].1)
        } else {
            None
        }
    }

    /// Sets the value of `key`, whether or not the map held it.
    pub fn insert(&mut self, key: String, value: V)
        ensures
            final(self)@ == old(self)@.insert(key@, value@),
            forall|v: V| #[trigger]
                final(self).spec_values().contains(v) ==> v == value || old(
                    self,
                ).spec_values().contains(v),
    {
        proof {
            use_type_invariant(&*self);
        }
        let (i, found) = self.position(key.as_str());
        let ghost before = self.entries@;
        let mut entries: Vec<(String, V)> = Vec::new();
        core::mem::swap(&mut self.entries, &mut entries);
        if found {
            proof {
                lemma_update_entry(before, i as int, (key, value));
                assert forall|v: V| #[trigger]
                    values_of(before.update(i as int, (key, value))).contains(v) implies v == value
                    || values_of(before).contains(v) by {
                    let n = choose|n: int|
                        0 <= n < before.len() && values_of(
                            before.update(i as int, (key, value)),
                        )[n] == v;
                    if n != i {
                        assert(values_of(before)[n] == v);
                    }
                }
            }
            entries.set(i, (key, value));
        } else {
            proof {
                if (i as int) < before.len() {
                    lemma_text_lt_total(before[i as int].0@, key@);
                }
                lemma_insert_entry(before, i as int, (key, value));
                assert forall|v: V| #[trigger]
                    values_of(before.insert(i as int, (key, value))).contains(v) implies v == value
                    || values_of(before).contains(v) by {
                    let n = choose|n: int|
                        0 <= n <= before.len() && values_of(
                            before.insert(i as int, (key, value)),
                        )[n] == v;
                    if n < i {
                        assert(values_of(before)[n] == v);
                    } else if n > i {
                        assert(values_of(before)[n - 1] == v);
                    }
                }
            }
            entries.insert(i, (key, value));
        }
        self.entries = entries;
    }

    /// Takes `key` and its value out of the map, where the map holds it.
    pub fn remove(&mut self, key: &str) -> (r: Option<V>)
        ensures
            match r {
                Some(v) => old(self)@.contains_key(key@) && v@ == old(self)@[key@] && final(self)@
                    == old(self)@.remove(key@),
                None => !old(self)@.contains_key(key@) && final(self)@ == old(self)@,
            },
            forall|v: V| #[trigger]
                final(self).spec_values().contains(v) ==> old(self).spec_values().contains(v),
    {
        proof {
            use_type_invariant(&*self);
        }
        let (i, found) = self.position(key);
        if !found {
            return None;
        }
        let ghost before = self.entries@;
        proof {
            lemma_map_of_at(before, i as int);
            lemma_remove_entry(before, i as int);
            assert forall|v: V| #[trigger]
                values_of(before.remove(i as int)).contains(v) implies values_of(before).contains(
                v,
            ) by {
                let n = choose|n: int|
                    0 <= n < before.len() - 1 && values_of(before.remove(i as int))[n] == v;
                if n < i {
                    assert(values_of(before)[n] == v);
                } else {
                    assert(values_of(before)[n + 1] == v);
                }
            }
        }
        let mut entries: Vec<(String, V)> = Vec::new();
        core::mem::swap(&mut self.entries, &mut entries);
        let (_, value) = entries.remove(i);
        self.entries = entries;
        Some(value)
    }
}

} // verus!
