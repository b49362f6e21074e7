//! Maps and sets keyed by text, kept in key order.

use vstd::prelude::*;

use crate::strings;
use crate::order;
use crate::order::Order;
use crate::strings::compare_text;

verus! {

/// Of two different texts exactly one sorts before the other.
pub proof fn lemma_text_total(a: Seq<char>, b: Seq<char>)
    ensures
        a == b || strings::text_lt(a, b) || strings::text_lt(b, a),
        !(strings::text_lt(a, b) && strings::text_lt(b, a)),
        strings::text_lt(a, b) ==> a != b,
{
    order::lemma_lex_total(vstd::utf8::encode_utf8(a), vstd::utf8::encode_utf8(b));
    if vstd::utf8::encode_utf8(a) == vstd::utf8::encode_utf8(b) {
        strings::lemma_encoding_injective(a, b);
    }
}

pub proof fn lemma_text_transitive(a: Seq<char>, b: Seq<char>, c: Seq<char>)
    requires
        strings::text_lt(a, b),
        strings::text_lt(b, c),
    ensures
        strings::text_lt(a, c),
{
    order::lemma_lex_transitive(
        vstd::utf8::encode_utf8(a),
        vstd::utf8::encode_utf8(b),
        vstd::utf8::encode_utf8(c),
    );
}

/// Texts in strictly increasing order.
pub open spec fn texts_sorted(s: Seq<Seq<char>>) -> bool {
    forall|i: int, j: int| 0 <= i < j < s.len() ==> strings::text_lt(#[trigger] s[i], #[trigger] s[j])
}

/// A map from text to values.
#[derive(Clone, Debug)]
pub struct TextMap<V> {
    entries: Vec<(String, V)>,
}

impl<V> TextMap<V> {
    /// The keys, in order.
    pub closed spec fn keys(self) -> Seq<Seq<char>> {
        Seq::new(self.entries@.len(), |i: int| self.entries@[i].0@)
    }

    /// The values, in the order of their keys.
    pub closed spec fn values(self) -> Seq<V> {
        Seq::new(self.entries@.len(), |i: int| self.entries@[i].1)
    }

    /// Keys strictly increase, so none occurs twice.
    pub open spec fn wf(self) -> bool {
        texts_sorted(self.keys()) && self.keys().len() == self.values().len()
    }

    /// The position of a key; the number of keys if it has none.
    pub open spec fn position(self, key: Seq<char>) -> int {
        if self.keys().contains(key) {
            self.keys().index_of(key)
        } else {
            self.keys().len() as int
        }
    }

    /// The map as a mathematical one.
    pub open spec fn map(self) -> Map<Seq<char>, V> {
        Map::new(
            |key: Seq<char>| self.keys().contains(key),
            |key: Seq<char>| self.values()[self.keys().index_of(key)],
        )
    }

    /// A key has one position.
    pub proof fn lemma_position(self, i: int)
        requires
            self.wf(),
            0 <= i < self.keys().len(),
        ensures
            self.keys().contains(self.keys()[i]),
            self.keys().index_of(self.keys()[i]) == i,
            self.map().dom().contains(self.keys()[i]),
            self.map()[self.keys()[i]] == self.values()[i],
    {
        let keys = self.keys();
        let j = keys.index_of(keys[i]);
        if j < i {
            lemma_text_total(keys[j], keys[i]);
        } else if i < j {
            lemma_text_total(keys[i], keys[j]);
        }
    }

    pub fn new() -> (m: TextMap<V>)
        ensures
            m.wf(),
            m.keys().len() == 0,
            m.map() == Map::<Seq<char>, V>::empty(),
    {
        let m = TextMap { entries: Vec::new() };
        assert(m.map() =~= Map::<Seq<char>, V>::empty());
        m
    }

    /// How many keys there are.
    pub fn len(&self) -> (n: usize)
        ensures
            n == self.keys().len(),
            n == self.values().len(),
    {
        self.entries.len()
    }

    /// The key at a position of the order.
    pub fn key_at(&self, i: usize) -> (key: &String)
        requires
            i < self.keys().len(),
        ensures
            key@ == self.keys()[i as int],
    {
        &self.entries[i].0
    }

    /// The value of the key at a position of the order.
    pub fn value_at(&self, i: usize) -> (value: &V)
        requires
            i < self.keys().len(),
        ensures
            *value == self.values()[i as int],
    {
        &self.entries[i].1
    }

    /// Where a key is, or where it belongs.
    fn search(&self, key: &str) -> (r: (usize, bool))
        requires
            self.wf(),
        ensures
            r.0 <= self.keys().len(),
            r.1 == self.keys().contains(key@),
            r.1 ==> r.0 < self.keys().len() && self.keys()[r.0 as int] == key@,
            forall|i: int| 0 <= i < r.0 ==> strings::text_lt(#[trigger] self.keys()[i], key@),
            forall|i: int|
                r.0 <= i < self.keys().len() ==> #[trigger] self.keys()[i] == key@ || strings::text_lt(
                    key@,
                    self.keys()[i],
                ),
            !r.1 && r.0 < self.keys().len() ==> strings::text_lt(key@, self.keys()[r.0 as int]),
    {
        let ghost keys = self.keys();
        let mut low: usize = 0;
        let mut high: usize = self.entries.len();
        while low < high
            invariant
                low <= high <= self.entries@.len(),
                self.wf(),
                keys == self.keys(),
                keys.len() == self.entries@.len(),
                forall|i: int| 0 <= i < low ==> strings::text_lt(#[trigger] keys[i], key@),
                forall|i: int| high <= i < keys.len() ==> strings::text_lt(key@, #[trigger] keys[i]),
            decreases high - low,
        {
            let mid: usize = low + (high - low) / 2;
            let ghost k = keys[mid as int];
            assert(k == self.entries@[mid as int].0@);
            proof {
                lemma_text_total(k, key@);
            }
            match compare_text(self.entries[mid].0.as_str(), key) {
                Order::Equal => {
                    assert forall|i: int| 0 <= i < mid implies strings::text_lt(#[trigger] keys[i], key@) by {
                        assert(strings::text_lt(keys[i], keys[mid as int]));
                    }
                    assert forall|i: int| mid <= i < keys.len() implies #[trigger] keys[i] == key@
                        || strings::text_lt(key@, keys[i]) by {
                        if i > mid {
                            assert(strings::text_lt(keys[mid as int], keys[i]));
                        }
                    }
                    return (mid, true);
                },
                Order::Less => {
                    assert forall|i: int| 0 <= i < mid + 1 implies strings::text_lt(
                        #[trigger] keys[i],
                        key@,
                    ) by {
                        if i < mid {
                            assert(strings::text_lt(keys[i], keys[mid as int]));
                            lemma_text_transitive(keys[i], k, key@);
                        }
                    }
                    low = mid + 1;
                },
                Order::Greater => {
                    assert forall|i: int| mid <= i < keys.len() implies strings::text_lt(
                        key@,
                        #[trigger] keys[i],
                    ) by {
                        if i > mid {
                            assert(strings::text_lt(keys[mid as int], keys[i]));
                            lemma_text_transitive(key@, k, keys[i]);
                        }
                    }
                    high = mid;
                },
            }
        }
        proof {
            if keys.contains(key@) {
                let i = keys.index_of(key@);
                lemma_text_total(key@, key@);
                assert(keys[i] == key@);
            }
        }
        (low, false)
    }

    /// The value of a key.
    pub fn get(&self, key: &str) -> (r: Option<&V>)
        requires
            self.wf(),
        ensures
            match r {
                Some(v) => self.map().dom().contains(key@) && *v == self.map()[key@],
                None => !self.map().dom().contains(key@),
            },
    {
        let (i, found) = self.search(key);
        if found {
            proof {
                self.lemma_position(i as int);
            }
            Some(&self.entries[i].1)
        } else {
            None
        }
    }

    /// Whether a key has a value.
    pub fn contains_key(&self, key: &str) -> (b: bool)
        requires
            self.wf(),
        ensures
            b == self.map().dom().contains(key@),
    {
        let (_, found) = self.search(key);
        found
    }

    /// Gives a key a value, and returns the one it had before.
    pub fn insert(&mut self, key: String, value: V) -> (r: Option<V>)
        requires
            old(self).wf(),
        ensures
            final(self).wf(),
            final(self).map() == old(self).map().insert(key@, value),
            final(self).keys().len() == old(self).keys().len() + (if r is None {
                1int
            } else {
                0
            }),
            match r {
                Some(v) => old(self).map().dom().contains(key@) && v == old(self).map()[key@],
                None => !old(self).map().dom().contains(key@),
            },
    {
        let ghost keys = self.keys();
        let ghost values = self.values();
        let (i, found) = self.search(key.as_str());
        let ghost k = key@;
        if found {
            proof {
                self.lemma_position(i as int);
            }
            let mut entry = (key, value);
            std::mem::swap(&mut entry, &mut self.entries[i]);
            assert(self.keys() =~= keys);
            assert(self.values() =~= values.update(i as int, value));
            proof {
                lemma_map_update(*old(self), *self, i as int, k, value);
            }
            Some(entry.1)
        } else {
            self.entries.insert(i, (key, value));
            assert(self.keys() =~= keys.insert(i as int, k));
            assert(self.values() =~= values.insert(i as int, value));
            proof {
                lemma_insert_sorted(keys, i as int, k);
                lemma_map_insert(*old(self), *self, i as int, k, value);
            }
            None
        }
    }

    /// The keys with their values, in order.
    pub fn into_entries(self) -> (entries: Vec<(String, V)>)
        ensures
            entries@.len() == self.keys().len(),
            entries@.len() == self.values().len(),
            forall|i: int|
                0 <= i < entries@.len() ==> (#[trigger] entries@[i]).0@ == self.keys()[i]
                    && entries@[i].1 == self.values()[i],
    {
        self.entries
    }

    /// Takes a key and its value out.
    pub fn remove(&mut self, key: &str) -> (r: Option<V>)
        requires
            old(self).wf(),
        ensures
            final(self).wf(),
            final(self).map() == old(self).map().remove(key@),
            final(self).keys().len() == old(self).keys().len() - (if r is Some {
                1int
            } else {
                0
            }),
            match r {
                Some(v) => old(self).map().dom().contains(key@) && v == old(self).map()[key@],
                None => !old(self).map().dom().contains(key@),
            },
    {
        let ghost keys = self.keys();
        let ghost values = self.values();
        let (i, found) = self.search(key);
        if !found {
            assert(self.map().remove(key@) =~= self.map());
            return None;
        }
        proof {
            self.lemma_position(i as int);
        }
        let entry = self.entries.remove(i);
        assert(self.keys() =~= keys.remove(i as int));
        assert(self.values() =~= values.remove(i as int));
        proof {
            lemma_remove_sorted(keys, i as int);
            lemma_map_remove(*old(self), *self, i as int, key@);
        }
        Some(entry.1)
    }
}

proof fn lemma_insert_sorted(keys: Seq<Seq<char>>, i: int, k: Seq<char>)
    requires
        texts_sorted(keys),
        0 <= i <= keys.len(),
        forall|j: int| 0 <= j < i ==> strings::text_lt(#[trigger] keys[j], k),
        forall|j: int| i <= j < keys.len() ==> strings::text_lt(k, #[trigger] keys[j]),
    ensures
        texts_sorted(keys.insert(i, k)),
{
    let s = keys.insert(i, k);
    assert forall|a: int, b: int| 0 <= a < b < s.len() implies strings::text_lt(
        #[trigger] s[a],
        #[trigger] s[b],
    ) by {
        let x = if a < i { a } else { a - 1 };
        let y = if b < i { b } else { b - 1 };
        if a != i {
            assert(s[a] == keys[x]);
        }
        if b != i {
            assert(s[b] == keys[y]);
        }
    }
}

proof fn lemma_remove_sorted(keys: Seq<Seq<char>>, i: int)
    requires
        texts_sorted(keys),
        0 <= i < keys.len(),
    ensures
        texts_sorted(keys.remove(i)),
{
    let s = keys.remove(i);
    assert forall|a: int, b: int| 0 <= a < b < s.len() implies strings::text_lt(
        #[trigger] s[a],
        #[trigger] s[b],
    ) by {
        let x = if a < i { a } else { a + 1 };
        let y = if b < i { b } else { b + 1 };
        assert(s[a] == keys[x]);
        assert(s[b] == keys[y]);
    }
}

proof fn lemma_map_update<V>(old: TextMap<V>, new: TextMap<V>, i: int, k: Seq<char>, v: V)
    requires
        old.wf(),
        0 <= i < old.keys().len(),
        old.keys()[i] == k,
        new.keys() == old.keys(),
        new.values() == old.values().update(i, v),
    ensures
        new.wf(),
        new.map() == old.map().insert(k, v),
{
    let a = new.map();
    let b = old.map().insert(k, v);
    assert forall|x: Seq<char>| a.dom().contains(x) implies #[trigger] a[x] == b[x] by {
        let j = new.keys().index_of(x);
        new.lemma_position(j);
        old.lemma_position(j);
        new.lemma_position(i);
    }
    old.lemma_position(i);
    assert(a =~= b);
}

proof fn lemma_map_insert<V>(old: TextMap<V>, new: TextMap<V>, i: int, k: Seq<char>, v: V)
    requires
        old.wf(),
        new.wf(),
        0 <= i <= old.keys().len(),
        !old.keys().contains(k),
        new.keys() == old.keys().insert(i, k),
        new.values() == old.values().insert(i, v),
    ensures
        new.map() == old.map().insert(k, v),
{
    let a = new.map();
    let b = old.map().insert(k, v);
    assert forall|x: Seq<char>| a.dom().contains(x) == b.dom().contains(x) by {
        if new.keys().contains(x) {
            let j = new.keys().index_of(x);
            if j != i {
                let y = if j < i { j } else { j - 1 };
                assert(old.keys()[y] == x);
            }
        }
        if old.keys().contains(x) {
            let j = old.keys().index_of(x);
            let y = if j < i { j } else { j + 1 };
            assert(new.keys()[y] == x);
        }
        if x == k {
            assert(new.keys()[i] == k);
        }
    }
    assert forall|x: Seq<char>| a.dom().contains(x) implies #[trigger] a[x] == b[x] by {
        let j = new.keys().index_of(x);
        new.lemma_position(j);
        if j != i {
            let y = if j < i { j } else { j - 1 };
            old.lemma_position(y);
            assert(old.keys()[y] == x);
            new.lemma_position(i);
        }
    }
    assert(a =~= b);
}

proof fn lemma_map_remove<V>(old: TextMap<V>, new: TextMap<V>, i: int, k: Seq<char>)
    requires
        old.wf(),
        new.wf(),
        0 <= i < old.keys().len(),
        old.keys()[i] == k,
        new.keys() == old.keys().remove(i),
        new.values() == old.values().remove(i),
    ensures
        new.map() == old.map().remove(k),
{
    let a = new.map();
    let b = old.map().remove(k);
    assert forall|x: Seq<char>| a.dom().contains(x) == b.dom().contains(x) by {
        if new.keys().contains(x) {
            let j = new.keys().index_of(x);
            let y = if j < i { j } else { j + 1 };
            assert(old.keys()[y] == x);
            old.lemma_position(y);
            old.lemma_position(i);
        }
        if old.keys().contains(x) && x != k {
            let j = old.keys().index_of(x);
            let y = if j < i { j } else { j - 1 };
            assert(new.keys()[y] == x);
        }
    }
    assert forall|x: Seq<char>| a.dom().contains(x) implies #[trigger] a[x] == b[x] by {
        let j = new.keys().index_of(x);
        new.lemma_position(j);
        let y = if j < i { j } else { j + 1 };
        old.lemma_position(y);
        assert(old.keys()[y] == x);
    }
    assert(a =~= b);
}

/// A set of texts.
#[derive(Clone, Debug)]
pub struct TextSet {
    map: TextMap<()>,
}

impl TextSet {
    /// The members, in order.
    pub closed spec fn items(self) -> Seq<Seq<char>> {
        self.map.keys()
    }

    pub closed spec fn wf(self) -> bool {
        self.map.wf()
    }

    /// The set as a mathematical one.
    pub open spec fn set(self) -> Set<Seq<char>> {
        self.items().to_set()
    }

    /// The members strictly increase.
    pub proof fn lemma_sorted(self)
        requires
            self.wf(),
        ensures
            texts_sorted(self.items()),
    {
    }

    pub fn new() -> (s: TextSet)
        ensures
            s.wf(),
            s.items().len() == 0,
            s.set() == Set::<Seq<char>>::empty(),
    {
        let s = TextSet { map: TextMap::new() };
        assert(s.set() =~= Set::<Seq<char>>::empty());
        s
    }

    pub fn len(&self) -> (n: usize)
        ensures
            n == self.items().len(),
    {
        self.map.len()
    }

    /// The member at a position of the order.
    pub fn item_at(&self, i: usize) -> (item: &String)
        requires
            i < self.items().len(),
        ensures
            item@ == self.items()[i as int],
    {
        self.map.key_at(i)
    }

    pub fn contains(&self, item: &str) -> (b: bool)
        requires
            self.wf(),
        ensures
            b == self.set().contains(item@),
    {
        self.map.contains_key(item)
    }

    /// Puts a text in; says whether it was not there before.
    pub fn insert(&mut self, item: String) -> (fresh: bool)
        requires
            old(self).wf(),
        ensures
            final(self).wf(),
            final(self).set() == old(self).set().insert(item@),
            final(self).items().len() == old(self).items().len() + (if fresh {
                1int
            } else {
                0
            }),
            fresh == !old(self).set().contains(item@),
    {
        let ghost before = self.map.map();
        let ghost k = item@;
        let r = self.map.insert(item, ());
        assert forall|x: Seq<char>| #[trigger] self.set().contains(x) == old(self).set().insert(
            k,
        ).contains(x) by {
            assert(self.map.map().dom().contains(x) == before.insert(k, ()).dom().contains(x));
        }
        assert(self.set() =~= old(self).set().insert(k));
        r.is_none()
    }
}

} // verus!
