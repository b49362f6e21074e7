//! Maps and sets over ordered keys, kept in key order.

use vstd::prelude::*;

use crate::textmap;
use crate::order;
use crate::order::{compare_bytes, Order};
use crate::value;
use crate::value::{compare_ids, Id, IdView};

verus! {

/// A type whose values are totally ordered.
pub trait Key: View + Sized {
    /// The order of two keys.
    spec fn order(a: Self::V, b: Self::V) -> Order;

    /// Only equal keys compare equal, and two keys compare the same either way.
    proof fn lemma_total(a: Self::V, b: Self::V)
        ensures
            Self::order(a, b) == Order::Equal <==> a == b,
            Self::order(a, b) == Order::Less <==> Self::order(b, a) == Order::Greater,
    ;

    proof fn lemma_transitive(a: Self::V, b: Self::V, c: Self::V)
        requires
            Self::order(a, b) == Order::Less,
            Self::order(b, c) == Order::Less,
        ensures
            Self::order(a, c) == Order::Less,
    ;

    /// The order of two keys.
    fn compare(&self, other: &Self) -> (o: Order)
        ensures
            o == Self::order(self@, other@),
    ;
}

/// `a` comes before `b`.
pub open spec fn key_lt<K: Key>(a: K::V, b: K::V) -> bool {
    K::order(a, b) == Order::Less
}

/// Keys in strictly increasing order.
pub open spec fn keys_sorted<K: Key>(s: Seq<K::V>) -> bool {
    forall|i: int, j: int| 0 <= i < j < s.len() ==> key_lt::<K>(#[trigger] s[i], #[trigger] s[j])
}

/// A map from keys to values.
#[derive(Clone, Debug)]
pub struct SortedMap<K, V> {
    entries: Vec<(K, V)>,
}

impl<K: Key, V> SortedMap<K, V> {
    /// The keys, in order.
    pub closed spec fn keys(self) -> Seq<K::V> {
        Seq::new(self.entries@.len(), |i: int| self.entries@[i].0@)
    }

    /// The values, in the order of their keys.
    pub closed spec fn values(self) -> Seq<V> {
        Seq::new(self.entries@.len(), |i: int| self.entries@[i].1)
    }

    /// Keys strictly increase, so none occurs twice.
    pub open spec fn wf(self) -> bool {
        keys_sorted::<K>(self.keys()) && self.keys().len() == self.values().len()
    }

    /// The position of a key; the number of keys if it has none.
    pub open spec fn position(self, key: K::V) -> int {
        if self.keys().contains(key) {
            self.keys().index_of(key)
        } else {
            self.keys().len() as int
        }
    }

    /// The map as a mathematical one.
    pub open spec fn map(self) -> Map<K::V, V> {
        Map::new(
            |key: K::V| self.keys().contains(key),
            |key: K::V| self.values()[self.keys().index_of(key)],
        )
    }

    /// A key has one position.
    pub proof fn lemma_position(self, i: int)
        requires
            self.wf(),
            0 <= i < self.keys().len(),
        ensures
            self.keys().contains(self.keys()[i]),
            self.keys().index_of(self.keys()[i]) == i,
            self.map().dom().contains(self.keys()[i]),
            self.map()[self.keys()[i]] == self.values()[i],
    {
        let keys = self.keys();
        let j = keys.index_of(keys[i]);
        if j < i {
            K::lemma_total(keys[j], keys[i]);
        } else if i < j {
            K::lemma_total(keys[i], keys[j]);
        }
    }

    /// No key occurs twice.
    pub proof fn lemma_count(self)
        requires
            self.wf(),
        ensures
            self.map().dom().finite(),
            self.map().dom().len() == self.keys().len(),
    {
        let keys = self.keys();
        assert forall|i: int, j: int| 0 <= i < j < keys.len() implies keys[i] != keys[j] by {
            K::lemma_total(keys[i], keys[j]);
        }
        keys.unique_seq_to_set();
        assert(self.map().dom() =~= keys.to_set());
    }

    pub fn new() -> (m: SortedMap<K, V>)
        ensures
            m.wf(),
            m.keys().len() == 0,
            m.map() == Map::<K::V, V>::empty(),
    {
        let m = SortedMap { entries: Vec::new() };
        assert(m.map() =~= Map::<K::V, V>::empty());
        m
    }

    /// How many keys there are.
    pub fn len(&self) -> (n: usize)
        ensures
            n == self.keys().len(),
            n == self.values().len(),
    {
        self.entries.len()
    }

    /// The key at a position of the order.
    pub fn key_at(&self, i: usize) -> (key: &K)
        requires
            i < self.keys().len(),
        ensures
            key@ == self.keys()[i as int],
    {
        &self.entries[i].0
    }

    /// The value of the key at a position of the order.
    pub fn value_at(&self, i: usize) -> (value: &V)
        requires
            i < self.keys().len(),
        ensures
            *value == self.values()[i as int],
    {
        &self.entries[i].1
    }

    /// Where a key is, or where it belongs.
    fn search(&self, key: &K) -> (r: (usize, bool))
        requires
            self.wf(),
        ensures
            r.0 <= self.keys().len(),
            r.1 == self.keys().contains(key@),
            r.1 ==> r.0 < self.keys().len() && self.keys()[r.0 as int] == key@,
            forall|i: int| 0 <= i < r.0 ==> key_lt::<K>(#[trigger] self.keys()[i], key@),
            forall|i: int|
                r.0 <= i < self.keys().len() ==> #[trigger] self.keys()[i] == key@ || key_lt::<K>(
                    key@,
                    self.keys()[i],
                ),
            !r.1 && r.0 < self.keys().len() ==> key_lt::<K>(key@, self.keys()[r.0 as int]),
    {
        let ghost keys = self.keys();
        let mut low: usize = 0;
        let mut high: usize = self.entries.len();
        while low < high
            invariant
                low <= high <= self.entries@.len(),
                self.wf(),
                keys == self.keys(),
                keys.len() == self.entries@.len(),
                forall|i: int| 0 <= i < low ==> key_lt::<K>(#[trigger] keys[i], key@),
                forall|i: int| high <= i < keys.len() ==> key_lt::<K>(key@, #[trigger] keys[i]),
            decreases high - low,
        {
            let mid: usize = low + (high - low) / 2;
            let ghost k = keys[mid as int];
            assert(k == self.entries@[mid as int].0@);
            proof {
                K::lemma_total(k, key@);
                K::lemma_total(key@, k);
            }
            match self.entries[mid].0.compare(key) {
                Order::Equal => {
                    assert forall|i: int| 0 <= i < mid implies key_lt::<K>(#[trigger] keys[i], key@) by {
                        assert(key_lt::<K>(keys[i], keys[mid as int]));
                    }
                    assert forall|i: int| mid <= i < keys.len() implies #[trigger] keys[i] == key@
                        || key_lt::<K>(key@, keys[i]) by {
                        if i > mid {
                            assert(key_lt::<K>(keys[mid as int], keys[i]));
                        }
                    }
                    return (mid, true);
                },
                Order::Less => {
                    assert forall|i: int| 0 <= i < mid + 1 implies key_lt::<K>(
                        #[trigger] keys[i],
                        key@,
                    ) by {
                        if i < mid {
                            assert(key_lt::<K>(keys[i], keys[mid as int]));
                            K::lemma_transitive(keys[i], k, key@);
                        }
                    }
                    low = mid + 1;
                },
                Order::Greater => {
                    assert forall|i: int| mid <= i < keys.len() implies key_lt::<K>(
                        key@,
                        #[trigger] keys[i],
                    ) by {
                        if i > mid {
                            assert(key_lt::<K>(keys[mid as int], keys[i]));
                            K::lemma_transitive(key@, k, keys[i]);
                        }
                    }
                    high = mid;
                },
            }
        }
        proof {
            if keys.contains(key@) {
                let i = keys.index_of(key@);
                K::lemma_total(key@, key@);
                assert(keys[i] == key@);
            }
        }
        (low, false)
    }

    /// The value of a key.
    pub fn get(&self, key: &K) -> (r: Option<&V>)
        requires
            self.wf(),
        ensures
            match r {
                Some(v) => self.map().dom().contains(key@) && *v == self.map()[key@],
                None => !self.map().dom().contains(key@),
            },
    {
        let (i, found) = self.search(key);
        if found {
            proof {
                self.lemma_position(i as int);
            }
            Some(&self.entries[i].1)
        } else {
            None
        }
    }

    /// Whether a key has a value.
    pub fn contains_key(&self, key: &K) -> (b: bool)
        requires
            self.wf(),
        ensures
            b == self.map().dom().contains(key@),
    {
        let (_, found) = self.search(key);
        found
    }

    /// Gives a key a value, and returns the one it had before.
    pub fn insert(&mut self, key: K, value: V) -> (r: Option<V>)
        requires
            old(self).wf(),
        ensures
            final(self).wf(),
            final(self).map() == old(self).map().insert(key@, value),
            final(self).keys().len() == old(self).keys().len() + (if r is None {
                1int
            } else {
                0
            }),
            match r {
                Some(v) => old(self).map().dom().contains(key@) && v == old(self).map()[key@],
                None => !old(self).map().dom().contains(key@),
            },
    {
        let ghost keys = self.keys();
        let ghost values = self.values();
        let (i, found) = self.search(&key);
        let ghost k = key@;
        if found {
            proof {
                self.lemma_position(i as int);
            }
            let mut entry = (key, value);
            std::mem::swap(&mut entry, &mut self.entries[i]);
            assert(self.keys() =~= keys);
            assert(self.values() =~= values.update(i as int, value));
            proof {
                lemma_map_update(*old(self), *self, i as int, k, value);
            }
            Some(entry.1)
        } else {
            self.entries.insert(i, (key, value));
            assert(self.keys() =~= keys.insert(i as int, k));
            assert(self.values() =~= values.insert(i as int, value));
            proof {
                lemma_insert_sorted::<K>(keys, i as int, k);
                lemma_map_insert(*old(self), *self, i as int, k, value);
            }
            None
        }
    }

    /// The keys with their values, in order.
    pub fn into_entries(self) -> (entries: Vec<(K, V)>)
        ensures
            entries@.len() == self.keys().len(),
            entries@.len() == self.values().len(),
            forall|i: int|
                0 <= i < entries@.len() ==> (#[trigger] entries@[i]).0@ == self.keys()[i]
                    && entries@[i].1 == self.values()[i],
    {
        self.entries
    }

    /// Takes a key and its value out.
    pub fn remove(&mut self, key: &K) -> (r: Option<V>)
        requires
            old(self).wf(),
        ensures
            final(self).wf(),
            final(self).map() == old(self).map().remove(key@),
            final(self).keys().len() == old(self).keys().len() - (if r is Some {
                1int
            } else {
                0
            }),
            match r {
                Some(v) => old(self).map().dom().contains(key@) && v == old(self).map()[key@],
                None => !old(self).map().dom().contains(key@),
            },
    {
        let ghost keys = self.keys();
        let ghost values = self.values();
        let (i, found) = self.search(key);
        if !found {
            assert(self.map().remove(key@) =~= self.map());
            return None;
        }
        proof {
            self.lemma_position(i as int);
        }
        let entry = self.entries.remove(i);
        assert(self.keys() =~= keys.remove(i as int));
        assert(self.values() =~= values.remove(i as int));
        proof {
            lemma_remove_sorted::<K>(keys, i as int);
            lemma_map_remove(*old(self), *self, i as int, key@);
        }
        Some(entry.1)
    }
}

proof fn lemma_insert_sorted<K: Key>(keys: Seq<K::V>, i: int, k: K::V)
    requires
        keys_sorted::<K>(keys),
        0 <= i <= keys.len(),
        forall|j: int| 0 <= j < i ==> key_lt::<K>(#[trigger] keys[j], k),
        forall|j: int| i <= j < keys.len() ==> key_lt::<K>(k, #[trigger] keys[j]),
    ensures
        keys_sorted::<K>(keys.insert(i, k)),
{
    let s = keys.insert(i, k);
    assert forall|a: int, b: int| 0 <= a < b < s.len() implies key_lt::<K>(
        #[trigger] s[a],
        #[trigger] s[b],
    ) by {
        let x = if a < i { a } else { a - 1 };
        let y = if b < i { b } else { b - 1 };
        if a != i {
            assert(s[a] == keys[x]);
        }
        if b != i {
            assert(s[b] == keys[y]);
        }
    }
}

proof fn lemma_remove_sorted<K: Key>(keys: Seq<K::V>, i: int)
    requires
        keys_sorted::<K>(keys),
        0 <= i < keys.len(),
    ensures
        keys_sorted::<K>(keys.remove(i)),
{
    let s = keys.remove(i);
    assert forall|a: int, b: int| 0 <= a < b < s.len() implies key_lt::<K>(
        #[trigger] s[a],
        #[trigger] s[b],
    ) by {
        let x = if a < i { a } else { a + 1 };
        let y = if b < i { b } else { b + 1 };
        assert(s[a] == keys[x]);
        assert(s[b] == keys[y]);
    }
}

proof fn lemma_map_update<K: Key, V>(old: SortedMap<K, V>, new: SortedMap<K, V>, i: int, k: K::V, v: V)
    requires
        old.wf(),
        0 <= i < old.keys().len(),
        old.keys()[i] == k,
        new.keys() == old.keys(),
        new.values() == old.values().update(i, v),
    ensures
        new.wf(),
        new.map() == old.map().insert(k, v),
{
    let a = new.map();
    let b = old.map().insert(k, v);
    assert forall|x: K::V| a.dom().contains(x) implies #[trigger] a[x] == b[x] by {
        let j = new.keys().index_of(x);
        new.lemma_position(j);
        old.lemma_position(j);
        new.lemma_position(i);
    }
    old.lemma_position(i);
    assert(a =~= b);
}

proof fn lemma_map_insert<K: Key, V>(old: SortedMap<K, V>, new: SortedMap<K, V>, i: int, k: K::V, v: V)
    requires
        old.wf(),
        new.wf(),
        0 <= i <= old.keys().len(),
        !old.keys().contains(k),
        new.keys() == old.keys().insert(i, k),
        new.values() == old.values().insert(i, v),
    ensures
        new.map() == old.map().insert(k, v),
{
    let a = new.map();
    let b = old.map().insert(k, v);
    assert forall|x: K::V| a.dom().contains(x) == b.dom().contains(x) by {
        if new.keys().contains(x) {
            let j = new.keys().index_of(x);
            if j != i {
                let y = if j < i { j } else { j - 1 };
                assert(old.keys()[y] == x);
            }
        }
        if old.keys().contains(x) {
            let j = old.keys().index_of(x);
            let y = if j < i { j } else { j + 1 };
            assert(new.keys()[y] == x);
        }
        if x == k {
            assert(new.keys()[i] == k);
        }
    }
    assert forall|x: K::V| a.dom().contains(x) implies #[trigger] a[x] == b[x] by {
        let j = new.keys().index_of(x);
        new.lemma_position(j);
        if j != i {
            let y = if j < i { j } else { j - 1 };
            old.lemma_position(y);
            assert(old.keys()[y] == x);
            new.lemma_position(i);
        }
    }
    assert(a =~= b);
}

proof fn lemma_map_remove<K: Key, V>(old: SortedMap<K, V>, new: SortedMap<K, V>, i: int, k: K::V)
    requires
        old.wf(),
        new.wf(),
        0 <= i < old.keys().len(),
        old.keys()[i] == k,
        new.keys() == old.keys().remove(i),
        new.values() == old.values().remove(i),
    ensures
        new.map() == old.map().remove(k),
{
    let a = new.map();
    let b = old.map().remove(k);
    assert forall|x: K::V| a.dom().contains(x) == b.dom().contains(x) by {
        if new.keys().contains(x) {
            let j = new.keys().index_of(x);
            let y = if j < i { j } else { j + 1 };
            assert(old.keys()[y] == x);
            old.lemma_position(y);
            old.lemma_position(i);
        }
        if old.keys().contains(x) && x != k {
            let j = old.keys().index_of(x);
            let y = if j < i { j } else { j - 1 };
            assert(new.keys()[y] == x);
        }
    }
    assert forall|x: K::V| a.dom().contains(x) implies #[trigger] a[x] == b[x] by {
        let j = new.keys().index_of(x);
        new.lemma_position(j);
        let y = if j < i { j } else { j + 1 };
        old.lemma_position(y);
        assert(old.keys()[y] == x);
    }
    assert(a =~= b);
}

/// A set of keys.
#[derive(Clone, Debug)]
pub struct SortedSet<K> {
    map: SortedMap<K, ()>,
}

impl<K: Key> SortedSet<K> {
    /// The members, in order.
    pub closed spec fn items(self) -> Seq<K::V> {
        self.map.keys()
    }

    pub closed spec fn wf(self) -> bool {
        self.map.wf()
    }

    /// The set as a mathematical one.
    pub open spec fn set(self) -> Set<K::V> {
        self.items().to_set()
    }

    /// The members strictly increase.
    pub proof fn lemma_sorted(self)
        requires
            self.wf(),
        ensures
            keys_sorted::<K>(self.items()),
    {
    }

    /// No member occurs twice.
    pub proof fn lemma_count(self)
        requires
            self.wf(),
        ensures
            self.set().finite(),
            self.set().len() == self.items().len(),
    {
        let items = self.items();
        assert forall|i: int, j: int| 0 <= i < j < items.len() implies items[i] != items[j] by {
            K::lemma_total(items[i], items[j]);
        }
        items.unique_seq_to_set();
    }

    pub fn new() -> (s: SortedSet<K>)
        ensures
            s.wf(),
            s.items().len() == 0,
            s.set() == Set::<K::V>::empty(),
    {
        let s = SortedSet { map: SortedMap::new() };
        assert(s.set() =~= Set::<K::V>::empty());
        s
    }

    pub fn len(&self) -> (n: usize)
        ensures
            n == self.items().len(),
    {
        self.map.len()
    }

    /// The member at a position of the order.
    pub fn item_at(&self, i: usize) -> (item: &K)
        requires
            i < self.items().len(),
        ensures
            item@ == self.items()[i as int],
    {
        self.map.key_at(i)
    }

    pub fn contains(&self, item: &K) -> (b: bool)
        requires
            self.wf(),
        ensures
            b == self.set().contains(item@),
    {
        self.map.contains_key(item)
    }

    /// Puts a key in; says whether it was not there before.
    pub fn insert(&mut self, item: K) -> (fresh: bool)
        requires
            old(self).wf(),
        ensures
            final(self).wf(),
            final(self).set() == old(self).set().insert(item@),
            final(self).items().len() == old(self).items().len() + (if fresh {
                1int
            } else {
                0
            }),
            fresh == !old(self).set().contains(item@),
    {
        let ghost before = self.map.map();
        let ghost k = item@;
        let r = self.map.insert(item, ());
        assert forall|x: K::V| #[trigger] self.set().contains(x) == old(self).set().insert(
            k,
        ).contains(x) by {
            assert(self.map.map().dom().contains(x) == before.insert(k, ()).dom().contains(x));
        }
        assert(self.set() =~= old(self).set().insert(k));
        r.is_none()
    }

    /// Takes a key out; says whether it was there.
    pub fn remove(&mut self, item: &K) -> (there: bool)
        requires
            old(self).wf(),
        ensures
            final(self).wf(),
            final(self).set() == old(self).set().remove(item@),
            final(self).items().len() == old(self).items().len() - (if there {
                1int
            } else {
                0
            }),
            there == old(self).set().contains(item@),
    {
        let ghost before = self.map.map();
        let r = self.map.remove(item);
        assert forall|x: K::V| #[trigger] self.set().contains(x) == old(self).set().remove(
            item@,
        ).contains(x) by {
            assert(self.map.map().dom().contains(x) == before.remove(item@).dom().contains(x));
        }
        assert(self.set() =~= old(self).set().remove(item@));
        assert(before.dom().contains(item@) == old(self).set().contains(item@));
        r.is_some()
    }
}

impl Key for Vec<u8> {
    open spec fn order(a: Seq<u8>, b: Seq<u8>) -> Order {
        order::lex_order(a, b)
    }

    proof fn lemma_total(a: Seq<u8>, b: Seq<u8>) {
        order::lemma_lex_total(a, b);
    }

    proof fn lemma_transitive(a: Seq<u8>, b: Seq<u8>, c: Seq<u8>) {
        order::lemma_lex_transitive(a, b, c);
        order::lemma_lex_irreflexive(a);
    }

    fn compare(&self, other: &Vec<u8>) -> (o: Order) {
        compare_bytes(self.as_slice(), other.as_slice())
    }
}

impl Key for Id {
    open spec fn order(a: IdView, b: IdView) -> Order {
        value::id_order(a, b)
    }

    proof fn lemma_total(a: IdView, b: IdView) {
        value::lemma_ids_total(a, b);
        assert(<Id as Key>::order(a, b) == value::id_order(a, b));
        assert(<Id as Key>::order(b, a) == value::id_order(b, a));
    }

    proof fn lemma_transitive(a: IdView, b: IdView, c: IdView) {
        match (a, b, c) {
            (IdView::Uuid(x), IdView::Uuid(y), IdView::Uuid(z)) => {
                order::lemma_lex_transitive(x, y, z);
                order::lemma_lex_irreflexive(x);
            },
            (IdView::String(x), IdView::String(y), IdView::String(z)) => {
                textmap::lemma_text_transitive(x, y, z);
                textmap::lemma_text_total(x, z);
            },
            _ => {},
        }
    }

    fn compare(&self, other: &Id) -> (o: Order) {
        compare_ids(self, other)
    }
}

impl Key for u32 {
    open spec fn order(a: u32, b: u32) -> Order {
        if a < b {
            Order::Less
        } else if a == b {
            Order::Equal
        } else {
            Order::Greater
        }
    }

    proof fn lemma_total(a: u32, b: u32) {
    }

    proof fn lemma_transitive(a: u32, b: u32, c: u32) {
    }

    fn compare(&self, other: &u32) -> (o: Order) {
        if *self < *other {
            Order::Less
        } else if *self == *other {
            Order::Equal
        } else {
            Order::Greater
        }
    }
}

} // verus!
