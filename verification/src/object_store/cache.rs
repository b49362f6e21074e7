//! A cache of immutable objects, bounded in bytes, that drops what was used the
//! longest ago.

use vstd::prelude::*;
use vstd::string::*;

use crate::indexer;
use crate::namespace;
use crate::strings;
use crate::seqs;
use crate::metrics::CacheMetrics;
use crate::strings::{contains, same_text, starts_with};

verus! {

/// What a cache holds and has done.
#[derive(Clone, Copy, Debug, PartialEq, Eq, Structural)]
pub struct CacheStats {
    pub capacity_bytes: usize,
    pub resident_bytes: usize,
    pub entries: usize,
    pub hits: u64,
    pub misses: u64,
    pub bypasses: u64,
    pub evictions: u64,
    pub admission_rejections: u64,
}

impl CacheStats {
    /// The numbers as the registry of metrics holds them.
    pub fn metrics(&self) -> (m: CacheMetrics)
        ensures
            m.hits == self.hits,
            m.misses == self.misses,
            m.bypasses == self.bypasses,
            m.evictions == self.evictions,
            m.admission_rejections == self.admission_rejections,
            m.capacity_bytes == self.capacity_bytes,
            m.resident_bytes == self.resident_bytes,
            m.entries == self.entries,
    {
        CacheMetrics {
            hits: self.hits,
            misses: self.misses,
            bypasses: self.bypasses,
            evictions: self.evictions,
            admission_rejections: self.admission_rejections,
            capacity_bytes: self.capacity_bytes as u64,
            resident_bytes: self.resident_bytes as u64,
            entries: self.entries as u64,
        }
    }
}

/// An object in the cache.
pub struct CacheEntry<T> {
    key: String,
    object: T,
    size: usize,
    last_access: u64,
}

/// What an entry stands for.
pub struct EntryView<T> {
    pub key: Seq<char>,
    pub object: T,
    pub size: usize,
    pub last_access: u64,
}

/// The cache. Objects are of any type; the caller says how large each is.
pub struct CacheState<T> {
    entries: Vec<CacheEntry<T>>,
    capacity_bytes: usize,
    resident_bytes: usize,
    clock: u64,
    hits: u64,
    misses: u64,
    bypasses: u64,
    evictions: u64,
    admission_rejections: u64,
}

/// How many bytes entries have together.
pub open spec fn total_bytes<T>(entries: Seq<EntryView<T>>) -> nat
    decreases entries.len(),
{
    if entries.len() == 0 {
        0
    } else {
        total_bytes(entries.drop_last()) + entries.last().size as nat
    }
}

/// No key occurs twice.
pub open spec fn keys_distinct<T>(entries: Seq<EntryView<T>>) -> bool {
    forall|i: int, j: int|
        0 <= i < j < entries.len() ==> (#[trigger] entries[i]).key != (#[trigger] entries[j]).key
}

/// Where a key is; the number of entries if it is not there.
pub open spec fn position_of<T>(entries: Seq<EntryView<T>>, key: Seq<char>) -> int {
    seqs::first_where(entries, |e: EntryView<T>| e.key == key)
}

/// Entries without a key.
pub open spec fn without<T>(entries: Seq<EntryView<T>>, key: Seq<char>) -> Seq<EntryView<T>> {
    let i = position_of(entries, key);
    if i < entries.len() {
        entries.remove(i)
    } else {
        entries
    }
}

/// An entry used no later than any other, and the first such.
pub open spec fn is_oldest<T>(entries: Seq<EntryView<T>>, k: int) -> bool {
    &&& 0 <= k < entries.len()
    &&& forall|j: int|
        0 <= j < entries.len() ==> entries[k].last_access <= (#[trigger] entries[j]).last_access
    &&& forall|j: int| 0 <= j < k ==> entries[k].last_access < (#[trigger] entries[j]).last_access
}

/// Entries with the oldest dropped, one by one, until there is room for `size` more
/// bytes.
pub open spec fn shrunk<T>(entries: Seq<EntryView<T>>, capacity: nat, size: nat) -> Seq<EntryView<T>>
    decreases entries.len(),
{
    if entries.len() == 0 || total_bytes(entries) + size <= capacity {
        entries
    } else {
        let k = choose|k: int| is_oldest(entries, k);
        if 0 <= k < entries.len() {
            shrunk(entries.remove(k), capacity, size)
        } else {
            entries
        }
    }
}

proof fn lemma_oldest_unique<T>(entries: Seq<EntryView<T>>, a: int, b: int)
    requires
        is_oldest(entries, a),
        is_oldest(entries, b),
    ensures
        a == b,
{
    assert(entries[a].last_access <= entries[b].last_access);
    assert(entries[b].last_access <= entries[a].last_access);
}

proof fn lemma_total_remove<T>(entries: Seq<EntryView<T>>, k: int)
    requires
        0 <= k < entries.len(),
    ensures
        total_bytes(entries.remove(k)) == total_bytes(entries) - entries[k].size,
        total_bytes(entries) >= entries[k].size,
    decreases entries.len(),
{
    let rest = entries.remove(k);
    if k == entries.len() - 1 {
        assert(rest =~= entries.drop_last());
    } else {
        lemma_total_remove(entries.drop_last(), k);
        assert(rest.drop_last() =~= entries.drop_last().remove(k));
        assert(rest.last() == entries.last());
    }
}

proof fn lemma_remove_distinct<T>(entries: Seq<EntryView<T>>, k: int)
    requires
        keys_distinct(entries),
        0 <= k < entries.len(),
    ensures
        keys_distinct(entries.remove(k)),
        forall|i: int|
            0 <= i < entries.remove(k).len() ==> (#[trigger] entries.remove(k)[i]).key
                != entries[k].key,
{
    let rest = entries.remove(k);
    assert forall|i: int| 0 <= i < rest.len() implies (#[trigger] rest[i]).key != entries[k].key by {
        let x = if i < k {
            i
        } else {
            i + 1
        };
        assert(rest[i] == entries[x]);
    }
    assert forall|i: int, j: int| 0 <= i < j < rest.len() implies (#[trigger] rest[i]).key != (
    #[trigger] rest[j]).key by {
        let x = if i < k {
            i
        } else {
            i + 1
        };
        let y = if j < k {
            j
        } else {
            j + 1
        };
        assert(rest[i] == entries[x]);
        assert(rest[j] == entries[y]);
    }
}

impl<T> CacheEntry<T> {
    pub closed spec fn view(self) -> EntryView<T> {
        EntryView {
            key: self.key@,
            object: self.object,
            size: self.size,
            last_access: self.last_access,
        }
    }
}

impl<T> CacheState<T> {
    /// The entries.
    pub closed spec fn entries(self) -> Seq<EntryView<T>> {
        Seq::new(self.entries@.len(), |i: int| self.entries@[i].view())
    }

    pub closed spec fn capacity(self) -> usize {
        self.capacity_bytes
    }

    pub closed spec fn clock(self) -> u64 {
        self.clock
    }

    /// What the cache holds and has done.
    pub closed spec fn totals(self) -> CacheStats {
        CacheStats {
            capacity_bytes: self.capacity_bytes,
            resident_bytes: self.resident_bytes,
            entries: self.entries@.len() as usize,
            hits: self.hits,
            misses: self.misses,
            bypasses: self.bypasses,
            evictions: self.evictions,
            admission_rejections: self.admission_rejections,
        }
    }

    /// No key is there twice, the bytes are counted right, and they fit the
    /// capacity.
    pub closed spec fn wf(self) -> bool {
        &&& keys_distinct(self.entries())
        &&& self.resident_bytes == total_bytes(self.entries())
        &&& self.resident_bytes <= self.capacity_bytes
    }

    pub fn new(capacity_bytes: usize) -> (c: CacheState<T>)
        ensures
            c.wf(),
            c.capacity() == capacity_bytes,
            c.entries() == Seq::<EntryView<T>>::empty(),
            c.totals() == (CacheStats {
                capacity_bytes,
                resident_bytes: 0,
                entries: 0,
                hits: 0,
                misses: 0,
                bypasses: 0,
                evictions: 0,
                admission_rejections: 0,
            }),
    {
        let c = CacheState {
            entries: Vec::new(),
            capacity_bytes,
            resident_bytes: 0,
            clock: 0,
            hits: 0,
            misses: 0,
            bypasses: 0,
            evictions: 0,
            admission_rejections: 0,
        };
        assert(c.entries() =~= Seq::empty());
        c
    }

    fn find(&self, key: &str) -> (k: usize)
        ensures
            k == position_of(self.entries(), key@),
            k <= self.entries().len(),
            k < self.entries().len() ==> self.entries()[k as int].key == key@,
    {
        let ghost all = self.entries();
        let ghost p = |e: EntryView<T>| e.key == key@;
        let mut k: usize = 0;
        while k < self.entries.len()
            invariant
                k <= self.entries@.len(),
                all == self.entries(),
                all.len() == self.entries@.len(),
                p == (|e: EntryView<T>| e.key == key@),
                forall|j: int| 0 <= j < k ==> !p(#[trigger] all[j]),
            decreases self.entries@.len() - k,
        {
            assert(all[k as int] == self.entries@[k as int].view());
            if same_text(self.entries[k].key.as_str(), key) {
                proof {
                    seqs::lemma_first_is(all, p, k as int);
                }
                return k;
            }
            k = k + 1;
        }
        proof {
            seqs::lemma_first_is(all, p, k as int);
        }
        k
    }

    /// Looks an object up, and marks it as used.
    pub fn get(&mut self, key: &str) -> (r: Option<&T>)
        requires
            old(self).wf(),
        ensures
            final(self).wf(),
            final(self).capacity() == old(self).capacity(),
            final(self).clock() == old(self).clock().wrapping_add(1),
            ({
                let all = old(self).entries();
                let k = position_of(all, key@);
                if k < all.len() {
                    &&& r is Some
                    &&& *r->Some_0 == all[k].object
                    &&& final(self).entries() == all.update(
                        k,
                        EntryView { last_access: final(self).clock(), ..all[k] },
                    )
                    &&& final(self).totals() == (CacheStats {
                        hits: old(self).totals().hits.wrapping_add(1),
                        ..old(self).totals()
                    })
                } else {
                    &&& r is None
                    &&& final(self).entries() == all
                    &&& final(self).totals() == old(self).totals()
                }
            }),
    {
        let ghost all = self.entries();
        let k = self.find(key);
        self.clock = self.clock.wrapping_add(1);
        assert(self.entries() =~= all);
        if k < self.entries.len() {
            let tick: u64 = self.clock;
            self.entries[k].last_access = tick;
            self.hits = self.hits.wrapping_add(1);
            proof {
                assert(self.entries() =~= all.update(
                    k as int,
                    EntryView { last_access: tick, ..all[k as int] },
                ));
                lemma_touched(all, k as int, tick);
            }
            Some(&self.entries[k].object)
        } else {
            None
        }
    }

    pub fn record_miss(&mut self)
        requires
            old(self).wf(),
        ensures
            final(self).wf(),
            final(self).entries() == old(self).entries(),
            final(self).clock() == old(self).clock(),
            final(self).totals() == (CacheStats {
                misses: old(self).totals().misses.wrapping_add(1),
                ..old(self).totals()
            }),
    {
        self.misses = self.misses.wrapping_add(1);
        assert(self.entries() =~= old(self).entries());
    }

    pub fn record_bypass(&mut self)
        requires
            old(self).wf(),
        ensures
            final(self).wf(),
            final(self).entries() == old(self).entries(),
            final(self).clock() == old(self).clock(),
            final(self).totals() == (CacheStats {
                bypasses: old(self).totals().bypasses.wrapping_add(1),
                ..old(self).totals()
            }),
    {
        self.bypasses = self.bypasses.wrapping_add(1);
        assert(self.entries() =~= old(self).entries());
    }

    fn remove_at(&mut self, k: usize)
        requires
            old(self).wf(),
            k < old(self).entries().len(),
        ensures
            final(self).wf(),
            final(self).capacity() == old(self).capacity(),
            final(self).clock() == old(self).clock(),
            final(self).entries() == old(self).entries().remove(k as int),
            final(self).totals() == (CacheStats {
                resident_bytes: total_bytes(final(self).entries()) as usize,
                entries: final(self).entries().len() as usize,
                ..old(self).totals()
            }),
    {
        let ghost all = self.entries();
        proof {
            lemma_total_remove(all, k as int);
            lemma_remove_distinct(all, k as int);
            assert(all[k as int] == self.entries@[k as int].view());
        }
        let entry = self.entries.remove(k);
        self.resident_bytes = self.resident_bytes - entry.size;
        assert(self.entries() =~= all.remove(k as int));
    }

    /// Drops an object.
    pub fn invalidate(&mut self, key: &str)
        requires
            old(self).wf(),
        ensures
            final(self).wf(),
            final(self).capacity() == old(self).capacity(),
            final(self).clock() == old(self).clock(),
            final(self).entries() == without(old(self).entries(), key@),
            final(self).totals() == (CacheStats {
                resident_bytes: total_bytes(final(self).entries()) as usize,
                entries: final(self).entries().len() as usize,
                ..old(self).totals()
            }),
    {
        let k = self.find(key);
        if k < self.entries.len() {
            self.remove_at(k);
        }
    }

    fn oldest(&self) -> (k: usize)
        requires
            self.entries().len() > 0,
        ensures
            is_oldest(self.entries(), k as int),
    {
        let ghost all = self.entries();
        let mut k: usize = 0;
        let mut i: usize = 1;
        while i < self.entries.len()
            invariant
                all == self.entries(),
                all.len() == self.entries@.len(),
                k < i <= all.len(),
                forall|j: int| 0 <= j < all.len() ==> #[trigger] all[j] == self.entries@[j].view(),
                forall|j: int|
                    0 <= j < i ==> all[k as int].last_access <= (#[trigger] all[j]).last_access,
                forall|j: int|
                    0 <= j < k ==> all[k as int].last_access < (#[trigger] all[j]).last_access,
            decreases all.len() - i,
        {
            assert(all[i as int] == self.entries@[i as int].view());
            assert(all[k as int] == self.entries@[k as int].view());
            if self.entries[i].last_access < self.entries[k].last_access {
                k = i;
            }
            i = i + 1;
        }
        k
    }

    /// Puts an object in. One larger than the cache is not admitted; for any other,
    /// those used the longest ago make room.
    pub fn insert(&mut self, key: String, object: T, size: usize)
        requires
            old(self).wf(),
        ensures
            final(self).wf(),
            final(self).capacity() == old(self).capacity(),
            ({
                let rest = without(old(self).entries(), key@);
                let before = old(self).totals();
                let after = final(self).totals();
                &&& after.resident_bytes == total_bytes(final(self).entries())
                &&& after.entries == final(self).entries().len() as usize
                &&& after.hits == before.hits
                &&& after.misses == before.misses
                &&& after.bypasses == before.bypasses
                &&& if size > old(self).capacity() {
                    &&& final(self).entries() == rest
                    &&& after.evictions == before.evictions
                    &&& after.admission_rejections == before.admission_rejections.wrapping_add(1)
                } else {
                    let room = shrunk(rest, old(self).capacity() as nat, size as nat);
                    &&& final(self).clock() == old(self).clock().wrapping_add(1)
                    &&& final(self).entries() == room.push(
                        EntryView { key: key@, object, size, last_access: final(self).clock() },
                    )
                    &&& after.admission_rejections == before.admission_rejections
                    &&& before.evictions + (rest.len() - room.len()) <= u64::MAX
                        ==> after.evictions == before.evictions + (rest.len() - room.len())
                }
            }),
    {
        let ghost k0 = key@;
        self.invalidate(key.as_str());
        let ghost rest = self.entries();
        proof {
            lemma_without(old(self).entries(), k0);
        }
        if size > self.capacity_bytes {
            self.admission_rejections = self.admission_rejections.wrapping_add(1);
            assert(self.entries() =~= rest);
            return;
        }
        while self.entries.len() > 0 && self.resident_bytes > self.capacity_bytes - size
            invariant
                self.wf(),
                self.capacity_bytes == old(self).capacity_bytes,
                size <= self.capacity_bytes,
                self.clock == old(self).clock,
                self.hits == old(self).hits,
                self.misses == old(self).misses,
                self.bypasses == old(self).bypasses,
                self.admission_rejections == old(self).admission_rejections,
                self.entries().len() <= rest.len(),
                old(self).evictions + (rest.len() - self.entries().len()) <= u64::MAX
                    ==> self.evictions == old(self).evictions + (rest.len()
                    - self.entries().len()),
                forall|i: int|
                    0 <= i < self.entries().len() ==> (#[trigger] self.entries()[i]).key != k0,
                shrunk(rest, self.capacity_bytes as nat, size as nat) == shrunk(
                    self.entries(),
                    self.capacity_bytes as nat,
                    size as nat,
                ),
            decreases self.entries@.len(),
        {
            let ghost before = self.entries();
            let victim = self.oldest();
            proof {
                let k = choose|k: int| is_oldest(before, k);
                lemma_oldest_unique(before, k, victim as int);
            }
            self.remove_at(victim);
            self.evictions = self.evictions.wrapping_add(1);
            proof {
                assert(self.entries() =~= before.remove(victim as int));
                assert forall|i: int| 0 <= i < self.entries().len() implies (
                #[trigger] self.entries()[i]).key != k0 by {
                    let x = if i < victim {
                        i
                    } else {
                        i + 1
                    };
                    assert(self.entries()[i] == before[x]);
                }
            }
        }
        let ghost room = self.entries();
        assert(shrunk(rest, self.capacity_bytes as nat, size as nat) == room);
        self.clock = self.clock.wrapping_add(1);
        proof {
            if room.len() == 0 {
                assert(total_bytes(room) == 0);
            }
        }
        self.resident_bytes = self.resident_bytes + size;
        let entry = CacheEntry { key, object, size, last_access: self.clock };
        let ghost e = entry.view();
        self.entries.push(entry);
        proof {
            assert(self.entries() =~= room.push(e));
            assert(room.push(e).drop_last() =~= room);
            assert forall|i: int, j: int| 0 <= i < j < room.push(e).len() implies (
            #[trigger] room.push(e)[i]).key != (#[trigger] room.push(e)[j]).key by {
                if j == room.len() {
                    assert(room.push(e)[i] == room[i]);
                } else {
                    assert(room.push(e)[i] == room[i]);
                    assert(room.push(e)[j] == room[j]);
                }
            }
        }
    }

    pub fn stats(&self) -> (s: CacheStats)
        requires
            self.wf(),
        ensures
            s == self.totals(),
            s.entries == self.entries().len(),
            s.resident_bytes == total_bytes(self.entries()),
            s.resident_bytes <= s.capacity_bytes,
            s.capacity_bytes == self.capacity(),
    {
        CacheStats {
            capacity_bytes: self.capacity_bytes,
            resident_bytes: self.resident_bytes,
            entries: self.entries.len(),
            hits: self.hits,
            misses: self.misses,
            bypasses: self.bypasses,
            evictions: self.evictions,
            admission_rejections: self.admission_rejections,
        }
    }

    /// Drops every object.
    pub fn clear(&mut self)
        requires
            old(self).wf(),
        ensures
            final(self).wf(),
            final(self).entries() == Seq::<EntryView<T>>::empty(),
            final(self).totals() == (CacheStats {
                resident_bytes: 0,
                entries: 0,
                ..old(self).totals()
            }),
    {
        self.entries.clear();
        self.resident_bytes = 0;
        assert(self.entries() =~= Seq::empty());
    }
}

proof fn lemma_without<T>(entries: Seq<EntryView<T>>, key: Seq<char>)
    requires
        keys_distinct(entries),
    ensures
        forall|i: int|
            0 <= i < without(entries, key).len() ==> (#[trigger] without(entries, key)[i]).key
                != key,
{
    let p = |e: EntryView<T>| e.key == key;
    seqs::lemma_first_where(entries, p);
    let k = position_of(entries, key);
    if k < entries.len() {
        lemma_remove_distinct(entries, k);
    } else {
        assert forall|i: int| 0 <= i < entries.len() implies (#[trigger] entries[i]).key != key by {
            assert(!p(entries[i]));
        }
    }
}

proof fn lemma_touched<T>(entries: Seq<EntryView<T>>, k: int, tick: u64)
    requires
        keys_distinct(entries),
        0 <= k < entries.len(),
    ensures
        keys_distinct(entries.update(k, EntryView { last_access: tick, ..entries[k] })),
        total_bytes(entries.update(k, EntryView { last_access: tick, ..entries[k] }))
            == total_bytes(entries),
    decreases entries.len(),
{
    let now = entries.update(k, EntryView { last_access: tick, ..entries[k] });
    assert forall|i: int, j: int| 0 <= i < j < now.len() implies (#[trigger] now[i]).key != (
    #[trigger] now[j]).key by {
        assert(now[i].key == entries[i].key);
        assert(now[j].key == entries[j].key);
    }
    if k < entries.len() - 1 {
        lemma_touched(entries.drop_last(), k, tick);
        assert(now.drop_last() =~= entries.drop_last().update(
            k,
            EntryView { last_access: tick, ..entries.drop_last()[k] },
        ));
    } else {
        assert(now.drop_last() =~= entries.drop_last());
    }
}

/// The keys of immutable objects: manifest bodies and indexes of a namespace.
/// Pointers, commit cursors and queue files change under one key and are never
/// cached.
pub open spec fn cacheable(key: Seq<char>) -> bool {
    strings::has_prefix(key, "namespaces/"@) && (strings::occurs_in(key, "/manifest/g/"@) || strings::occurs_in(
        key,
        "/index/g/"@,
    ))
}

/// Whether the object under a key may be cached.
pub fn is_cacheable(key: &str) -> (b: bool)
    ensures
        b == cacheable(key@),
{
    starts_with(key, "namespaces/") && (contains(key, "/manifest/g/") || contains(
        key,
        "/index/g/",
    ))
}

/// A key is found where it is, so what was put in under a key is what is looked up
/// under it.
pub proof fn law_cached_object_is_found<T>(entries: Seq<EntryView<T>>, i: int)
    requires
        keys_distinct(entries),
        0 <= i < entries.len(),
    ensures
        position_of(entries, entries[i].key) == i,
{
    let p = |e: EntryView<T>| e.key == entries[i].key;
    assert forall|j: int| 0 <= j < i implies !p(#[trigger] entries[j]) by {
        assert(entries[j].key != entries[i].key);
    }
    seqs::lemma_first_is(entries, p, i);
}

/// The pointer to the current manifest of a namespace and its commit cursor change
/// under one key, and are never cached.
pub proof fn law_pointers_are_not_cached(ns: Seq<char>)
    requires
        namespace::is_namespace_name(ns),
    ensures
        !cacheable(namespace::namespace_key(ns, "/manifest/current"@)),
        !cacheable(namespace::namespace_key(ns, "/wal_commit/current"@)),
{
    reveal_strlit("namespaces/");
    reveal_strlit("/manifest/current");
    reveal_strlit("/wal_commit/current");
    reveal_strlit("/manifest/g/");
    reveal_strlit("/index/g/");
    lemma_no_generation(ns, "/manifest/current"@, 9);
    lemma_no_generation(ns, "/wal_commit/current"@, 11);
}

/// Below a namespace, a name of two segments has no part between two slashes that
/// is one character long and follows another slash.
proof fn lemma_no_generation(ns: Seq<char>, rest: Seq<char>, second: int)
    requires
        namespace::is_namespace_name(ns),
        8 < second < rest.len(),
        rest[0] == '/',
        forall|i: int| 0 <= i < rest.len() ==> (#[trigger] rest[i] == '/' <==> (i == 0 || i == second)),
    ensures
        !cacheable(namespace::namespace_key(ns, rest)),
{
    reveal_strlit("namespaces/");
    reveal_strlit("/manifest/g/");
    reveal_strlit("/index/g/");
    let s = namespace::namespace_key(ns, rest);
    let n = ns.len() as int;
    assert forall|i: int| 0 <= i < s.len() && #[trigger] s[i] == '/' implies i == 10 || i == 11 + n
        || i == 11 + n + second by {
        if i < 11 {
            assert(s[i] == "namespaces/"@[i]);
        } else if i < 11 + n {
            assert(s[i] == ns[i - 11]);
            assert(namespace::is_name_char(ns[i - 11]));
        } else {
            assert(s[i] == rest[i - 11 - n]);
        }
    }
    assert forall|i: int| !#[trigger] strings::occurs_at(s, "/manifest/g/"@, i) by {
        if strings::occurs_at(s, "/manifest/g/"@, i) {
            let part = s.subrange(i, i + 12);
            assert(part[0] == '/' && part[9] == '/' && part[11] == '/');
            assert(s[i] == '/' && s[i + 9] == '/' && s[i + 11] == '/');
        }
    }
    assert forall|i: int| !#[trigger] strings::occurs_at(s, "/index/g/"@, i) by {
        if strings::occurs_at(s, "/index/g/"@, i) {
            let part = s.subrange(i, i + 9);
            assert(part[0] == '/' && part[6] == '/' && part[8] == '/');
            assert(s[i] == '/' && s[i + 6] == '/' && s[i + 8] == '/');
        }
    }
}

/// Making room drops what was used the longest ago, and no more than is needed: whatever
/// stays was used no earlier than what goes, all that stays fits with what is to come, and
/// with one of those that went it would not have. Nothing goes where there is room.
pub proof fn law_oldest_make_room<T>(entries: Seq<EntryView<T>>, capacity: nat, size: nat)
    requires
        size <= capacity,
    ensures
        ({
            let left = shrunk(entries, capacity, size);
            &&& total_bytes(left) + size <= capacity
            &&& total_bytes(entries) + size <= capacity ==> left == entries
            &&& forall|e: EntryView<T>| #[trigger] left.contains(e) ==> entries.contains(e)
            &&& forall|e: EntryView<T>, g: EntryView<T>|
                left.contains(e) && entries.contains(g) && !left.contains(g)
                    ==> #[trigger] g.last_access <= #[trigger] e.last_access
            &&& left != entries ==> exists|g: EntryView<T>|
                #![trigger entries.contains(g)]
                entries.contains(g) && total_bytes(left) + g.size + size > capacity
        }),
    decreases entries.len(),
{
    if entries.len() > 0 && total_bytes(entries) + size > capacity {
        lemma_some_oldest(entries);
        let k = choose|k: int| is_oldest(entries, k);
        let rest = entries.remove(k);
        law_oldest_make_room(rest, capacity, size);
        lemma_total_remove(entries, k);
        let left = shrunk(entries, capacity, size);
        assert(left == shrunk(rest, capacity, size));
        assert forall|e: EntryView<T>| #[trigger] rest.contains(e) implies entries.contains(e) by {
            let i = rest.index_of(e);
            if i < k {
                assert(entries[i] == e);
            } else {
                assert(entries[i + 1] == e);
            }
        }
        assert forall|e: EntryView<T>, g: EntryView<T>|
            left.contains(e) && entries.contains(g) && !left.contains(g) implies
            #[trigger] g.last_access <= #[trigger] e.last_access by {
            assert(rest.contains(e));
            assert(entries.contains(e));
            let i = entries.index_of(g);
            if i == k {
                let m = entries.index_of(e);
                assert(entries[m] == e);
            } else {
                if i < k {
                    assert(rest[i] == g);
                } else {
                    assert(rest[i - 1] == g);
                }
                assert(rest.contains(g));
            }
        }
        if left == rest {
            assert(entries.contains(entries[k]));
            assert(total_bytes(left) + entries[k].size + size > capacity);
        } else {
            let g = choose|g: EntryView<T>|
                #![trigger rest.contains(g)]
                rest.contains(g) && total_bytes(left) + g.size + size > capacity;
            assert(entries.contains(g));
        }
    }
}

proof fn lemma_some_oldest<T>(entries: Seq<EntryView<T>>)
    requires
        entries.len() > 0,
    ensures
        exists|k: int| is_oldest(entries, k),
    decreases entries.len(),
{
    if entries.len() == 1 {
        assert(is_oldest(entries, 0));
    } else {
        let front = entries.drop_last();
        lemma_some_oldest(front);
        let k = choose|k: int| is_oldest(front, k);
        let n = entries.len() - 1;
        if entries[n].last_access < front[k].last_access {
            assert forall|j: int| 0 <= j < entries.len() implies entries[n].last_access <= (
            #[trigger] entries[j]).last_access by {
                if j < n {
                    assert(front[j] == entries[j]);
                }
            }
            assert forall|j: int| 0 <= j < n implies entries[n].last_access < (
            #[trigger] entries[j]).last_access by {
                assert(front[j] == entries[j]);
            }
            assert(is_oldest(entries, n));
        } else {
            assert forall|j: int| 0 <= j < entries.len() implies entries[k].last_access <= (
            #[trigger] entries[j]).last_access by {
                if j < n {
                    assert(front[j] == entries[j]);
                }
            }
            assert forall|j: int| 0 <= j < k implies entries[k].last_access < (
            #[trigger] entries[j]).last_access by {
                assert(front[j] == entries[j]);
            }
            assert(is_oldest(entries, k));
        }
    }
}

/// Dropping a key takes exactly its object away, and the bytes of the others are what
/// they were.
pub proof fn law_dropped_object_is_gone<T>(entries: Seq<EntryView<T>>, key: Seq<char>, e: EntryView<T>)
    requires
        keys_distinct(entries),
    ensures
        without(entries, key).contains(e) <==> entries.contains(e) && e.key != key,
        total_bytes(without(entries, key)) <= total_bytes(entries),
        total_bytes(entries.push(e)) == total_bytes(entries) + e.size,
{
    let p = |x: EntryView<T>| x.key == key;
    seqs::lemma_first_where(entries, p);
    lemma_without(entries, key);
    let k = position_of(entries, key);
    let rest = without(entries, key);
    assert(entries.push(e).drop_last() =~= entries);
    if k < entries.len() {
        lemma_total_remove(entries, k);
        if entries.contains(e) && e.key != key {
            let i = entries.index_of(e);
            if i < k {
                assert(rest[i] == e);
            } else {
                assert(p(entries[k]));
                assert(rest[i - 1] == e);
            }
        }
        if rest.contains(e) {
            let i = rest.index_of(e);
            if i < k {
                assert(entries[i] == e);
            } else {
                assert(entries[i + 1] == e);
            }
        }
    }
}

/// What is written once is cached: the manifest of each generation, and each table.
pub proof fn law_what_stays_is_cached(ns: Seq<char>, generation: nat, seq: nat)
    ensures
        cacheable(namespace::manifest_body_name(ns, generation)),
        cacheable(indexer::flush_name(ns, generation, seq)),
        cacheable(indexer::compacted_name(ns, generation)),
{
    let head = "namespaces/"@;
    let digits = strings::decimal(generation);
    let body = namespace::manifest_body_name(ns, generation);
    assert(body =~= head + (ns + "/manifest/g/"@ + digits + ".json"@));
    assert(body =~= (head + ns) + "/manifest/g/"@ + (digits + ".json"@));
    strings::law_parts_make_up_the_text(body, head);
    strings::law_parts_make_up_the_text(body, "/manifest/g/"@);
    let table = indexer::flush_name(ns, generation, seq);
    let rest = digits + "/doc/flush-"@ + strings::decimal(seq) + ".sst"@;
    assert(table =~= head + (ns + "/index/g/"@ + rest));
    assert(table =~= (head + ns) + "/index/g/"@ + rest);
    strings::law_parts_make_up_the_text(table, head);
    strings::law_parts_make_up_the_text(table, "/index/g/"@);
    let merged = indexer::compacted_name(ns, generation);
    let end = digits + "/doc/compacted.sst"@;
    assert(merged =~= head + (ns + "/index/g/"@ + end));
    assert(merged =~= (head + ns) + "/index/g/"@ + end);
    strings::law_parts_make_up_the_text(merged, head);
    strings::law_parts_make_up_the_text(merged, "/index/g/"@);
}

} // verus!
