//! Which documents can meet a filter, from the attribute index.

use vstd::prelude::*;
use vstd::utf8::*;

use crate::attr;
use crate::attr::{all_ids, ids_for_eq, ids_for_range, BoundView};
use crate::error::Error;
use crate::query;
use crate::query::{range_bound_to_attr_bound, FilterExpr, FilterView};
use crate::query::native;
use crate::sorted::SortedSet;
use crate::sst::reader;
use crate::sst::writer;
use crate::sst::reader::{HandleView, SstReader};
use crate::value;
use crate::value::{copy_id, DocumentView, Id, IdView, ValueView};
use crate::vector::numbers;

verus! {

/// Stored lists can be handed to the function that reads them.
pub open spec fn can_decode<D: Fn(&Vec<u8>) -> Result<Vec<Id>, Error>>(decode: D) -> bool {
    forall|bytes: &Vec<u8>| #[trigger] call_requires(decode, (bytes,))
}

/// A stored list reads as these keys.
pub open spec fn reads_as<D: Fn(&Vec<u8>) -> Result<Vec<Id>, Error>>(
    decode: D,
    list: Seq<u8>,
    bytes: Vec<u8>,
    ids: Vec<Id>,
) -> bool {
    bytes@ == list && call_ensures(decode, (&bytes,), Ok::<Vec<Id>, Error>(ids))
}

/// A stored list holds these keys.
pub open spec fn list_holds<D: Fn(&Vec<u8>) -> Result<Vec<Id>, Error>>(
    decode: D,
    list: Seq<u8>,
    ids: Set<IdView>,
) -> bool {
    exists|bytes: Vec<u8>, read: Vec<Id>| #[trigger]
        reads_as(decode, list, bytes, read) && ids == numbers::ids_view(read@).to_set()
}

/// Stored lists hold these keys each.
pub open spec fn lists_hold_each<D: Fn(&Vec<u8>) -> Result<Vec<Id>, Error>>(
    decode: D,
    lists: Seq<Seq<u8>>,
    parts: Seq<Set<IdView>>,
) -> bool {
    &&& parts.len() == lists.len()
    &&& forall|i: int| 0 <= i < parts.len() ==> list_holds(decode, lists[i], #[trigger] parts[i])
}

/// Stored lists hold these keys together.
pub open spec fn lists_hold<D: Fn(&Vec<u8>) -> Result<Vec<Id>, Error>>(
    decode: D,
    lists: Seq<Seq<u8>>,
    ids: Set<IdView>,
) -> bool {
    exists|parts: Seq<Set<IdView>>| #[trigger]
        lists_hold_each(decode, lists, parts) && ids == in_any(parts)
}

/// A stored list cannot be read, for the reason `e`.
pub open spec fn unreadable<D: Fn(&Vec<u8>) -> Result<Vec<Id>, Error>>(
    decode: D,
    e: Error,
) -> bool {
    exists|bytes: Vec<u8>| #[trigger]
        call_ensures(decode, (&bytes,), Err::<Vec<Id>, Error>(e))
}

/// The lists of a range of values; `None` if the table is damaged.
pub open spec fn range_lists(
    data: Seq<u8>,
    index: Seq<HandleView>,
    column: Seq<char>,
    lower: Option<BoundView>,
    upper: Option<BoundView>,
) -> Option<Seq<Seq<u8>>> {
    match reader::blocks_entries(data, index) {
        None => None,
        Some(es) => attr::lists_taken(es, attr::column_prefix(column), lower, upper),
    }
}

/// The list under a key, as a sequence; `None` if the table is damaged.
pub open spec fn list_at(data: Seq<u8>, index: Seq<HandleView>, key: Seq<u8>) -> Option<
    Seq<Seq<u8>>,
> {
    match reader::table_get(data, index, key) {
        None => None,
        Some(None) => Some(Seq::empty()),
        Some(Some(list)) => Some(seq![list]),
    }
}

/// The lists of the values equal to a scalar; `None` if the table is damaged.
pub open spec fn eq_lists(
    data: Seq<u8>,
    index: Seq<HandleView>,
    column: Seq<char>,
    v: ValueView,
) -> Option<Seq<Seq<u8>>> {
    if v is Int || v is Float {
        let bound = Some(BoundView { value: v, inclusive: true });
        range_lists(data, index, column, bound, bound)
    } else {
        list_at(data, index, attr::attr_key_bytes(column, v))
    }
}

/// The index can answer a filter: it compares with scalars only.
pub open spec fn indexed(f: FilterView) -> bool
    decreases f,
{
    match f {
        FilterView::Eq { column, value } => attr::is_scalar(value),
        FilterView::Range { column, lower, upper } => native::bound_sortable(lower)
            && native::bound_sortable(upper),
        FilterView::And(fs) => forall|i: int| 0 <= i < fs.len() ==> indexed(#[trigger] fs[i]),
        FilterView::Or(fs) => forall|i: int| 0 <= i < fs.len() ==> indexed(#[trigger] fs[i]),
        FilterView::Not(f) => indexed(*f),
    }
}

/// What all of some sets have in common.
pub open spec fn in_all(parts: Seq<Set<IdView>>) -> Set<IdView> {
    Set::new(|id: IdView| forall|i: int| 0 <= i < parts.len() ==> (#[trigger] parts[i]).contains(id))
}

/// What some sets hold together.
pub open spec fn in_any(parts: Seq<Set<IdView>>) -> Set<IdView> {
    Set::new(|id: IdView| exists|i: int| 0 <= i < parts.len() && (#[trigger] parts[i]).contains(id))
}

/// The documents that can meet a filter: those listed under the values that it
/// asks for, intersected, united, or taken from all documents.
pub open spec fn are_candidates<D: Fn(&Vec<u8>) -> Result<Vec<Id>, Error>>(
    decode: D,
    data: Seq<u8>,
    index: Seq<HandleView>,
    f: FilterView,
    ids: Set<IdView>,
) -> bool
    decreases f,
{
    match f {
        FilterView::Eq { column, value } => {
            &&& eq_lists(data, index, column, value) is Some
            &&& lists_hold(decode, eq_lists(data, index, column, value)->Some_0, ids)
        },
        FilterView::Range { column, lower, upper } => {
            &&& range_lists(data, index, column, lower, upper) is Some
            &&& lists_hold(decode, range_lists(data, index, column, lower, upper)->Some_0, ids)
        },
        FilterView::And(fs) => if fs.len() == 0 {
            &&& list_at(data, index, attr::all_docs_bytes()) is Some
            &&& lists_hold(decode, list_at(data, index, attr::all_docs_bytes())->Some_0, ids)
        } else {
            exists|parts: Seq<Set<IdView>>|
                parts.len() == fs.len() && ids == #[trigger] in_all(parts) && forall|i: int|
                    0 <= i < fs.len() ==> are_candidates(
                        decode,
                        data,
                        index,
                        #[trigger] fs[i],
                        parts[i],
                    )
        },
        FilterView::Or(fs) => exists|parts: Seq<Set<IdView>>|
            parts.len() == fs.len() && ids == #[trigger] in_any(parts) && forall|i: int|
                0 <= i < fs.len() ==> are_candidates(
                    decode,
                    data,
                    index,
                    #[trigger] fs[i],
                    parts[i],
                ),
        FilterView::Not(f) => exists|all: Set<IdView>, some: Set<IdView>|
            list_at(data, index, attr::all_docs_bytes()) is Some && lists_hold(
                decode,
                list_at(data, index, attr::all_docs_bytes())->Some_0,
                all,
            ) && are_candidates(decode, data, index, *f, some) && ids == #[trigger] all.difference(
                some,
            ),
    }
}

/// A part of the table that a lookup needs is damaged.
pub open spec fn is_damaged(data: Seq<u8>, index: Seq<HandleView>) -> bool {
    ||| exists|column: Seq<char>, lower: Option<BoundView>, upper: Option<BoundView>| #[trigger]
        range_lists(data, index, column, lower, upper) is None
    ||| exists|key: Seq<u8>| #[trigger] list_at(data, index, key) is None
}

/// Why candidates cannot be had.
pub open spec fn lookup_fails<D: Fn(&Vec<u8>) -> Result<Vec<Id>, Error>>(
    decode: D,
    data: Seq<u8>,
    index: Seq<HandleView>,
    e: Error,
) -> bool {
    (e is Corrupt && is_damaged(data, index)) || unreadable(decode, e)
}

/// Adds the keys of a stored list.
fn add_list<D: Copy + Fn(&Vec<u8>) -> Result<Vec<Id>, Error>>(
    ids: &mut SortedSet<Id>,
    list: &Vec<u8>,
    decode: D,
) -> (r: Result<Ghost<Set<IdView>>, Error>)
    requires
        old(ids).wf(),
        can_decode(decode),
    ensures
        match r {
            Ok(more) => {
                &&& final(ids).wf()
                &&& list_holds(decode, list@, more@)
                &&& final(ids).set() == old(ids).set().union(more@)
            },
            Err(e) => unreadable(decode, e),
        },
{
    let read = match decode(list) {
        Ok(read) => read,
        Err(e) => {
            return Err(e);
        },
    };
    let ghost views = numbers::ids_view(read@);
    let ghost start = ids.set();
    assert(reads_as(decode, list@, *list, read));
    let mut i: usize = 0;
    assert(start.union(views.take(0).to_set()) =~= start);
    while i < read.len()
        invariant
            i <= read@.len(),
            views == numbers::ids_view(read@),
            ids.wf(),
            ids.set() == start.union(views.take(i as int).to_set()),
        decreases read@.len() - i,
    {
        ids.insert(copy_id(&read[i]));
        proof {
            let x = views[i as int];
            assert(views.take(i + 1) =~= views.take(i as int).push(x));
            assert forall|id: IdView| views.take(i + 1).contains(id) == (views.take(
                i as int,
            ).contains(id) || id == x) by {
                if views.take(i as int).contains(id) {
                    let j = views.take(i as int).index_of(id);
                    assert(views.take(i + 1)[j] == id);
                }
                if id == x {
                    assert(views.take(i + 1)[i as int] == id);
                }
                if views.take(i + 1).contains(id) {
                    let j = views.take(i + 1).index_of(id);
                    if j < i {
                        assert(views.take(i as int)[j] == id);
                    }
                }
            }
            assert(start.union(views.take(i + 1).to_set()) =~= start.union(
                views.take(i as int).to_set(),
            ).insert(x));
        }
        i = i + 1;
    }
    assert(views.take(i as int) =~= views);
    Ok(Ghost(views.to_set()))
}

/// The keys of some stored lists.
fn read_lists<D: Copy + Fn(&Vec<u8>) -> Result<Vec<Id>, Error>>(
    lists: &Vec<Vec<u8>>,
    decode: D,
) -> (r: Result<SortedSet<Id>, Error>)
    requires
        can_decode(decode),
    ensures
        match r {
            Ok(ids) => ids.wf() && lists_hold(decode, attr::keys_view(lists@), ids.set()),
            Err(e) => unreadable(decode, e),
        },
{
    let ghost views = attr::keys_view(lists@);
    let mut ids: SortedSet<Id> = SortedSet::new();
    let ghost mut parts: Seq<Set<IdView>> = Seq::empty();
    let mut i: usize = 0;
    assert(in_any(parts) =~= Set::empty());
    while i < lists.len()
        invariant
            i <= lists@.len(),
            views == attr::keys_view(lists@),
            can_decode(decode),
            ids.wf(),
            parts.len() == i,
            forall|k: int|
                0 <= k < i ==> list_holds(decode, views[k], #[trigger] parts[k]),
            ids.set() == in_any(parts),
        decreases lists@.len() - i,
    {
        let Ghost(more) = match add_list(&mut ids, &lists[i], decode) {
            Ok(more) => more,
            Err(e) => {
                return Err(e);
            },
        };
        proof {
            lemma_in_any_push(parts, more);
            parts = parts.push(more);
        }
        i = i + 1;
    }
    assert(lists_hold_each(decode, views, parts));
    Ok(ids)
}

/// The keys of all documents.
fn read_all<D: Copy + Fn(&Vec<u8>) -> Result<Vec<Id>, Error>>(
    reader: &SstReader,
    decode: D,
) -> (r: Result<SortedSet<Id>, Error>)
    requires
        can_decode(decode),
    ensures
        match r {
            Ok(ids) => {
                &&& ids.wf()
                &&& list_at(reader.data(), reader.index(), attr::all_docs_bytes()) is Some
                &&& lists_hold(
                    decode,
                    list_at(reader.data(), reader.index(), attr::all_docs_bytes())->Some_0,
                    ids.set(),
                )
            },
            Err(e) => lookup_fails(decode, reader.data(), reader.index(), e),
        },
{
    let mut lists: Vec<Vec<u8>> = Vec::new();
    match all_ids(reader) {
        Ok(Some(list)) => {
            let ghost v = list@;
            lists.push(list);
            assert(attr::keys_view(lists@) =~= seq![v]);
        },
        Ok(None) => {
            assert(attr::keys_view(lists@) =~= Seq::empty());
        },
        Err(e) => {
            assert(list_at(reader.data(), reader.index(), attr::all_docs_bytes()) is None);
            return Err(e);
        },
    }
    read_lists(&lists, decode)
}

/// The keys in both of two sets.
fn intersection(a: &SortedSet<Id>, b: &SortedSet<Id>) -> (r: SortedSet<Id>)
    requires
        a.wf(),
        b.wf(),
    ensures
        r.wf(),
        r.set() == a.set().intersect(b.set()),
{
    let mut r: SortedSet<Id> = SortedSet::new();
    let n = a.len();
    let ghost items = a.items();
    let mut i: usize = 0;
    while i < n
        invariant
            i <= n,
            n == items.len(),
            items == a.items(),
            a.wf(),
            b.wf(),
            r.wf(),
            forall|id: IdView| #[trigger]
                r.set().contains(id) == (items.take(i as int).contains(id) && b.set().contains(
                    id,
                )),
        decreases n - i,
    {
        let item = a.item_at(i);
        let ghost before = r.set();
        if b.contains(item) {
            r.insert(copy_id(item));
        }
        proof {
            lemma_take_contains(items, i as int);
        }
        i = i + 1;
    }
    assert(items.take(n as int) =~= items);
    assert(r.set() =~= a.set().intersect(b.set()));
    r
}

/// The keys in the first of two sets and not in the second.
fn difference(a: &SortedSet<Id>, b: &SortedSet<Id>) -> (r: SortedSet<Id>)
    requires
        a.wf(),
        b.wf(),
    ensures
        r.wf(),
        r.set() == a.set().difference(b.set()),
{
    let mut r: SortedSet<Id> = SortedSet::new();
    let n = a.len();
    let ghost items = a.items();
    let mut i: usize = 0;
    while i < n
        invariant
            i <= n,
            n == items.len(),
            items == a.items(),
            a.wf(),
            b.wf(),
            r.wf(),
            forall|id: IdView| #[trigger]
                r.set().contains(id) == (items.take(i as int).contains(id) && !b.set().contains(
                    id,
                )),
        decreases n - i,
    {
        let item = a.item_at(i);
        let ghost before = r.set();
        if !b.contains(item) {
            r.insert(copy_id(item));
        }
        proof {
            lemma_take_contains(items, i as int);
        }
        i = i + 1;
    }
    assert(items.take(n as int) =~= items);
    assert(r.set() =~= a.set().difference(b.set()));
    r
}

proof fn lemma_take_contains(s: Seq<IdView>, i: int)
    requires
        0 <= i < s.len(),
    ensures
        forall|id: IdView| #[trigger]
            s.take(i + 1).contains(id) == (s.take(i).contains(id) || id == s[i]),
{
    assert forall|id: IdView| #[trigger]
        s.take(i + 1).contains(id) == (s.take(i).contains(id) || id == s[i]) by {
        if s.take(i).contains(id) {
            let j = s.take(i).index_of(id);
            assert(s.take(i + 1)[j] == id);
        }
        if id == s[i] {
            assert(s.take(i + 1)[i] == id);
        }
        if s.take(i + 1).contains(id) {
            let j = s.take(i + 1).index_of(id);
            if j < i {
                assert(s.take(i)[j] == id);
            }
        }
    }
}

/// Adds the keys of one set to another.
fn add_all(a: &mut SortedSet<Id>, b: &SortedSet<Id>)
    requires
        old(a).wf(),
        b.wf(),
    ensures
        final(a).wf(),
        final(a).set() == old(a).set().union(b.set()),
{
    let n = b.len();
    let ghost items = b.items();
    let ghost start = a.set();
    let mut i: usize = 0;
    while i < n
        invariant
            i <= n,
            n == items.len(),
            items == b.items(),
            b.wf(),
            a.wf(),
            forall|id: IdView| #[trigger]
                a.set().contains(id) == (start.contains(id) || items.take(i as int).contains(id)),
        decreases n - i,
    {
        a.insert(copy_id(b.item_at(i)));
        proof {
            lemma_take_contains(items, i as int);
        }
        i = i + 1;
    }
    assert(items.take(n as int) =~= items);
    assert(a.set() =~= start.union(b.set()));
}

/// The documents that can meet a filter; none for a filter that the index cannot
/// answer.
pub fn candidate_ids_from_filter<D: Copy + Fn(&Vec<u8>) -> Result<Vec<Id>, Error>>(
    reader: &SstReader,
    filter: &FilterExpr,
    decode: D,
) -> (r: Result<Option<SortedSet<Id>>, Error>)
    requires
        can_decode(decode),
    ensures
        match r {
            Ok(Some(ids)) => {
                &&& indexed(filter@)
                &&& ids.wf()
                &&& are_candidates(decode, reader.data(), reader.index(), filter@, ids.set())
            },
            Ok(None) => !indexed(filter@),
            Err(e) => lookup_fails(decode, reader.data(), reader.index(), e),
        },
    decreases filter,
{
    let ghost data = reader.data();
    let ghost index = reader.index();
    match filter {
        FilterExpr::Eq { column, value } => {
            match ids_for_eq(reader, column.as_str(), value) {
                Ok(Some(lists)) => {
                    assert(eq_lists(data, index, column@, value@) == Some(
                        attr::keys_view(lists@),
                    ));
                    match read_lists(&lists, decode) {
                        Ok(ids) => Ok(Some(ids)),
                        Err(e) => Err(e),
                    }
                },
                Ok(None) => Ok(None),
                Err(e) => {
                    proof {
                        let bound = Some(BoundView { value: value@, inclusive: true });
                        assert(range_lists(data, index, column@, bound, bound) is None || list_at(
                            data,
                            index,
                            attr::attr_key_bytes(column@, value@),
                        ) is None);
                    }
                    Err(e)
                },
            }
        },
        FilterExpr::Range { column, lower, upper } => {
            match ids_for_range(
                reader,
                column.as_str(),
                range_bound_to_attr_bound(lower),
                range_bound_to_attr_bound(upper),
            ) {
                Ok(Some(lists)) => {
                    assert(range_lists(
                        data,
                        index,
                        column@,
                        query::optional_bound_view(*lower),
                        query::optional_bound_view(*upper),
                    ) == Some(attr::keys_view(lists@)));
                    match read_lists(&lists, decode) {
                        Ok(ids) => Ok(Some(ids)),
                        Err(e) => Err(e),
                    }
                },
                Ok(None) => Ok(None),
                Err(e) => {
                    assert(range_lists(
                        data,
                        index,
                        column@,
                        query::optional_bound_view(*lower),
                        query::optional_bound_view(*upper),
                    ) is None);
                    Err(e)
                },
            }
        },
        FilterExpr::And(filters) => {
            if filters.len() == 0 {
                return match read_all(reader, decode) {
                    Ok(ids) => Ok(Some(ids)),
                    Err(e) => Err(e),
                };
            }
            let mut out: SortedSet<Id> = SortedSet::new();
            let ghost mut parts: Seq<Set<IdView>> = Seq::empty();
            let mut i: usize = 0;
            while i < filters.len()
                invariant
                    i <= filters@.len(),
                    *filter == FilterExpr::And(*filters),
                    data == reader.data(),
                    index == reader.index(),
                    can_decode(decode),
                    out.wf(),
                    parts.len() == i,
                    i > 0 ==> out.set() == in_all(parts),
                    forall|j: int| 0 <= j < i ==> indexed(#[trigger] filter@->And_0[j]),
                    forall|j: int|
                        0 <= j < i ==> are_candidates(
                            decode,
                            data,
                            index,
                            #[trigger] filter@->And_0[j],
                            parts[j],
                        ),
                decreases filters@.len() - i,
            {
                assert(filter->And_0@[i as int] == filters@[i as int]);
                assert(decreases_to!(*filter => filter->And_0@[i as int]));
                assert(filter@->And_0[i as int] == filters@[i as int]@);
                match candidate_ids_from_filter(reader, &filters[i], decode) {
                    Ok(Some(ids)) => {
                        let ghost before = parts;
                        let ghost part = ids.set();
                        if i == 0 {
                            out = ids;
                            proof {
                                lemma_in_all_push(before, part);
                            }
                            assert(in_all(before).intersect(part) =~= part);
                        } else {
                            out = intersection(&out, &ids);
                            assert(in_all(before.push(part)) =~= in_all(before).intersect(part)) by {
                                lemma_in_all_push(before, part);
                            }
                        }
                        proof {
                            parts = parts.push(part);
                        }
                    },
                    Ok(None) => {
                        assert(!indexed(filter@->And_0[i as int]));
                        return Ok(None);
                    },
                    Err(e) => {
                        return Err(e);
                    },
                }
                i = i + 1;
            }
            Ok(Some(out))
        },
        FilterExpr::Or(filters) => {
            let mut out: SortedSet<Id> = SortedSet::new();
            let ghost mut parts: Seq<Set<IdView>> = Seq::empty();
            assert(in_any(parts) =~= Set::empty());
            let mut i: usize = 0;
            while i < filters.len()
                invariant
                    i <= filters@.len(),
                    *filter == FilterExpr::Or(*filters),
                    data == reader.data(),
                    index == reader.index(),
                    can_decode(decode),
                    out.wf(),
                    parts.len() == i,
                    out.set() == in_any(parts),
                    forall|j: int| 0 <= j < i ==> indexed(#[trigger] filter@->Or_0[j]),
                    forall|j: int|
                        0 <= j < i ==> are_candidates(
                            decode,
                            data,
                            index,
                            #[trigger] filter@->Or_0[j],
                            parts[j],
                        ),
                decreases filters@.len() - i,
            {
                assert(filter->Or_0@[i as int] == filters@[i as int]);
                assert(decreases_to!(*filter => filter->Or_0@[i as int]));
                assert(filter@->Or_0[i as int] == filters@[i as int]@);
                match candidate_ids_from_filter(reader, &filters[i], decode) {
                    Ok(Some(ids)) => {
                        let ghost before = parts;
                        let ghost part = ids.set();
                        add_all(&mut out, &ids);
                        proof {
                            lemma_in_any_push(before, part);
                            parts = parts.push(part);
                        }
                    },
                    Ok(None) => {
                        assert(!indexed(filter@->Or_0[i as int]));
                        return Ok(None);
                    },
                    Err(e) => {
                        return Err(e);
                    },
                }
                i = i + 1;
            }
            Ok(Some(out))
        },
        FilterExpr::Not(inner) => match candidate_ids_from_filter(reader, inner, decode) {
            Ok(Some(ids)) => {
                match read_all(reader, decode) {
                    Ok(all) => {
                        let out = difference(&all, &ids);
                        assert(all.set().difference(ids.set()) == out.set());
                        Ok(Some(out))
                    },
                    Err(e) => Err(e),
                }
            },
            Ok(None) => Ok(None),
            Err(e) => Err(e),
        },
    }
}

proof fn lemma_in_all_push(parts: Seq<Set<IdView>>, part: Set<IdView>)
    ensures
        in_all(parts.push(part)) == in_all(parts).intersect(part),
{
    assert forall|id: IdView| in_all(parts.push(part)).contains(id) == in_all(parts).intersect(
        part,
    ).contains(id) by {
        let all = parts.push(part);
        if in_all(all).contains(id) {
            assert forall|i: int| 0 <= i < parts.len() implies (#[trigger] parts[i]).contains(id) by {
                assert(all[i] == parts[i]);
            }
            assert(all[parts.len() as int] == part);
        }
    }
    assert(in_all(parts.push(part)) =~= in_all(parts).intersect(part));
}

proof fn lemma_in_any_push(parts: Seq<Set<IdView>>, part: Set<IdView>)
    ensures
        in_any(parts.push(part)) == in_any(parts).union(part),
{
    assert forall|id: IdView| in_any(parts.push(part)).contains(id) == in_any(parts).union(
        part,
    ).contains(id) by {
        let all = parts.push(part);
        if in_any(parts).contains(id) {
            let i = choose|i: int| 0 <= i < parts.len() && (#[trigger] parts[i]).contains(id);
            assert(all[i] == parts[i]);
        }
        if part.contains(id) {
            assert(all[parts.len() as int] == part);
        }
        if in_any(all).contains(id) {
            let i = choose|i: int| 0 <= i < all.len() && (#[trigger] all[i]).contains(id);
            if i < parts.len() {
                assert(parts[i] == all[i]);
            }
        }
    }
    assert(in_any(parts.push(part)) =~= in_any(parts).union(part));
}

// ---------------------------------------------------------------------------
// What the candidates are
// ---------------------------------------------------------------------------

/// A key is among the entries of a table.
pub open spec fn has_key(es: Seq<(Seq<u8>, Seq<u8>)>, key: Seq<u8>) -> bool {
    exists|i: int| 0 <= i < es.len() && (#[trigger] es[i]).0 == key
}

/// The entries of a table are the lists of the index of some documents.
pub open spec fn indexes<D: Fn(&Vec<u8>) -> Result<Vec<Id>, Error>>(
    decode: D,
    es: Seq<(Seq<u8>, Seq<u8>)>,
    docs: Map<IdView, DocumentView>,
) -> bool {
    &&& forall|i: int, ids: Set<IdView>|
        0 <= i < es.len() && #[trigger] list_holds(decode, es[i].1, ids) ==> ids == attr::posting(
            docs,
            es[i].0,
        )
    &&& forall|key: Seq<u8>, id: IdView| #[trigger]
        attr::posting(docs, key).contains(id) ==> has_key(es, key)
}

/// A document that the attribute index tells everything about.
pub open spec fn is_plain(d: DocumentView) -> bool {
    &&& attr::document_indexable(d)
    &&& native::no_nulls(d)
    &&& forall|column: Seq<char>| #[trigger]
        d.attributes.dom().contains(column) ==> encode_utf8(column).len() <= u32::MAX
}

/// The names of the columns of a filter are not too long for a key.
pub open spec fn columns_short(f: FilterView) -> bool
    decreases f,
{
    match f {
        FilterView::Eq { column, value } => encode_utf8(column).len() <= u32::MAX,
        FilterView::Range { column, lower, upper } => encode_utf8(column).len() <= u32::MAX,
        FilterView::And(fs) => forall|i: int| 0 <= i < fs.len() ==> columns_short(#[trigger] fs[i]),
        FilterView::Or(fs) => forall|i: int| 0 <= i < fs.len() ==> columns_short(#[trigger] fs[i]),
        FilterView::Not(f) => columns_short(*f),
    }
}

/// The documents that meet a filter.
pub open spec fn matching(docs: Map<IdView, DocumentView>, f: FilterView) -> Set<IdView> {
    Set::new(|id: IdView| docs.dom().contains(id) && query::filter_holds(f, docs[id]))
}

proof fn lemma_taken_from(
    es: Seq<(Seq<u8>, Seq<u8>)>,
    prefix: Seq<u8>,
    lower: Option<BoundView>,
    upper: Option<BoundView>,
    m: int,
) -> (k: int)
    requires
        attr::lists_taken(es, prefix, lower, upper) is Some,
        0 <= m < attr::lists_taken(es, prefix, lower, upper)->Some_0.len(),
    ensures
        0 <= k < es.len(),
        attr::takes_key(es[k].0, prefix, lower, upper) == Some(true),
        es[k].1 == attr::lists_taken(es, prefix, lower, upper)->Some_0[m],
    decreases es.len(),
{
    let front = attr::lists_taken(es.drop_last(), prefix, lower, upper)->Some_0;
    if m < front.len() {
        let k = lemma_taken_from(es.drop_last(), prefix, lower, upper, m);
        k
    } else {
        es.len() - 1
    }
}

proof fn lemma_taken_has(
    es: Seq<(Seq<u8>, Seq<u8>)>,
    prefix: Seq<u8>,
    lower: Option<BoundView>,
    upper: Option<BoundView>,
    k: int,
) -> (m: int)
    requires
        attr::lists_taken(es, prefix, lower, upper) is Some,
        0 <= k < es.len(),
        attr::takes_key(es[k].0, prefix, lower, upper) == Some(true),
    ensures
        0 <= m < attr::lists_taken(es, prefix, lower, upper)->Some_0.len(),
        es[k].1 == attr::lists_taken(es, prefix, lower, upper)->Some_0[m],
    decreases es.len(),
{
    let front = attr::lists_taken(es.drop_last(), prefix, lower, upper)->Some_0;
    if k < es.len() - 1 {
        let m = lemma_taken_has(es.drop_last(), prefix, lower, upper, k);
        assert(attr::lists_taken(es, prefix, lower, upper)->Some_0[m] == front[m]);
        m
    } else {
        front.len() as int
    }
}

/// A document is listed under a key that a range takes.
pub open spec fn listed_in_range(
    docs: Map<IdView, DocumentView>,
    id: IdView,
    column: Seq<char>,
    lower: Option<BoundView>,
    upper: Option<BoundView>,
) -> bool {
    exists|key: Seq<u8>|
        attr::takes_key(key, attr::column_prefix(column), lower, upper) == Some(true)
            && #[trigger] attr::posting(docs, key).contains(id)
}

proof fn lemma_range_ids<D: Fn(&Vec<u8>) -> Result<Vec<Id>, Error>>(
    decode: D,
    es: Seq<(Seq<u8>, Seq<u8>)>,
    docs: Map<IdView, DocumentView>,
    column: Seq<char>,
    lower: Option<BoundView>,
    upper: Option<BoundView>,
    ids: Set<IdView>,
    id: IdView,
)
    requires
        indexes(decode, es, docs),
        attr::lists_taken(es, attr::column_prefix(column), lower, upper) is Some,
        lists_hold(
            decode,
            attr::lists_taken(es, attr::column_prefix(column), lower, upper)->Some_0,
            ids,
        ),
    ensures
        ids.contains(id) == listed_in_range(docs, id, column, lower, upper),
{
    let prefix = attr::column_prefix(column);
    let lists = attr::lists_taken(es, prefix, lower, upper)->Some_0;
    let parts = choose|parts: Seq<Set<IdView>>| #[trigger]
        lists_hold_each(decode, lists, parts) && ids == in_any(parts);
    if ids.contains(id) {
        let m = choose|m: int| 0 <= m < parts.len() && (#[trigger] parts[m]).contains(id);
        let k = lemma_taken_from(es, prefix, lower, upper, m);
        assert(list_holds(decode, lists[m], parts[m]));
        assert(list_holds(decode, es[k].1, parts[m]));
        assert(attr::posting(docs, es[k].0).contains(id));
    }
    if listed_in_range(docs, id, column, lower, upper) {
        let key = choose|key: Seq<u8>|
            attr::takes_key(key, prefix, lower, upper) == Some(true) && #[trigger] attr::posting(
                docs,
                key,
            ).contains(id);
        assert(has_key(es, key));
        let k = choose|k: int| 0 <= k < es.len() && (#[trigger] es[k]).0 == key;
        let m = lemma_taken_has(es, prefix, lower, upper, k);
        assert(list_holds(decode, lists[m], parts[m]));
        assert(list_holds(decode, es[k].1, parts[m]));
        assert(parts[m].contains(id));
    }
}

proof fn lemma_key_ids<D: Fn(&Vec<u8>) -> Result<Vec<Id>, Error>>(
    decode: D,
    data: Seq<u8>,
    index: Seq<HandleView>,
    es: Seq<(Seq<u8>, Seq<u8>)>,
    docs: Map<IdView, DocumentView>,
    key: Seq<u8>,
    ids: Set<IdView>,
    id: IdView,
)
    requires
        writer::is_table_of(data, es),
        writer::keys_sorted(es),
        reader::table_index(data) == Some(index),
        indexes(decode, es, docs),
        list_at(data, index, key) is Some,
        lists_hold(decode, list_at(data, index, key)->Some_0, ids),
    ensures
        ids.contains(id) == attr::posting(docs, key).contains(id),
{
    let lists = list_at(data, index, key)->Some_0;
    let parts = choose|parts: Seq<Set<IdView>>| #[trigger]
        lists_hold_each(decode, lists, parts) && ids == in_any(parts);
    if has_key(es, key) {
        let k = choose|k: int| 0 <= k < es.len() && (#[trigger] es[k]).0 == key;
        writer::law_get_finds_what_was_written(data, es, index, k);
        assert(lists == seq![es[k].1]);
        assert(list_holds(decode, lists[0], parts[0]));
        assert(list_holds(decode, es[k].1, parts[0]));
        if ids.contains(id) {
            let m = choose|m: int| 0 <= m < parts.len() && (#[trigger] parts[m]).contains(id);
            assert(m == 0);
        }
        if parts[0].contains(id) {
            assert(in_any(parts).contains(id));
        }
    } else {
        writer::law_get_misses_what_was_not_written(data, es, index, key);
        assert(lists.len() == 0);
        if attr::posting(docs, key).contains(id) {
            assert(has_key(es, key));
        }
    }
}

/// A document is listed in a range exactly if its attribute lies in it.
proof fn lemma_listed_in_range(
    docs: Map<IdView, DocumentView>,
    id: IdView,
    column: Seq<char>,
    lower: Option<BoundView>,
    upper: Option<BoundView>,
)
    requires
        docs.dom().contains(id) ==> is_plain(docs[id]),
        encode_utf8(column).len() <= u32::MAX,
    ensures
        listed_in_range(docs, id, column, lower, upper) == (docs.dom().contains(id)
            && docs[id].attributes.dom().contains(column) && query::range_holds(
            docs[id].attributes[column],
            lower,
            upper,
        )),
{
    let d = docs[id];
    let prefix = attr::column_prefix(column);
    if listed_in_range(docs, id, column, lower, upper) {
        let key = choose|key: Seq<u8>|
            attr::takes_key(key, prefix, lower, upper) == Some(true) && #[trigger] attr::posting(
                docs,
                key,
            ).contains(id);
        assert(key.take(prefix.len() as int)[0] == prefix[0]);
        assert(key[0] == prefix[0]);
        assert(key != attr::all_docs_bytes());
        let (c, i) = choose|c: Seq<char>, i: int|
            d.attributes.dom().contains(c) && #[trigger] attr::is_item_key(
                c,
                d.attributes[c],
                i,
                key,
            );
        let items = attr::indexed_items(d.attributes[c]);
        let x = items[i];
        assert(attr::items_indexable(d.attributes[c]));
        assert(attr::is_indexable(x));
        attr::lemma_column_prefix_unique(column, c, x);
        attr::lemma_prefix_of_key(c, x);
        attr::law_scalar_round_trips(x);
        assert(query::in_range(x, lower, upper));
        match d.attributes[column] {
            ValueView::Array(list) => {
                assert(query::in_range(list[i], lower, upper));
            },
            _ => {},
        }
    }
    if docs.dom().contains(id) && d.attributes.dom().contains(column) && query::range_holds(
        d.attributes[column],
        lower,
        upper,
    ) {
        let items = attr::indexed_items(d.attributes[column]);
        let i = match d.attributes[column] {
            ValueView::Array(list) => choose|i: int|
                0 <= i < list.len() && #[trigger] query::in_range(list[i], lower, upper),
            _ => 0,
        };
        let x = items[i];
        assert(attr::items_indexable(d.attributes[column]));
        assert(attr::is_indexable(x));
        assert(query::in_range(x, lower, upper));
        let key = attr::attr_key_bytes(column, x);
        attr::lemma_prefix_of_key(column, x);
        attr::law_scalar_round_trips(x);
        assert(attr::is_item_key(column, d.attributes[column], i, key));
        assert(attr::posting(docs, key).contains(id));
        assert(attr::takes_key(key, prefix, lower, upper) == Some(true));
    }
}

/// A document is listed under the key of a value exactly if its attribute equals
/// it.
proof fn lemma_listed_under(
    docs: Map<IdView, DocumentView>,
    id: IdView,
    column: Seq<char>,
    v: ValueView,
)
    requires
        docs.dom().contains(id) ==> is_plain(docs[id]),
        encode_utf8(column).len() <= u32::MAX,
        attr::is_scalar(v),
        !(v is Int) && !(v is Float),
    ensures
        attr::posting(docs, attr::attr_key_bytes(column, v)).contains(id) == (docs.dom().contains(id)
            && docs[id].attributes.dom().contains(column) && query::eq_holds(
            docs[id].attributes[column],
            v,
        )),
{
    let d = docs[id];
    let key = attr::attr_key_bytes(column, v);
    assert(key[0] == attr::KEY_KIND_ATTR);
    assert(key != attr::all_docs_bytes());
    if attr::posting(docs, key).contains(id) {
        let (c, i) = choose|c: Seq<char>, i: int|
            d.attributes.dom().contains(c) && #[trigger] attr::is_item_key(
                c,
                d.attributes[c],
                i,
                key,
            );
        let x = attr::indexed_items(d.attributes[c])[i];
        assert(attr::items_indexable(d.attributes[c]));
        assert(attr::is_indexable(x));
        attr::law_eq_lookup_is_exact(column, v, c, x);
        match d.attributes[column] {
            ValueView::Array(list) => {
                assert(value::scalars_equal(list[i], v));
            },
            _ => {},
        }
    }
    if docs.dom().contains(id) && d.attributes.dom().contains(column) && query::eq_holds(
        d.attributes[column],
        v,
    ) {
        let items = attr::indexed_items(d.attributes[column]);
        let i = match d.attributes[column] {
            ValueView::Array(list) => choose|i: int|
                0 <= i < list.len() && #[trigger] value::scalars_equal(list[i], v),
            _ => 0,
        };
        let x = items[i];
        assert(attr::items_indexable(d.attributes[column]));
        assert(attr::is_indexable(x));
        attr::law_eq_lookup_is_exact(column, v, column, x);
        assert(attr::is_item_key(column, d.attributes[column], i, key));
    }
}

/// An attribute equals a number exactly if it lies between that number and itself.
proof fn lemma_number_range(actual: ValueView, v: ValueView)
    requires
        v is Int || v is Float,
        attr::items_indexable(actual),
        !(actual is Null),
    ensures
        query::eq_holds(actual, v) == query::range_holds(
            actual,
            Some(BoundView { value: v, inclusive: true }),
            Some(BoundView { value: v, inclusive: true }),
        ),
{
    let b = Some(BoundView { value: v, inclusive: true });
    let items = attr::indexed_items(actual);
    match actual {
        ValueView::Array(list) => {
            assert forall|i: int| 0 <= i < list.len() implies value::scalars_equal(list[i], v)
                == query::in_range(list[i], b, b) by {
                assert(attr::is_indexable(items[i]));
            }
            if query::eq_holds(actual, v) {
                let i = choose|i: int|
                    0 <= i < list.len() && #[trigger] value::scalars_equal(list[i], v);
                assert(query::in_range(list[i], b, b));
            }
            if query::range_holds(actual, b, b) {
                let i = choose|i: int|
                    0 <= i < list.len() && #[trigger] query::in_range(list[i], b, b);
                assert(value::scalars_equal(list[i], v));
            }
        },
        _ => {
            assert(attr::is_indexable(items[0]));
        },
    }
}

/// The candidates for a filter are exactly the documents that meet it, as they
/// were when the index was built.
pub proof fn law_candidates_are_the_matching_documents<
    D: Fn(&Vec<u8>) -> Result<Vec<Id>, Error>,
>(
    decode: D,
    data: Seq<u8>,
    index: Seq<HandleView>,
    es: Seq<(Seq<u8>, Seq<u8>)>,
    docs: Map<IdView, DocumentView>,
    f: FilterView,
    ids: Set<IdView>,
)
    requires
        writer::is_table_of(data, es),
        writer::keys_sorted(es),
        reader::table_index(data) == Some(index),
        indexes(decode, es, docs),
        forall|id: IdView| #[trigger] docs.dom().contains(id) ==> is_plain(docs[id]),
        indexed(f),
        columns_short(f),
        are_candidates(decode, data, index, f, ids),
    ensures
        ids == matching(docs, f),
    decreases f,
{
    let want = matching(docs, f);
    match f {
        FilterView::Eq { column, value: v } => {
            assert forall|id: IdView| ids.contains(id) == want.contains(id) by {
                if v is Int || v is Float {
                    let b = Some(BoundView { value: v, inclusive: true });
                    lemma_range_ids(decode, es, docs, column, b, b, ids, id);
                    lemma_listed_in_range(docs, id, column, b, b);
                    if docs.dom().contains(id) && docs[id].attributes.dom().contains(column) {
                        assert(attr::items_indexable(docs[id].attributes[column]));
                        lemma_number_range(docs[id].attributes[column], v);
                    }
                } else {
                    lemma_key_ids(
                        decode,
                        data,
                        index,
                        es,
                        docs,
                        attr::attr_key_bytes(column, v),
                        ids,
                        id,
                    );
                    lemma_listed_under(docs, id, column, v);
                }
            }
        },
        FilterView::Range { column, lower, upper } => {
            assert forall|id: IdView| ids.contains(id) == want.contains(id) by {
                lemma_range_ids(decode, es, docs, column, lower, upper, ids, id);
                lemma_listed_in_range(docs, id, column, lower, upper);
            }
        },
        FilterView::And(fs) => {
            if fs.len() == 0 {
                assert forall|id: IdView| ids.contains(id) == want.contains(id) by {
                    lemma_key_ids(
                        decode,
                        data,
                        index,
                        es,
                        docs,
                        attr::all_docs_bytes(),
                        ids,
                        id,
                    );
                }
            } else {
                let parts = choose|parts: Seq<Set<IdView>>|
                    parts.len() == fs.len() && ids == #[trigger] in_all(parts) && forall|i: int|
                        0 <= i < fs.len() ==> are_candidates(
                            decode,
                            data,
                            index,
                            #[trigger] fs[i],
                            parts[i],
                        );
                assert forall|i: int| 0 <= i < fs.len() implies parts[i] == matching(
                    docs,
                    #[trigger] fs[i],
                ) by {
                    law_candidates_are_the_matching_documents(
                        decode,
                        data,
                        index,
                        es,
                        docs,
                        fs[i],
                        parts[i],
                    );
                }
                assert forall|id: IdView| ids.contains(id) == want.contains(id) by {
                    if ids.contains(id) {
                        assert(parts[0].contains(id));
                        assert(matching(docs, fs[0]).contains(id));
                        assert forall|i: int| 0 <= i < fs.len() implies query::filter_holds(
                            #[trigger] fs[i],
                            docs[id],
                        ) by {
                            assert(parts[i].contains(id));
                        }
                    }
                    if want.contains(id) {
                        assert forall|i: int| 0 <= i < parts.len() implies (
                        #[trigger] parts[i]).contains(id) by {
                            assert(query::filter_holds(fs[i], docs[id]));
                        }
                    }
                }
            }
        },
        FilterView::Or(fs) => {
            let parts = choose|parts: Seq<Set<IdView>>|
                parts.len() == fs.len() && ids == #[trigger] in_any(parts) && forall|i: int|
                    0 <= i < fs.len() ==> are_candidates(
                        decode,
                        data,
                        index,
                        #[trigger] fs[i],
                        parts[i],
                    );
            assert forall|i: int| 0 <= i < fs.len() implies parts[i] == matching(
                docs,
                #[trigger] fs[i],
            ) by {
                law_candidates_are_the_matching_documents(
                    decode,
                    data,
                    index,
                    es,
                    docs,
                    fs[i],
                    parts[i],
                );
            }
            assert forall|id: IdView| ids.contains(id) == want.contains(id) by {
                if ids.contains(id) {
                    let i = choose|i: int|
                        0 <= i < parts.len() && (#[trigger] parts[i]).contains(id);
                    assert(matching(docs, fs[i]).contains(id));
                }
                if want.contains(id) {
                    let i = choose|i: int|
                        0 <= i < fs.len() && query::filter_holds(#[trigger] fs[i], docs[id]);
                    assert(matching(docs, fs[i]).contains(id));
                    assert(parts[i].contains(id));
                }
            }
        },
        FilterView::Not(g) => {
            let (all, some) = choose|all: Set<IdView>, some: Set<IdView>|
                list_at(data, index, attr::all_docs_bytes()) is Some && lists_hold(
                    decode,
                    list_at(data, index, attr::all_docs_bytes())->Some_0,
                    all,
                ) && are_candidates(decode, data, index, *g, some) && ids
                    == #[trigger] all.difference(some);
            law_candidates_are_the_matching_documents(decode, data, index, es, docs, *g, some);
            assert forall|id: IdView| ids.contains(id) == want.contains(id) by {
                lemma_key_ids(decode, data, index, es, docs, attr::all_docs_bytes(), all, id);
            }
        },
    }
    assert(ids =~= want);
}

} // verus!
