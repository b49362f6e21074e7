//! Which rows of a vector index have which attribute values, kept beside the
//! vectors so that a search can leave rows out before it scores them.

use vstd::prelude::*;

use crate::vector::mask;
use crate::vector;
use crate::value;
use crate::documents;
use crate::attr;
use crate::attr::{indexable_values, scalar_key};
use crate::error::{corrupt, Error};
use crate::sorted::SortedMap;
use crate::sorting::reversed;
use crate::textmap::TextMap;
use crate::value::{copy_value, Document, DocumentView, Id, IdView, Value, ValueView};
use crate::vector::mask::{any_bit, set_bit, words_for_rows, zero_words, VectorFilterMask};
use crate::vector::{row_counts_of, VectorPosting};

verus! {

/// The rows of one cluster, one bit each.
#[derive(Clone, Debug, PartialEq, Eq)]
pub struct VectorFilterRows {
    pub cluster_id: u32,
    pub words: Vec<u64>,
}

/// The rows that have one value.
#[derive(Debug)]
pub struct VectorFilterValue {
    pub value: Value,
    pub clusters: Vec<u32>,
    pub rows: Vec<VectorFilterRows>,
}

/// The values of one column, in the order of their bytes.
#[derive(Debug)]
pub struct VectorFilterColumn {
    pub values: Vec<VectorFilterValue>,
}

/// The values of every column.
#[derive(Debug)]
pub struct VectorFilterIndex {
    pub columns: TextMap<VectorFilterColumn>,
}

/// Among some lists of rows, one has the bit of a row.
pub open spec fn rows_mark(rows: Seq<VectorFilterRows>, cluster: int, row: int) -> bool {
    exists|r: int|
        0 <= r < rows.len() && (#[trigger] rows[r]).cluster_id == cluster && mask::bit_at(
            rows[r].words@,
            row,
        )
}

/// Value `j` of a column is `x`, and a row has it.
pub open spec fn value_marks(
    values: Seq<VectorFilterValue>,
    j: int,
    x: ValueView,
    cluster: int,
    row: int,
) -> bool {
    0 <= j < values.len() && values[j].value@ == x && rows_mark(values[j].rows@, cluster, row)
}

/// The values of a column, none if there is no such column.
pub open spec fn column_values(index: VectorFilterIndex, column: Seq<char>) -> Seq<
    VectorFilterValue,
> {
    if index.columns.map().dom().contains(column) {
        index.columns.map()[column].values@
    } else {
        Seq::empty()
    }
}

/// The index says that a row has a value in a column.
pub open spec fn index_marks(
    index: VectorFilterIndex,
    column: Seq<char>,
    x: ValueView,
    cluster: int,
    row: int,
) -> bool {
    exists|j: int| #[trigger] value_marks(column_values(index, column), j, x, cluster, row)
}

/// A document has a value in a column: as its attribute, or as an item of it.
pub open spec fn document_has(d: DocumentView, column: Seq<char>, x: ValueView) -> bool {
    d.attributes.dom().contains(column) && attr::indexed_items(d.attributes[column]).contains(x)
}

/// The document of a row, if it is among `docs`.
pub open spec fn row_document(
    postings: Seq<VectorPosting>,
    docs: Map<IdView, DocumentView>,
    cluster: int,
    row: int,
) -> Option<DocumentView> {
    if 0 <= cluster < postings.len() && 0 <= row < postings[cluster].vectors@.len()
        && docs.dom().contains(postings[cluster].vectors@[row].id@) {
        Some(docs[postings[cluster].vectors@[row].id@])
    } else {
        None
    }
}

/// The document of a row has a value in a column.
pub open spec fn row_has(
    postings: Seq<VectorPosting>,
    docs: Map<IdView, DocumentView>,
    column: Seq<char>,
    x: ValueView,
    cluster: int,
    row: int,
) -> bool {
    match row_document(postings, docs, cluster, row) {
        Some(d) => document_has(d, column, x),
        None => false,
    }
}

/// Everything in the documents of all rows can be indexed.
pub open spec fn rows_indexable(
    postings: Seq<VectorPosting>,
    docs: Map<IdView, DocumentView>,
) -> bool {
    forall|c: int, l: int|
        (#[trigger] row_document(postings, docs, c, l)) matches Some(d) ==> attr::document_indexable(d)
}

/// A value being collected: bits for every row of every cluster.
struct ValueBuilder {
    value: Value,
    rows: Vec<Vec<u64>>,
}

/// The bit of a row.
spec fn builder_bit(b: ValueBuilder, cluster: int, row: int) -> bool {
    0 <= cluster < b.rows@.len() && mask::bit_at(b.rows@[cluster]@, row)
}

/// The builder is of an indexable value with these bytes, and has the words that
/// the rows need.
spec fn builder_wf(b: ValueBuilder, key: Seq<u8>, shape: Seq<usize>) -> bool {
    &&& attr::is_indexable(b.value@)
    &&& key == attr::scalar_bytes(b.value@)
    &&& b.rows@.len() == shape.len()
    &&& forall|c: int|
        0 <= c < shape.len() ==> (#[trigger] b.rows@[c])@.len() == mask::words_needed(shape[c] as int)
}

/// Values being collected, by their bytes.
type ValueBuilders = SortedMap<Vec<u8>, ValueBuilder>;

spec fn values_wf(values: ValueBuilders, shape: Seq<usize>) -> bool {
    &&& values.wf()
    &&& forall|key: Seq<u8>|
        values.map().dom().contains(key) ==> builder_wf(#[trigger] values.map()[key], key, shape)
}

spec fn builders_wf(b: TextMap<ValueBuilders>, shape: Seq<usize>) -> bool {
    &&& b.wf()
    &&& forall|column: Seq<char>|
        b.map().dom().contains(column) ==> values_wf(#[trigger] b.map()[column], shape)
}

/// Among some values, `x` is there and has the bit of a row.
spec fn values_mark(values: ValueBuilders, x: ValueView, cluster: int, row: int) -> bool {
    &&& attr::is_scalar(x)
    &&& values.map().dom().contains(attr::scalar_bytes(x))
    &&& builder_bit(values.map()[attr::scalar_bytes(x)], cluster, row)
}

spec fn marks(
    b: TextMap<ValueBuilders>,
    column: Seq<char>,
    x: ValueView,
    cluster: int,
    row: int,
) -> bool {
    b.map().dom().contains(column) && values_mark(b.map()[column], x, cluster, row)
}

/// A builder with no bit set.
fn new_builder(value: Value, row_counts: &Vec<usize>) -> (b: ValueBuilder)
    requires
        attr::is_indexable(value@),
    ensures
        b.value == value,
        builder_wf(b, attr::scalar_bytes(value@), row_counts@),
        forall|c: int, l: int| !#[trigger] builder_bit(b, c, l),
{
    let mut rows: Vec<Vec<u64>> = Vec::new();
    let mut c: usize = 0;
    while c < row_counts.len()
        invariant
            c <= row_counts@.len(),
            rows@.len() == c,
            forall|j: int|
                0 <= j < c ==> (#[trigger] rows@[j])@.len() == mask::words_needed(row_counts@[j] as int),
            forall|j: int, l: int| 0 <= j < c ==> !#[trigger] mask::bit_at(rows@[j]@, l),
        decreases row_counts@.len() - c,
    {
        rows.push(zero_words(words_for_rows(row_counts[c])));
        c = c + 1;
    }
    ValueBuilder { value, rows }
}

/// Sets the bit of a row.
fn set_row(b: &mut ValueBuilder, cluster: usize, row: usize, key: Ghost<Seq<u8>>, shape: Ghost<Seq<usize>>)
    requires
        builder_wf(*old(b), key@, shape@),
        cluster < shape@.len(),
        row < shape@[cluster as int],
    ensures
        builder_wf(*final(b), key@, shape@),
        forall|c: int, l: int| #[trigger]
            builder_bit(*final(b), c, l) == (builder_bit(*old(b), c, l) || (c == cluster && l
                == row)),
{
    let ghost before = b.rows@;
    assert(before[cluster as int]@.len() == mask::words_needed(shape@[cluster as int] as int));
    set_bit(&mut b.rows[cluster], row);
    assert forall|c: int, l: int| #[trigger] builder_bit(*b, c, l) == (builder_bit(*old(b), c, l)
        || (c == cluster && l == row)) by {
        if 0 <= c < before.len() && c != cluster {
            assert(b.rows@[c] == before[c]);
        }
    }
    assert forall|c: int| 0 <= c < shape@.len() implies (#[trigger] b.rows@[c])@.len()
        == mask::words_needed(shape@[c] as int) by {
        assert(before[c]@.len() == mask::words_needed(shape@[c] as int));
        if c != cluster {
            assert(b.rows@[c] == before[c]);
        }
    }
}

/// Notes that a row has a value.
fn mark_value(
    values: &mut ValueBuilders,
    key: Vec<u8>,
    value: &Value,
    row_counts: &Vec<usize>,
    cluster: usize,
    row: usize,
)
    requires
        values_wf(*old(values), row_counts@),
        attr::is_indexable(value@),
        key@ == attr::scalar_bytes(value@),
        cluster < row_counts@.len(),
        row < row_counts@[cluster as int],
    ensures
        values_wf(*final(values), row_counts@),
        forall|x: ValueView, c: int, l: int| #[trigger]
            values_mark(*final(values), x, c, l) == (values_mark(*old(values), x, c, l) || (x
                == value@ && c == cluster && l == row)),
{
    let ghost before = values.map();
    let ghost k = key@;
    let mut builder = match values.remove(&key) {
        Some(b) => b,
        None => new_builder(copy_value(value), row_counts),
    };
    let ghost was = builder;
    set_row(&mut builder, cluster, row, Ghost(k), Ghost(row_counts@));
    let ghost now = builder;
    values.insert(key, builder);
    let ghost after = values.map();
    assert(after =~= before.insert(k, now));
    assert forall|key2: Seq<u8>| after.dom().contains(key2) implies builder_wf(
        #[trigger] after[key2],
        key2,
        row_counts@,
    ) by {
        if key2 != k {
            assert(after[key2] == before[key2]);
        }
    }
    assert forall|x: ValueView, c: int, l: int| #[trigger] values_mark(*values, x, c, l) == (
    values_mark(*old(values), x, c, l) || (x == value@ && c == cluster && l == row)) by {
        if attr::is_scalar(x) {
            let key2 = attr::scalar_bytes(x);
            if key2 == k {
                attr::lemma_scalar_bytes_injective(x, value@);
                assert(builder_bit(now, c, l) == (builder_bit(was, c, l) || (c == cluster && l
                    == row)));
                if before.dom().contains(k) {
                    assert(was == before[k]);
                }
            } else {
                assert(after.dom().contains(key2) == before.dom().contains(key2));
            }
        }
    }
}

/// Notes which values a row has in one column.
fn mark_attribute(
    builders: &mut TextMap<ValueBuilders>,
    column: &String,
    value: &Value,
    row_counts: &Vec<usize>,
    cluster: usize,
    row: usize,
) -> (r: Result<(), Error>)
    requires
        builders_wf(*old(builders), row_counts@),
        cluster < row_counts@.len(),
        row < row_counts@[cluster as int],
    ensures
        r is Ok <==> attr::items_indexable(value@),
        r is Ok ==> builders_wf(*final(builders), row_counts@),
        r is Ok ==> forall|col: Seq<char>, x: ValueView, c: int, l: int| #[trigger]
            marks(*final(builders), col, x, c, l) == (marks(*old(builders), col, x, c, l) || (col
                == column@ && c == cluster && l == row && attr::indexed_items(value@).contains(x))),
        r is Err ==> r->Err_0 is InvalidSchema,
{
    let items = match indexable_values(value) {
        Ok(items) => items,
        Err(e) => {
            return Err(e);
        },
    };
    let ghost all = attr::indexed_items(value@);
    if items.len() == 0 {
        assert(forall|x: ValueView| !all.contains(x));
        return Ok(());
    }
    let ghost before = builders.map();
    let mut values = match builders.remove(column.as_str()) {
        Some(v) => v,
        None => SortedMap::new(),
    };
    let ghost was = values;
    proof {
        if !before.dom().contains(column@) {
            assert(forall|x: ValueView, c: int, l: int| !values_mark(was, x, c, l));
        }
    }
    let mut k: usize = 0;
    while k < items.len()
        invariant
            k <= items@.len(),
            items@.len() == all.len(),
            all == attr::indexed_items(value@),
            forall|i: int|
                0 <= i < items@.len() ==> (#[trigger] items@[i])@ == all[i] && attr::is_scalar(all[i]),
            values_wf(values, row_counts@),
            cluster < row_counts@.len(),
            row < row_counts@[cluster as int],
            forall|i: int| 0 <= i < k ==> attr::is_indexable(#[trigger] all[i]),
            forall|x: ValueView, c: int, l: int| #[trigger]
                values_mark(values, x, c, l) == (values_mark(was, x, c, l) || (c == cluster && l
                    == row && all.take(k as int).contains(x))),
        decreases items@.len() - k,
    {
        assert(items@[k as int]@ == all[k as int]);
        let key = match scalar_key(items[k]) {
            Ok(Some(key)) => key,
            Ok(None) => {
                assert(false);
                return Err(corrupt("scalar without bytes"));
            },
            Err(e) => {
                assert(!attr::is_indexable(attr::indexed_items(value@)[k as int]));
                return Err(e);
            },
        };
        let ghost prior = values;
        mark_value(&mut values, key, items[k], row_counts, cluster, row);
        assert forall|x: ValueView, c: int, l: int| #[trigger] values_mark(values, x, c, l) == (
        values_mark(was, x, c, l) || (c == cluster && l == row && all.take(k + 1).contains(x))) by {
            assert(values_mark(prior, x, c, l) == (values_mark(was, x, c, l) || (c == cluster && l
                == row && all.take(k as int).contains(x))));
            assert(all.take(k + 1) =~= all.take(k as int).push(all[k as int]));
            if all.take(k + 1).contains(x) {
                let i = all.take(k + 1).index_of(x);
                if i < k {
                    assert(all.take(k as int)[i] == x);
                }
            }
            if all.take(k as int).contains(x) {
                let i = all.take(k as int).index_of(x);
                assert(all.take(k + 1)[i] == x);
            }
            if x == all[k as int] {
                assert(all.take(k + 1)[k as int] == x);
            }
        }
        k = k + 1;
    }
    assert(all.take(k as int) =~= all);
    let ghost now = values;
    builders.insert(column.clone(), values);
    let ghost after = builders.map();
    assert(after =~= before.insert(column@, now));
    assert forall|col: Seq<char>| after.dom().contains(col) implies values_wf(
        #[trigger] after[col],
        row_counts@,
    ) by {
        if col != column@ {
            assert(after[col] == before[col]);
        }
    }
    assert forall|col: Seq<char>, x: ValueView, c: int, l: int| #[trigger]
        marks(*builders, col, x, c, l) == (marks(*old(builders), col, x, c, l) || (col == column@
            && c == cluster && l == row && attr::indexed_items(value@).contains(x))) by {
        if col == column@ {
            assert(values_mark(now, x, c, l) == (values_mark(was, x, c, l) || (c == cluster && l
                == row && all.contains(x))));
            if before.dom().contains(col) {
                assert(was == before[col]);
            } else {
                assert(!values_mark(was, x, c, l));
            }
        } else {
            assert(after.dom().contains(col) == before.dom().contains(col));
        }
    }
    Ok(())
}

/// A column among the first `n` of a document has a value.
spec fn first_columns_have(doc: Document, n: int, column: Seq<char>, x: ValueView) -> bool {
    exists|a: int|
        0 <= a < n && #[trigger] doc.attributes.keys()[a] == column && attr::indexed_items(
            doc.attributes.values()[a]@,
        ).contains(x)
}

/// Notes which values a row has.
fn mark_document(
    builders: &mut TextMap<ValueBuilders>,
    doc: &Document,
    row_counts: &Vec<usize>,
    cluster: usize,
    row: usize,
) -> (r: Result<(), Error>)
    requires
        doc.wf(),
        builders_wf(*old(builders), row_counts@),
        cluster < row_counts@.len(),
        row < row_counts@[cluster as int],
    ensures
        r is Ok <==> attr::document_indexable(doc@),
        r is Ok ==> builders_wf(*final(builders), row_counts@),
        r is Ok ==> forall|col: Seq<char>, x: ValueView, c: int, l: int| #[trigger]
            marks(*final(builders), col, x, c, l) == (marks(*old(builders), col, x, c, l) || (c
                == cluster && l == row && document_has(doc@, col, x))),
        r is Err ==> r->Err_0 is InvalidSchema,
{
    let ghost keys = doc.attributes.keys();
    let ghost vals = doc.attributes.values();
    let ghost start = *builders;
    let n = doc.attributes.len();
    let mut a: usize = 0;
    while a < n
        invariant
            a <= n,
            n == keys.len(),
            keys == doc.attributes.keys(),
            vals == doc.attributes.values(),
            doc.wf(),
            builders_wf(*builders, row_counts@),
            cluster < row_counts@.len(),
            row < row_counts@[cluster as int],
            forall|i: int| 0 <= i < a ==> attr::items_indexable((#[trigger] vals[i])@),
            forall|col: Seq<char>, x: ValueView, c: int, l: int| #[trigger]
                marks(*builders, col, x, c, l) == (marks(start, col, x, c, l) || (c == cluster && l
                    == row && first_columns_have(*doc, a as int, col, x))),
        decreases n - a,
    {
        let ghost prior = *builders;
        proof {
            doc.attributes.lemma_position(a as int);
        }
        match mark_attribute(
            builders,
            doc.attributes.key_at(a),
            doc.attributes.value_at(a),
            row_counts,
            cluster,
            row,
        ) {
            Ok(_) => {},
            Err(e) => {
                assert(doc@.attributes.dom().contains(keys[a as int]));
                assert(doc@.attributes[keys[a as int]] == vals[a as int]@);
                return Err(e);
            },
        }
        assert forall|col: Seq<char>, x: ValueView, c: int, l: int| #[trigger]
            marks(*builders, col, x, c, l) == (marks(start, col, x, c, l) || (c == cluster && l
                == row && first_columns_have(*doc, a + 1, col, x))) by {
            assert(marks(prior, col, x, c, l) == (marks(start, col, x, c, l) || (c == cluster && l
                == row && first_columns_have(*doc, a as int, col, x))));
            if first_columns_have(*doc, a + 1, col, x) {
                let i = choose|i: int|
                    0 <= i < a + 1 && #[trigger] doc.attributes.keys()[i] == col && attr::indexed_items(
                        doc.attributes.values()[i]@,
                    ).contains(x);
                if i < a {
                    assert(first_columns_have(*doc, a as int, col, x));
                }
            }
            if keys[a as int] == col && attr::indexed_items(vals[a as int]@).contains(x) {
                assert(doc.attributes.keys()[a as int] == col);
                assert(first_columns_have(*doc, a + 1, col, x));
            }
            if first_columns_have(*doc, a as int, col, x) {
                let i = choose|i: int|
                    0 <= i < a && #[trigger] doc.attributes.keys()[i] == col && attr::indexed_items(
                        doc.attributes.values()[i]@,
                    ).contains(x);
                assert(doc.attributes.keys()[i] == col);
                assert(first_columns_have(*doc, a + 1, col, x));
            }
        }
        a = a + 1;
    }
    assert forall|col: Seq<char>| doc@.attributes.dom().contains(col) implies attr::items_indexable(
        #[trigger] doc@.attributes[col],
    ) by {
        let i = keys.index_of(col);
        doc.attributes.lemma_position(i);
        assert(vals[i]@ == doc@.attributes[col]);
    }
    assert forall|col: Seq<char>, x: ValueView, c: int, l: int| #[trigger]
        marks(*builders, col, x, c, l) == (marks(*old(builders), col, x, c, l) || (c == cluster && l
            == row && document_has(doc@, col, x))) by {
        assert(first_columns_have(*doc, n as int, col, x) == document_has(doc@, col, x)) by {
            if document_has(doc@, col, x) {
                let i = keys.index_of(col);
                doc.attributes.lemma_position(i);
                assert(doc.attributes.keys()[i] == col);
            }
            if first_columns_have(*doc, n as int, col, x) {
                let i = choose|i: int|
                    0 <= i < n && #[trigger] doc.attributes.keys()[i] == col && attr::indexed_items(
                        doc.attributes.values()[i]@,
                    ).contains(x);
                doc.attributes.lemma_position(i);
            }
        }
    }
    Ok(())
}

/// A row that comes before row `row` of cluster `cluster`.
spec fn row_before(c: int, l: int, cluster: int, row: int) -> bool {
    c < cluster || (c == cluster && l < row)
}

/// The rows before row `row` of cluster `cluster` are noted.
spec fn noted(
    b: TextMap<ValueBuilders>,
    postings: Seq<VectorPosting>,
    docs: Map<IdView, DocumentView>,
    cluster: int,
    row: int,
) -> bool {
    forall|col: Seq<char>, x: ValueView, c: int, l: int| #[trigger]
        marks(b, col, x, c, l) == (row_before(c, l, cluster, row) && row_has(
            postings,
            docs,
            col,
            x,
            c,
            l,
        ))
}

/// The documents of the rows before row `row` of cluster `cluster` can be indexed.
spec fn indexable_before(
    postings: Seq<VectorPosting>,
    docs: Map<IdView, DocumentView>,
    cluster: int,
    row: int,
) -> bool {
    forall|c: int, l: int|
        row_before(c, l, cluster, row) ==> ((#[trigger] row_document(postings, docs, c, l)) matches Some(
            d,
        ) ==> attr::document_indexable(d))
}

/// Notes which values the rows of one cluster have.
fn mark_posting(
    builders: &mut TextMap<ValueBuilders>,
    postings: &Vec<VectorPosting>,
    cluster: usize,
    docs: &SortedMap<Id, Document>,
    row_counts: &Vec<usize>,
) -> (r: Result<(), Error>)
    requires
        documents::docs_wf(*docs),
        cluster < postings@.len(),
        row_counts@ == vector::shape_of(postings@),
        builders_wf(*old(builders), row_counts@),
        noted(*old(builders), postings@, documents::docs_view(*docs), cluster as int, 0),
        indexable_before(postings@, documents::docs_view(*docs), cluster as int, 0),
    ensures
        r is Ok ==> builders_wf(*final(builders), row_counts@),
        r is Ok ==> noted(*final(builders), postings@, documents::docs_view(*docs), cluster + 1, 0),
        r is Ok ==> indexable_before(postings@, documents::docs_view(*docs), cluster + 1, 0),
        r is Err ==> !rows_indexable(postings@, documents::docs_view(*docs)),
        r is Err ==> r->Err_0 is InvalidSchema,
{
    let ghost all = documents::docs_view(*docs);
    let ghost ps = postings@;
    let posting = &postings[cluster];
    assert(row_counts@[cluster as int] == ps[cluster as int].vectors@.len());
    let mut l: usize = 0;
    while l < posting.vectors.len()
        invariant
            l <= posting.vectors@.len(),
            *posting == ps[cluster as int],
            ps == postings@,
            all == documents::docs_view(*docs),
            documents::docs_wf(*docs),
            cluster < ps.len(),
            row_counts@ == vector::shape_of(ps),
            row_counts@[cluster as int] == posting.vectors@.len(),
            row_counts@.len() == ps.len(),
            builders_wf(*builders, row_counts@),
            noted(*builders, ps, all, cluster as int, l as int),
            indexable_before(ps, all, cluster as int, l as int),
        decreases posting.vectors@.len() - l,
    {
        let ghost prior = *builders;
        let entry = &posting.vectors[l];
        match docs.get(&entry.id) {
            Some(doc) => {
                assert(all.dom().contains(entry.id@));
                assert(all[entry.id@] == doc@);
                assert(row_document(ps, all, cluster as int, l as int) == Some(doc@));
                match mark_document(builders, doc, row_counts, cluster, l) {
                    Ok(_) => {},
                    Err(e) => {
                        return Err(e);
                    },
                }
            },
            None => {
                assert(!all.dom().contains(entry.id@));
                assert(row_document(ps, all, cluster as int, l as int) is None);
            },
        }
        assert forall|col: Seq<char>, x: ValueView, c: int, m: int| #[trigger]
            marks(*builders, col, x, c, m) == (row_before(c, m, cluster as int, l + 1) && row_has(
                ps,
                all,
                col,
                x,
                c,
                m,
            )) by {
            assert(marks(prior, col, x, c, m) == (row_before(c, m, cluster as int, l as int)
                && row_has(ps, all, col, x, c, m)));
        }
        assert forall|c: int, m: int| row_before(c, m, cluster as int, l + 1) implies ((
        #[trigger] row_document(ps, all, c, m)) matches Some(d) ==> attr::document_indexable(d)) by {
            if !row_before(c, m, cluster as int, l as int) {
                assert(c == cluster && m == l);
            }
        }
        l = l + 1;
    }
    assert forall|col: Seq<char>, x: ValueView, c: int, m: int| #[trigger]
        marks(*builders, col, x, c, m) == (row_before(c, m, cluster + 1, 0) && row_has(
            ps,
            all,
            col,
            x,
            c,
            m,
        )) by {
        assert(marks(*builders, col, x, c, m) == (row_before(c, m, cluster as int, l as int)
            && row_has(ps, all, col, x, c, m)));
    }
    assert forall|c: int, m: int| row_before(c, m, cluster + 1, 0) implies ((
    #[trigger] row_document(ps, all, c, m)) matches Some(d) ==> attr::document_indexable(d)) by {
        if !row_before(c, m, cluster as int, l as int) {
            assert(row_document(ps, all, c, m) is None);
        }
    }
    Ok(())
}

/// What a finished list of rows is: in cluster order, each with the words that the
/// rows of its cluster need and a bit set.
pub open spec fn rows_wf(rows: Seq<VectorFilterRows>, shape: Seq<usize>) -> bool {
    &&& forall|i: int, j: int|
        0 <= i < j < rows.len() ==> (#[trigger] rows[i]).cluster_id < (
        #[trigger] rows[j]).cluster_id
    &&& forall|i: int|
        0 <= i < rows.len() ==> {
            &&& (#[trigger] rows[i]).cluster_id < shape.len()
            &&& rows[i].words@.len() == mask::words_needed(shape[rows[i].cluster_id as int] as int)
            &&& exists|row: int| #[trigger] mask::bit_at(rows[i].words@, row)
        }
}

/// What a finished value is: of a value that can be indexed, with the clusters of
/// its lists of rows.
pub open spec fn value_wf(v: VectorFilterValue, shape: Seq<usize>) -> bool {
    &&& attr::is_indexable(v.value@)
    &&& rows_wf(v.rows@, shape)
    &&& v.clusters@.len() == v.rows@.len()
    &&& forall|i: int|
        0 <= i < v.clusters@.len() ==> (#[trigger] v.clusters@[i]) == v.rows@[i].cluster_id
}

/// No value occurs twice, and each is well formed.
pub open spec fn filter_values_wf(values: Seq<VectorFilterValue>, shape: Seq<usize>) -> bool {
    &&& forall|j: int| 0 <= j < values.len() ==> value_wf(#[trigger] values[j], shape)
    &&& forall|i: int, j: int|
        0 <= i < j < values.len() ==> (#[trigger] values[i]).value@ != (
        #[trigger] values[j]).value@
}

impl VectorFilterIndex {
    /// The columns are in order, and their values are well formed.
    pub open spec fn wf(self, shape: Seq<usize>) -> bool {
        &&& self.columns.wf()
        &&& forall|column: Seq<char>|
            self.columns.map().dom().contains(column) ==> filter_values_wf(
                (#[trigger] self.columns.map()[column]).values@,
                shape,
            )
    }
}

/// Leaves out the clusters in which no row has the value.
fn finish_value(b: ValueBuilder, key: Ghost<Seq<u8>>, shape: Ghost<Seq<usize>>) -> (v: VectorFilterValue)
    requires
        builder_wf(b, key@, shape@),
        shape@.len() <= u32::MAX,
    ensures
        v.value == b.value,
        value_wf(v, shape@),
        forall|c: int, l: int| #[trigger]
            rows_mark(v.rows@, c, l) == builder_bit(b, c, l),
{
    let ghost full = b.rows@;
    let n = b.rows.len();
    let ValueBuilder { value, rows: words_list } = b;
    let mut source = words_list;
    let mut clusters: Vec<u32> = Vec::new();
    let mut rows: Vec<VectorFilterRows> = Vec::new();
    let mut c: usize = 0;
    while c < n
        invariant
            c <= n,
            n == full.len(),
            n == shape@.len(),
            shape@.len() <= u32::MAX,
            source@.len() == n,
            forall|j: int| c <= j < n ==> #[trigger] source@[j] == full[j],
            forall|j: int|
                0 <= j < n ==> (#[trigger] full[j])@.len() == mask::words_needed(shape@[j] as int),
            rows_wf(rows@, shape@),
            forall|i: int| 0 <= i < rows@.len() ==> (#[trigger] rows@[i]).cluster_id < c,
            clusters@.len() == rows@.len(),
            forall|i: int|
                0 <= i < clusters@.len() ==> (#[trigger] clusters@[i]) == rows@[i].cluster_id,
            forall|j: int, l: int| #[trigger]
                rows_mark(rows@, j, l) == (0 <= j < c && mask::bit_at(full[j]@, l)),
        decreases n - c,
    {
        let ghost before = rows@;
        let mut words: Vec<u64> = Vec::new();
        assert(source@[c as int] == full[c as int]);
        std::mem::swap(&mut words, &mut source[c]);
        let any = any_bit(&words);
        if any {
            clusters.push(c as u32);
            rows.push(VectorFilterRows { cluster_id: c as u32, words });
            assert forall|i: int, j: int| 0 <= i < j < rows@.len() implies (
            #[trigger] rows@[i]).cluster_id < (#[trigger] rows@[j]).cluster_id by {
                assert(rows@[i] == before[i]);
                if j < before.len() {
                    assert(rows@[j] == before[j]);
                }
            }
            assert forall|i: int| 0 <= i < rows@.len() implies {
                &&& (#[trigger] rows@[i]).cluster_id < shape@.len()
                &&& rows@[i].words@.len() == mask::words_needed(
                    shape@[rows@[i].cluster_id as int] as int,
                )
                &&& exists|row: int| #[trigger] mask::bit_at(rows@[i].words@, row)
            } by {
                if i < before.len() {
                    assert(rows@[i] == before[i]);
                } else {
                    assert(rows@[i].words@ == full[c as int]@);
                    let row = choose|row: int| #[trigger] mask::bit_at(full[c as int]@, row);
                    assert(mask::bit_at(rows@[i].words@, row));
                }
            }
        }
        assert forall|j: int, l: int| #[trigger] rows_mark(rows@, j, l) == (0 <= j < c + 1
            && mask::bit_at(full[j]@, l)) by {
            assert(rows_mark(before, j, l) == (0 <= j < c && mask::bit_at(full[j]@, l)));
            if rows_mark(before, j, l) {
                let r = choose|r: int|
                    0 <= r < before.len() && (#[trigger] before[r]).cluster_id == j && mask::bit_at(
                        before[r].words@,
                        l,
                    );
                assert(rows@[r] == before[r]);
            }
            if rows_mark(rows@, j, l) {
                let r = choose|r: int|
                    0 <= r < rows@.len() && (#[trigger] rows@[r]).cluster_id == j && mask::bit_at(
                        rows@[r].words@,
                        l,
                    );
                if r < before.len() {
                    assert(rows@[r] == before[r]);
                    assert(rows_mark(before, j, l));
                }
            }
            if j == c && mask::bit_at(full[j]@, l) {
                assert(any);
                assert(rows@[before.len() as int].cluster_id == j);
            }
        }
        c = c + 1;
    }
    let v = VectorFilterValue { value, clusters, rows };
    assert forall|c: int, l: int| #[trigger] rows_mark(v.rows@, c, l) == builder_bit(b, c, l) by {
        assert(rows_mark(rows@, c, l) == (0 <= c < n && mask::bit_at(full[c]@, l)));
    }
    v
}

/// The finished values of one column.
fn finish_values(values: ValueBuilders, shape: Ghost<Seq<usize>>) -> (column: VectorFilterColumn)
    requires
        values_wf(values, shape@),
        shape@.len() <= u32::MAX,
    ensures
        filter_values_wf(column.values@, shape@),
        forall|x: ValueView, c: int, l: int| #[trigger]
            values_mark(values, x, c, l) == exists|j: int| #[trigger]
                value_marks(column.values@, j, x, c, l),
{
    let ghost keys = values.keys();
    let ghost vals = values.values();
    let entries = values.into_entries();
    let ghost given = entries@;
    let n = entries.len();
    assert forall|i: int| 0 <= i < n implies (#[trigger] given[i]).0@ == keys[i] && builder_wf(
        given[i].1,
        keys[i],
        shape@,
    ) by {
        values.lemma_position(i);
        assert(builder_wf(values.map()[keys[i]], keys[i], shape@));
    }
    let mut out: Vec<VectorFilterValue> = Vec::new();
    let mut rest = reversed(entries);
    let mut i: usize = 0;
    while i < n
        invariant
            i <= n,
            n == given.len(),
            n == keys.len(),
            shape@.len() <= u32::MAX,
            rest@.len() == n - i,
            forall|k: int| 0 <= k < rest@.len() ==> #[trigger] rest@[k] == given[n - 1 - k],
            forall|k: int|
                0 <= k < n ==> (#[trigger] given[k]).0@ == keys[k] && builder_wf(
                    given[k].1,
                    keys[k],
                    shape@,
                ),
            out@.len() == i,
            forall|k: int|
                0 <= k < i ==> value_wf(#[trigger] out@[k], shape@) && out@[k].value
                    == given[k].1.value,
            forall|k: int, c: int, l: int|
                0 <= k < i ==> #[trigger] rows_mark(out@[k].rows@, c, l) == builder_bit(
                    given[k].1,
                    c,
                    l,
                ),
        decreases n - i,
    {
        assert(rest@[rest@.len() - 1] == given[i as int]);
        if let Some(entry) = rest.pop() {
            assert(entry == given[i as int]);
            let ghost before = out@;
            let v = finish_value(entry.1, Ghost(keys[i as int]), shape);
            out.push(v);
            assert forall|k: int, c: int, l: int| 0 <= k < i + 1 implies #[trigger] rows_mark(
                out@[k].rows@,
                c,
                l,
            ) == builder_bit(given[k].1, c, l) by {
                if k < i {
                    assert(out@[k] == before[k]);
                    assert(rows_mark(before[k].rows@, c, l) == builder_bit(given[k].1, c, l));
                }
            }
        }
        i = i + 1;
    }
    let ghost done = out@;
    let column = VectorFilterColumn { values: out };
    assert(column.values@ == done);
    assert forall|a: int, b: int| 0 <= a < b < done.len() implies (#[trigger] done[a]).value@ != (
    #[trigger] done[b]).value@ by {
        assert(done[a].value == given[a].1.value && done[b].value == given[b].1.value);
        assert(keys[a] == attr::scalar_bytes(given[a].1.value@));
        assert(keys[b] == attr::scalar_bytes(given[b].1.value@));
        values.lemma_position(a);
        values.lemma_position(b);
    }
    assert forall|x: ValueView, c: int, l: int| #[trigger] values_mark(values, x, c, l)
        == exists|j: int| #[trigger] value_marks(column.values@, j, x, c, l) by {
        if values_mark(values, x, c, l) {
            let j = keys.index_of(attr::scalar_bytes(x));
            values.lemma_position(j);
            assert(given[j].1 == vals[j]);
            attr::lemma_scalar_bytes_injective(x, given[j].1.value@);
            assert(done[j].value == given[j].1.value);
            assert(rows_mark(done[j].rows@, c, l));
            assert(value_marks(column.values@, j, x, c, l));
        }
        if exists|j: int| #[trigger] value_marks(column.values@, j, x, c, l) {
            let j = choose|j: int| #[trigger] value_marks(column.values@, j, x, c, l);
            assert(done[j].value == given[j].1.value);
            assert(rows_mark(done[j].rows@, c, l) == builder_bit(given[j].1, c, l));
            values.lemma_position(j);
            assert(keys[j] == attr::scalar_bytes(x));
        }
    }
    column
}

/// The finished values of every column.
fn finish(builders: TextMap<ValueBuilders>, shape: Ghost<Seq<usize>>) -> (index: VectorFilterIndex)
    requires
        builders_wf(builders, shape@),
        shape@.len() <= u32::MAX,
    ensures
        index.wf(shape@),
        forall|col: Seq<char>, x: ValueView, c: int, l: int| #[trigger]
            index_marks(index, col, x, c, l) == marks(builders, col, x, c, l),
{
    let ghost keys = builders.keys();
    let ghost vals = builders.values();
    let entries = builders.into_entries();
    let ghost given = entries@;
    let n = entries.len();
    let mut rest = reversed(entries);
    let mut columns: TextMap<VectorFilterColumn> = TextMap::new();
    let mut i: usize = 0;
    while i < n
        invariant
            i <= n,
            n == given.len(),
            n == keys.len(),
            n == vals.len(),
            keys == builders.keys(),
            vals == builders.values(),
            builders_wf(builders, shape@),
            shape@.len() <= u32::MAX,
            rest@.len() == n - i,
            forall|k: int| 0 <= k < rest@.len() ==> #[trigger] rest@[k] == given[n - 1 - k],
            forall|k: int|
                0 <= k < n ==> (#[trigger] given[k]).0@ == keys[k] && given[k].1 == vals[k],
            columns.wf(),
            forall|col: Seq<char>| #[trigger]
                columns.map().dom().contains(col) <==> keys.take(i as int).contains(col),
            forall|col: Seq<char>|
                columns.map().dom().contains(col) ==> {
                    &&& filter_values_wf((#[trigger] columns.map()[col]).values@, shape@)
                    &&& forall|x: ValueView, c: int, l: int| #[trigger]
                        values_mark(builders.map()[col], x, c, l) == exists|j: int| #[trigger]
                            value_marks(columns.map()[col].values@, j, x, c, l)
                },
        decreases n - i,
    {
        assert(rest@[rest@.len() - 1] == given[i as int]);
        if let Some(entry) = rest.pop() {
            let ghost before = columns.map();
            let (name, values) = entry;
            let ghost col = name@;
            proof {
                builders.lemma_position(i as int);
                assert(values_wf(builders.map()[col], shape@));
            }
            let column = finish_values(values, shape);
            columns.insert(name, column);
            assert(columns.map() =~= before.insert(col, column));
            assert(keys.take(i + 1) =~= keys.take(i as int).push(col));
            assert forall|other: Seq<char>| #[trigger] columns.map().dom().contains(other)
                <==> keys.take(i + 1).contains(other) by {
                if keys.take(i + 1).contains(other) {
                    let k = keys.take(i + 1).index_of(other);
                    if k < i {
                        assert(keys.take(i as int)[k] == other);
                    }
                }
                if keys.take(i as int).contains(other) {
                    let k = keys.take(i as int).index_of(other);
                    assert(keys.take(i + 1)[k] == other);
                }
                if other == col {
                    assert(keys.take(i + 1)[i as int] == col);
                }
            }
            assert forall|other: Seq<char>| columns.map().dom().contains(other) implies {
                &&& filter_values_wf((#[trigger] columns.map()[other]).values@, shape@)
                &&& forall|x: ValueView, c: int, l: int| #[trigger]
                    values_mark(builders.map()[other], x, c, l) == exists|j: int| #[trigger]
                        value_marks(columns.map()[other].values@, j, x, c, l)
            } by {
                if other != col {
                    assert(before.dom().contains(other));
                    assert(columns.map()[other] == before[other]);
                }
            }
        }
        i = i + 1;
    }
    assert(keys.take(n as int) =~= keys);
    let index = VectorFilterIndex { columns };
    assert forall|col: Seq<char>, x: ValueView, c: int, l: int| #[trigger]
        index_marks(index, col, x, c, l) == marks(builders, col, x, c, l) by {
        if index.columns.map().dom().contains(col) {
            assert(columns.map()[col].values@ == column_values(index, col));
            assert(builders.map().dom().contains(col));
            assert(values_mark(builders.map()[col], x, c, l) == exists|j: int| #[trigger]
                value_marks(columns.map()[col].values@, j, x, c, l));
        } else {
            assert(column_values(index, col).len() == 0);
            assert(!builders.map().dom().contains(col));
        }
    }
    index
}

impl VectorFilterIndex {
    /// Notes the values of every row whose document is among `docs`.
    pub fn build(postings: &Vec<VectorPosting>, docs: &SortedMap<Id, Document>) -> (r: Result<
        VectorFilterIndex,
        Error,
    >)
        requires
            documents::docs_wf(*docs),
            vector::postings_wf(postings@),
            postings@.len() <= u32::MAX,
        ensures
            r is Ok <==> rows_indexable(postings@, documents::docs_view(*docs)),
            r is Err ==> r->Err_0 is InvalidSchema,
            r is Ok ==> r->Ok_0.wf(vector::shape_of(postings@)),
            r is Ok ==> forall|column: Seq<char>, x: ValueView, cluster: int, row: int| #[trigger]
                index_marks(r->Ok_0, column, x, cluster, row) == row_has(
                    postings@,
                    documents::docs_view(*docs),
                    column,
                    x,
                    cluster,
                    row,
                ),
    {
        let row_counts = row_counts_of(postings);
        let ghost all = documents::docs_view(*docs);
        let ghost ps = postings@;
        let ghost shape = row_counts@;
        let mut builders: TextMap<ValueBuilders> = TextMap::new();
        assert forall|c: int, l: int| row_before(c, l, 0, 0) implies ((#[trigger] row_document(
            ps,
            all,
            c,
            l,
        )) matches Some(d) ==> attr::document_indexable(d)) by {
            assert(row_document(ps, all, c, l) is None);
        }
        let mut c: usize = 0;
        while c < postings.len()
            invariant
                c <= ps.len(),
                ps == postings@,
                all == documents::docs_view(*docs),
                documents::docs_wf(*docs),
                shape == row_counts@,
                shape == vector::shape_of(ps),
                builders_wf(builders, shape),
                noted(builders, ps, all, c as int, 0),
                indexable_before(ps, all, c as int, 0),
            decreases ps.len() - c,
        {
            match mark_posting(&mut builders, postings, c, docs, &row_counts) {
                Ok(_) => {},
                Err(e) => {
                    return Err(e);
                },
            }
            c = c + 1;
        }
        assert forall|c: int, l: int| (#[trigger] row_document(ps, all, c, l)) matches Some(d)
            ==> attr::document_indexable(d) by {
            if !row_before(c, l, ps.len() as int, 0) {
                assert(row_document(ps, all, c, l) is None);
            }
        }
        let ghost done = builders;
        let index = finish(builders, Ghost(shape));
        assert forall|col: Seq<char>, x: ValueView, c: int, l: int| #[trigger]
            index_marks(index, col, x, c, l) == row_has(ps, all, col, x, c, l) by {
            assert(index_marks(index, col, x, c, l) == marks(done, col, x, c, l));
        }
        Ok(index)
    }

    /// The rows that have, in a column, a value that `matches` accepts. Without the
    /// column no row has one.
    pub fn mask_by_value<F: Fn(&Value) -> bool>(
        &self,
        row_counts: Vec<usize>,
        column: &str,
        matches: F,
    ) -> (mask: VectorFilterMask)
        requires
            self.columns.wf(),
            forall|v: &Value| #[trigger] call_requires(matches, (v,)),
        ensures
            mask.wf(),
            mask.shape() == row_counts@,
            forall|cluster: int, row: int| #[trigger]
                mask.bit(cluster, row) ==> exists|j: int|
                    mask.covers(cluster, row) && #[trigger] accepted(
                        matches,
                        column_values(*self, column@),
                        j,
                        true,
                    ) && rows_mark(column_values(*self, column@)[j].rows@, cluster, row),
            forall|cluster: int, row: int, j: int|
                mask.covers(cluster, row) && !#[trigger] mask.bit(cluster, row) && 0 <= j
                    < column_values(*self, column@).len() && #[trigger] rows_mark(
                    column_values(*self, column@)[j].rows@,
                    cluster,
                    row,
                ) ==> accepted(matches, column_values(*self, column@), j, false),
    {
        let ghost values = column_values(*self, column@);
        let mut mask = VectorFilterMask::empty(row_counts);
        let found = match self.columns.get(column) {
            Some(found) => found,
            None => {
                return mask;
            },
        };
        assert(found.values@ == values);
        let mut j: usize = 0;
        while j < found.values.len()
            invariant
                j <= values.len(),
                found.values@ == values,
                forall|v: &Value| #[trigger] call_requires(matches, (v,)),
                mask.wf(),
                mask.shape() == row_counts@,
                forall|c: int, l: int| #[trigger]
                    mask.bit(c, l) ==> exists|i: int|
                        mask.covers(c, l) && #[trigger] accepted(matches, values, i, true)
                            && rows_mark(values[i].rows@, c, l),
                forall|c: int, l: int, i: int|
                    mask.covers(c, l) && !#[trigger] mask.bit(c, l) && 0 <= i < j
                        && #[trigger] rows_mark(values[i].rows@, c, l) ==> accepted(
                        matches,
                        values,
                        i,
                        false,
                    ),
            decreases values.len() - j,
        {
            let ghost before = mask;
            let accept = matches(&found.values[j].value);
            assert(accepted(matches, values, j as int, accept));
            if accept {
                unite_rows(&mut mask, &found.values[j].rows);
            }
            proof {
                assert forall|c: int, l: int| #[trigger] mask.covers(c, l) == before.covers(c, l) by {
                    mask.lemma_same_cover(before, c, l);
                }
                assert forall|c: int, l: int| #[trigger] mask.bit(c, l) implies exists|i: int|
                    mask.covers(c, l) && #[trigger] accepted(matches, values, i, true) && rows_mark(
                        values[i].rows@,
                        c,
                        l,
                    ) by {
                    mask.lemma_bit_covered(c, l);
                    if before.bit(c, l) {
                        let i = choose|i: int|
                            before.covers(c, l) && #[trigger] accepted(matches, values, i, true)
                                && rows_mark(values[i].rows@, c, l);
                        assert(accepted(matches, values, i, true));
                    } else {
                        assert(accepted(matches, values, j as int, true));
                    }
                }
                assert forall|c: int, l: int, i: int|
                    mask.covers(c, l) && !#[trigger] mask.bit(c, l) && 0 <= i < j + 1
                        && #[trigger] rows_mark(values[i].rows@, c, l) implies accepted(
                    matches,
                    values,
                    i,
                    false,
                ) by {
                    assert(!before.bit(c, l));
                    if i < j {
                        assert(before.covers(c, l));
                    }
                }
            }
            j = j + 1;
        }
        mask
    }
}

/// What `matches` may answer about value `j` of a column.
pub open spec fn accepted<F: Fn(&Value) -> bool>(
    matches: F,
    values: Seq<VectorFilterValue>,
    j: int,
    answer: bool,
) -> bool {
    0 <= j < values.len() && call_ensures(matches, (&values[j].value,), answer)
}

/// Sets the bits of some lists of rows.
fn unite_rows(mask: &mut VectorFilterMask, rows: &Vec<VectorFilterRows>)
    requires
        old(mask).wf(),
    ensures
        final(mask).wf(),
        final(mask).shape() == old(mask).shape(),
        forall|c: int, l: int| #[trigger]
            final(mask).bit(c, l) == (old(mask).bit(c, l) || (old(mask).covers(c, l) && rows_mark(
                rows@,
                c,
                l,
            ))),
{
    let ghost start = *mask;
    let mut r: usize = 0;
    while r < rows.len()
        invariant
            r <= rows@.len(),
            start.wf(),
            mask.wf(),
            mask.shape() == start.shape(),
            forall|c: int, l: int| #[trigger]
                mask.bit(c, l) == (start.bit(c, l) || (start.covers(c, l) && rows_mark(
                    rows@.take(r as int),
                    c,
                    l,
                ))),
        decreases rows@.len() - r,
    {
        let ghost before = *mask;
        mask.unite_cluster(rows[r].cluster_id as usize, &rows[r].words);
        assert forall|c: int, l: int| #[trigger] mask.bit(c, l) == (start.bit(c, l) || (
        start.covers(c, l) && rows_mark(rows@.take(r + 1), c, l))) by {
            before.lemma_same_cover(start, c, l);
            assert(before.bit(c, l) == (start.bit(c, l) || (start.covers(c, l) && rows_mark(
                rows@.take(r as int),
                c,
                l,
            ))));
            if rows_mark(rows@.take(r + 1), c, l) {
                let i = choose|i: int|
                    0 <= i < rows@.take(r + 1).len() && (#[trigger] rows@.take(
                        r + 1,
                    )[i]).cluster_id == c && mask::bit_at(rows@.take(r + 1)[i].words@, l);
                if i < r {
                    assert(rows@.take(r as int)[i] == rows@[i]);
                }
            }
            if rows_mark(rows@.take(r as int), c, l) {
                let i = choose|i: int|
                    0 <= i < rows@.take(r as int).len() && (#[trigger] rows@.take(
                        r as int,
                    )[i]).cluster_id == c && mask::bit_at(rows@.take(r as int)[i].words@, l);
                assert(rows@.take(r + 1)[i] == rows@[i]);
            }
            if rows@[r as int].cluster_id == c && mask::bit_at(rows@[r as int].words@, l) {
                assert(rows@.take(r + 1)[r as int] == rows@[r as int]);
            }
        }
        r = r + 1;
    }
    assert(rows@.take(r as int) =~= rows@);
}

} // verus!
