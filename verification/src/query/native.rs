//! Filters that a vector index answers from the attribute values it keeps beside
//! its vectors.

use vstd::prelude::*;

use crate::attr;
use crate::attr::BoundView;
use crate::query;
use crate::query::{eq_filter_value, is_sortable_value, range_filter_value, FilterExpr, FilterView, RangeBound};
use crate::value;
use crate::value::{DocumentView, IdView, Value, ValueView};
use crate::vector;
use crate::vector::filter;
use crate::vector::filter::VectorFilterIndex;
use crate::vector::mask::VectorFilterMask;
use crate::vector::VectorIndex;

verus! {

/// A bound, if there is one, is a scalar.
pub open spec fn bound_sortable(b: Option<BoundView>) -> bool {
    b matches Some(b) ==> query::is_sortable(b.value)
}

/// The index can answer a filter: it compares with no array.
pub open spec fn answerable(f: FilterView) -> bool
    decreases f,
{
    match f {
        FilterView::Eq { column, value } => !(value is Array),
        FilterView::Range { column, lower, upper } => bound_sortable(lower) && bound_sortable(
            upper,
        ),
        FilterView::And(fs) => forall|i: int| 0 <= i < fs.len() ==> answerable(#[trigger] fs[i]),
        FilterView::Or(fs) => forall|i: int| 0 <= i < fs.len() ==> answerable(#[trigger] fs[i]),
        FilterView::Not(f) => answerable(*f),
    }
}

/// A row has a value that equals another.
pub open spec fn row_equals(
    fi: VectorFilterIndex,
    column: Seq<char>,
    expected: ValueView,
    cluster: int,
    row: int,
) -> bool {
    exists|x: ValueView| #[trigger]
        filter::index_marks(fi, column, x, cluster, row) && query::eq_holds(x, expected)
}

/// A row has a value between two bounds.
pub open spec fn row_in_range(
    fi: VectorFilterIndex,
    column: Seq<char>,
    lower: Option<BoundView>,
    upper: Option<BoundView>,
    cluster: int,
    row: int,
) -> bool {
    exists|x: ValueView| #[trigger]
        filter::index_marks(fi, column, x, cluster, row) && query::range_holds(x, lower, upper)
}

/// What the index says of a row and a filter.
pub open spec fn native_holds(
    fi: VectorFilterIndex,
    f: FilterView,
    cluster: int,
    row: int,
) -> bool
    decreases f,
{
    match f {
        FilterView::Eq { column, value } => row_equals(fi, column, value, cluster, row),
        FilterView::Range { column, lower, upper } => row_in_range(
            fi,
            column,
            lower,
            upper,
            cluster,
            row,
        ),
        FilterView::And(fs) => forall|i: int|
            0 <= i < fs.len() ==> native_holds(fi, #[trigger] fs[i], cluster, row),
        FilterView::Or(fs) => exists|i: int|
            0 <= i < fs.len() && native_holds(fi, #[trigger] fs[i], cluster, row),
        FilterView::Not(f) => !native_holds(fi, *f, cluster, row),
    }
}

/// The index has this row.
pub open spec fn has_row(index: VectorIndex, cluster: int, row: int) -> bool {
    0 <= cluster < index.postings@.len() && 0 <= row < index.postings@[cluster].vectors@.len()
}

/// A mask is what the index says of a filter.
pub open spec fn is_mask_for(index: VectorIndex, f: FilterView, mask: VectorFilterMask) -> bool {
    &&& mask.wf()
    &&& mask.shape() == vector::shape_of(index.postings@)
    &&& forall|c: int, l: int|
        has_row(index, c, l) ==> #[trigger] mask.bit(c, l) == native_holds(
            index.filter_index,
            f,
            c,
            l,
        )
}

fn eq_mask(index: &VectorIndex, column: &String, value: &Value) -> (mask: VectorFilterMask)
    requires
        index.filter_index.columns.wf(),
    ensures
        mask.wf(),
        mask.shape() == vector::shape_of(index.postings@),
        forall|c: int, l: int|
            has_row(*index, c, l) ==> #[trigger] mask.bit(c, l) == row_equals(
                index.filter_index,
                column@,
                value@,
                c,
                l,
            ),
{
    let test = |actual: &Value| -> (b: bool)
        ensures
            b == query::eq_holds(actual@, value@),
        { eq_filter_value(actual, value) };
    let mask = index.filter_mask_by_value(column.as_str(), test);
    proof {
        let fi = index.filter_index;
        let values = filter::column_values(fi, column@);
        assert forall|c: int, l: int| has_row(*index, c, l) implies #[trigger] mask.bit(c, l)
            == row_equals(fi, column@, value@, c, l) by {
            mask.lemma_covers(c, l);
            if mask.bit(c, l) {
                let j = choose|j: int|
                    mask.covers(c, l) && #[trigger] filter::accepted(test, values, j, true)
                        && filter::rows_mark(values[j].rows@, c, l);
                let x = values[j].value@;
                assert(filter::value_marks(values, j, x, c, l));
                assert(filter::index_marks(fi, column@, x, c, l));
                assert(query::eq_holds(x, value@));
            } else if row_equals(fi, column@, value@, c, l) {
                let x = choose|x: ValueView| #[trigger]
                    filter::index_marks(fi, column@, x, c, l) && query::eq_holds(x, value@);
                let j = choose|j: int| #[trigger] filter::value_marks(values, j, x, c, l);
                assert(filter::rows_mark(values[j].rows@, c, l));
                assert(filter::accepted(test, values, j, false));
            }
        }
    }
    mask
}

fn range_mask(
    index: &VectorIndex,
    column: &String,
    lower: &Option<RangeBound>,
    upper: &Option<RangeBound>,
) -> (mask: VectorFilterMask)
    requires
        index.filter_index.columns.wf(),
    ensures
        mask.wf(),
        mask.shape() == vector::shape_of(index.postings@),
        forall|c: int, l: int|
            has_row(*index, c, l) ==> #[trigger] mask.bit(c, l) == row_in_range(
                index.filter_index,
                column@,
                query::optional_bound_view(*lower),
                query::optional_bound_view(*upper),
                c,
                l,
            ),
{
    let test = |actual: &Value| -> (b: bool)
        ensures
            b == query::range_holds(
                actual@,
                query::optional_bound_view(*lower),
                query::optional_bound_view(*upper),
            ),
        { range_filter_value(actual, lower, upper) };
    let mask = index.filter_mask_by_value(column.as_str(), test);
    proof {
        let fi = index.filter_index;
        let lo = query::optional_bound_view(*lower);
        let hi = query::optional_bound_view(*upper);
        let values = filter::column_values(fi, column@);
        assert forall|c: int, l: int| has_row(*index, c, l) implies #[trigger] mask.bit(c, l)
            == row_in_range(fi, column@, lo, hi, c, l) by {
            mask.lemma_covers(c, l);
            if mask.bit(c, l) {
                let j = choose|j: int|
                    mask.covers(c, l) && #[trigger] filter::accepted(test, values, j, true)
                        && filter::rows_mark(values[j].rows@, c, l);
                let x = values[j].value@;
                assert(filter::value_marks(values, j, x, c, l));
                assert(filter::index_marks(fi, column@, x, c, l));
                assert(query::range_holds(x, lo, hi));
            } else if row_in_range(fi, column@, lo, hi, c, l) {
                let x = choose|x: ValueView| #[trigger]
                    filter::index_marks(fi, column@, x, c, l) && query::range_holds(x, lo, hi);
                let j = choose|j: int| #[trigger] filter::value_marks(values, j, x, c, l);
                assert(filter::rows_mark(values[j].rows@, c, l));
                assert(filter::accepted(test, values, j, false));
            }
        }
    }
    mask
}

/// Whether a bound, if there is one, is a scalar.
pub fn is_sortable_bound(b: &Option<RangeBound>) -> (r: bool)
    ensures
        r == bound_sortable(query::optional_bound_view(*b)),
{
    match b {
        Some(b) => is_sortable_value(b.value()),
        None => true,
    }
}

/// The rows that meet a filter, as far as the index can tell; none for a filter
/// that it cannot answer.
pub fn native_filter_mask(index: &VectorIndex, filter: &FilterExpr) -> (r: Option<VectorFilterMask>)
    requires
        index.filter_index.columns.wf(),
    ensures
        r is Some <==> answerable(filter@),
        r matches Some(mask) ==> is_mask_for(*index, filter@, mask),
    decreases filter,
{
    match filter {
        FilterExpr::Eq { column, value } => {
            if let Value::Array(_) = value {
                return None;
            }
            Some(eq_mask(index, column, value))
        },
        FilterExpr::Range { column, lower, upper } => {
            if !is_sortable_bound(lower) || !is_sortable_bound(upper) {
                return None;
            }
            Some(range_mask(index, column, lower, upper))
        },
        FilterExpr::And(filters) => {
            let mut out = index.all_filter_mask();
            let ghost fi = index.filter_index;
            let mut i: usize = 0;
            while i < filters.len()
                invariant
                    i <= filters@.len(),
                    *filter == FilterExpr::And(*filters),
                    index.filter_index.columns.wf(),
                    fi == index.filter_index,
                    out.wf(),
                    out.shape() == vector::shape_of(index.postings@),
                    forall|j: int| 0 <= j < i ==> answerable(#[trigger] filter@->And_0[j]),
                    forall|c: int, l: int|
                        has_row(*index, c, l) ==> #[trigger] out.bit(c, l) == (forall|j: int|
                            0 <= j < i ==> native_holds(fi, #[trigger] filter@->And_0[j], c, l)),
                decreases filters@.len() - i,
            {
                assert(filter->And_0@[i as int] == filters@[i as int]);
                assert(decreases_to!(*filter => filter->And_0@[i as int]));
                assert(filter@->And_0[i as int] == filters@[i as int]@);
                match native_filter_mask(index, &filters[i]) {
                    Some(mask) => {
                        let ghost before = out;
                        out = out.and(&mask);
                        assert forall|c: int, l: int| has_row(*index, c, l) implies
                            #[trigger] out.bit(c, l) == (forall|j: int|
                            0 <= j < i + 1 ==> native_holds(
                                fi,
                                #[trigger] filter@->And_0[j],
                                c,
                                l,
                            )) by {
                            mask.lemma_covers(c, l);
                            assert(before.bit(c, l) == (forall|j: int|
                                0 <= j < i ==> native_holds(
                                    fi,
                                    #[trigger] filter@->And_0[j],
                                    c,
                                    l,
                                )));
                            assert(mask.bit(c, l) == native_holds(
                                fi,
                                filter@->And_0[i as int],
                                c,
                                l,
                            ));
                        }
                    },
                    None => {
                        assert(!answerable(filter@->And_0[i as int]));
                        return None;
                    },
                }
                i = i + 1;
            }
            Some(out)
        },
        FilterExpr::Or(filters) => {
            let mut out = index.empty_filter_mask();
            let ghost fi = index.filter_index;
            let mut i: usize = 0;
            while i < filters.len()
                invariant
                    i <= filters@.len(),
                    *filter == FilterExpr::Or(*filters),
                    index.filter_index.columns.wf(),
                    fi == index.filter_index,
                    out.wf(),
                    out.shape() == vector::shape_of(index.postings@),
                    forall|j: int| 0 <= j < i ==> answerable(#[trigger] filter@->Or_0[j]),
                    forall|c: int, l: int|
                        has_row(*index, c, l) ==> #[trigger] out.bit(c, l) == (exists|j: int|
                            0 <= j < i && native_holds(fi, #[trigger] filter@->Or_0[j], c, l)),
                decreases filters@.len() - i,
            {
                assert(filter->Or_0@[i as int] == filters@[i as int]);
                assert(decreases_to!(*filter => filter->Or_0@[i as int]));
                assert(filter@->Or_0[i as int] == filters@[i as int]@);
                match native_filter_mask(index, &filters[i]) {
                    Some(mask) => {
                        let ghost before = out;
                        out = out.or(&mask);
                        assert forall|c: int, l: int| has_row(*index, c, l) implies
                            #[trigger] out.bit(c, l) == (exists|j: int|
                            0 <= j < i + 1 && native_holds(
                                fi,
                                #[trigger] filter@->Or_0[j],
                                c,
                                l,
                            )) by {
                            before.lemma_covers(c, l);
                            assert(before.bit(c, l) == (exists|j: int|
                                0 <= j < i && native_holds(
                                    fi,
                                    #[trigger] filter@->Or_0[j],
                                    c,
                                    l,
                                )));
                            assert(mask.bit(c, l) == native_holds(
                                fi,
                                filter@->Or_0[i as int],
                                c,
                                l,
                            ));
                        }
                    },
                    None => {
                        assert(!answerable(filter@->Or_0[i as int]));
                        return None;
                    },
                }
                i = i + 1;
            }
            Some(out)
        },
        FilterExpr::Not(inner) => match native_filter_mask(index, inner) {
            Some(mask) => Some(mask.not()),
            None => None,
        },
    }
}

/// No attribute of a document is null.
pub open spec fn no_nulls(d: DocumentView) -> bool {
    forall|column: Seq<char>| #[trigger]
        d.attributes.dom().contains(column) ==> !(d.attributes[column] is Null)
}

/// What a vector index says of a filter is what the document of the row says: the
/// rows that a filtered search leaves out are exactly those whose documents, as
/// they were when the index was built, do not meet the filter.
pub proof fn law_native_filter_is_exact(
    index: VectorIndex,
    docs: Map<IdView, DocumentView>,
    f: FilterView,
    cluster: int,
    row: int,
)
    requires
        forall|column: Seq<char>, x: ValueView, c: int, l: int| #[trigger]
            filter::index_marks(index.filter_index, column, x, c, l) == filter::row_has(
                index.postings@,
                docs,
                column,
                x,
                c,
                l,
            ),
        answerable(f),
        filter::row_document(index.postings@, docs, cluster, row) is Some,
        attr::document_indexable(
            filter::row_document(index.postings@, docs, cluster, row)->Some_0,
        ),
        no_nulls(filter::row_document(index.postings@, docs, cluster, row)->Some_0),
    ensures
        native_holds(index.filter_index, f, cluster, row) == query::filter_holds(
            f,
            filter::row_document(index.postings@, docs, cluster, row)->Some_0,
        ),
    decreases f,
{
    let fi = index.filter_index;
    let d = filter::row_document(index.postings@, docs, cluster, row)->Some_0;
    match f {
        FilterView::Eq { column, value } => {
            if query::filter_holds(f, d) {
                let actual = d.attributes[column];
                let items = attr::indexed_items(actual);
                match actual {
                    ValueView::Array(list) => {
                        let i = choose|i: int|
                            0 <= i < list.len() && #[trigger] value::scalars_equal(list[i], value);
                        let x = list[i];
                        assert(attr::is_indexable(items[i]));
                        assert(items.contains(x));
                        assert(filter::row_has(index.postings@, docs, column, x, cluster, row));
                        assert(filter::index_marks(fi, column, x, cluster, row));
                        assert(query::eq_holds(x, value));
                    },
                    _ => {
                        assert(items[0] == actual);
                        assert(items.contains(actual));
                        assert(filter::row_has(
                            index.postings@,
                            docs,
                            column,
                            actual,
                            cluster,
                            row,
                        ));
                        assert(filter::index_marks(fi, column, actual, cluster, row));
                    },
                }
            }
            if row_equals(fi, column, value, cluster, row) {
                let x = choose|x: ValueView| #[trigger]
                    filter::index_marks(fi, column, x, cluster, row) && query::eq_holds(x, value);
                assert(filter::row_has(index.postings@, docs, column, x, cluster, row));
                let actual = d.attributes[column];
                let items = attr::indexed_items(actual);
                let i = items.index_of(x);
                assert(items[i] == x);
                assert(attr::is_indexable(items[i]));
                match actual {
                    ValueView::Array(list) => {
                        assert(value::scalars_equal(list[i], value));
                    },
                    _ => {},
                }
            }
        },
        FilterView::Range { column, lower, upper } => {
            if query::filter_holds(f, d) {
                let actual = d.attributes[column];
                let items = attr::indexed_items(actual);
                match actual {
                    ValueView::Array(list) => {
                        let i = choose|i: int|
                            0 <= i < list.len() && #[trigger] query::in_range(
                                list[i],
                                lower,
                                upper,
                            );
                        let x = list[i];
                        assert(attr::is_indexable(items[i]));
                        assert(items.contains(x));
                        assert(filter::row_has(index.postings@, docs, column, x, cluster, row));
                        assert(filter::index_marks(fi, column, x, cluster, row));
                        assert(query::range_holds(x, lower, upper));
                    },
                    _ => {
                        assert(items[0] == actual);
                        assert(items.contains(actual));
                        assert(filter::row_has(
                            index.postings@,
                            docs,
                            column,
                            actual,
                            cluster,
                            row,
                        ));
                        assert(filter::index_marks(fi, column, actual, cluster, row));
                    },
                }
            }
            if row_in_range(fi, column, lower, upper, cluster, row) {
                let x = choose|x: ValueView| #[trigger]
                    filter::index_marks(fi, column, x, cluster, row) && query::range_holds(
                        x,
                        lower,
                        upper,
                    );
                assert(filter::row_has(index.postings@, docs, column, x, cluster, row));
                let actual = d.attributes[column];
                let items = attr::indexed_items(actual);
                let i = items.index_of(x);
                assert(items[i] == x);
                assert(attr::is_indexable(items[i]));
                match actual {
                    ValueView::Array(list) => {
                        assert(query::in_range(list[i], lower, upper));
                    },
                    _ => {},
                }
            }
        },
        FilterView::And(fs) => {
            assert forall|i: int| 0 <= i < fs.len() implies native_holds(
                fi,
                #[trigger] fs[i],
                cluster,
                row,
            ) == query::filter_holds(fs[i], d) by {
                law_native_filter_is_exact(index, docs, fs[i], cluster, row);
            }
        },
        FilterView::Or(fs) => {
            assert forall|i: int| 0 <= i < fs.len() implies native_holds(
                fi,
                #[trigger] fs[i],
                cluster,
                row,
            ) == query::filter_holds(fs[i], d) by {
                law_native_filter_is_exact(index, docs, fs[i], cluster, row);
            }
        },
        FilterView::Not(g) => {
            law_native_filter_is_exact(index, docs, *g, cluster, row);
        },
    }
}

} // verus!
