//! Running a query over documents.

use vstd::prelude::*;

use crate::phrase::say;
use crate::documents;
use crate::error::{invalid_query, Error};
use crate::query;
use crate::query::{matches_filter, FilterExpr, FilterView, OrderBy, QueryRow};
use crate::query::candidates;
use crate::schema::DistanceMetric;
use crate::sorted::{SortedMap, SortedSet};
use crate::sorting::reversed;
use crate::value;
use crate::value::{copy_id, float_from_int, is_finite, Document, DocumentView, Id, IdView, Value, ValueView};
use crate::vector;
use crate::wal;
use crate::wal::{op_id, OpView, WalOp};

verus! {

// ---------------------------------------------------------------------------
// Requests
// ---------------------------------------------------------------------------

/// A number computed over the rows of a query.
#[derive(Clone, Debug, PartialEq, Eq)]
pub enum Aggregate {
    Count,
    Sum { column: String },
}

/// Asks for the nearest vectors, scoring every candidate.
#[derive(Clone, Debug)]
pub struct ExactVectorQuery {
    pub column: String,
    pub vector: Vec<u32>,
    pub k: usize,
    pub metric: Option<DistanceMetric>,
}

/// Asks for the nearest vectors from a vector index.
#[derive(Clone, Debug)]
pub struct ApproxVectorQuery {
    pub column: String,
    pub vector: Vec<u32>,
    pub k: usize,
    pub probes: Option<usize>,
    pub metric: Option<DistanceMetric>,
}

/// A query.
#[derive(Debug)]
pub struct Query {
    pub filter: Option<FilterExpr>,
    pub order_by: Option<OrderBy>,
    pub limit: Option<usize>,
    pub aggregates: Vec<Aggregate>,
    pub exact_vector: Option<ExactVectorQuery>,
    pub approx_vector: Option<ApproxVectorQuery>,
}

impl Query {
    /// Asks for all documents.
    pub fn all() -> (q: Query)
        ensures
            q.filter is None,
            q.order_by is None,
            q.limit is None,
            q.aggregates@.len() == 0,
            q.exact_vector is None,
            q.approx_vector is None,
    {
        Query {
            filter: None,
            order_by: None,
            limit: None,
            aggregates: Vec::new(),
            exact_vector: None,
            approx_vector: None,
        }
    }
}

/// How a query is run.
#[derive(Clone, Copy, Debug, PartialEq, Eq, Structural)]
pub enum QueryPath {
    /// From a vector index.
    Nearest,
    /// Over all candidates.
    Scan,
}

/// How a query is run: from a vector index if it asks for nearest vectors and
/// neither orders rows nor aggregates over them. It cannot ask for nearest vectors
/// twice.
pub fn query_path(query: &Query) -> (r: Result<QueryPath, Error>)
    ensures
        r is Err <==> query.exact_vector is Some && query.approx_vector is Some,
        r is Err ==> r->Err_0 is InvalidQuery && r->Err_0->InvalidQuery_0@
            == "query cannot specify both exact_vector and approx_vector"@,
        r matches Ok(path) ==> (path == QueryPath::Nearest <==> query.approx_vector is Some
            && query.order_by is None && query.aggregates@.len() == 0),
{
    if query.exact_vector.is_some() && query.approx_vector.is_some() {
        return Err(invalid_query("query cannot specify both exact_vector and approx_vector"));
    }
    if query.approx_vector.is_some() && query.order_by.is_none() && query.aggregates.len() == 0 {
        Ok(QueryPath::Nearest)
    } else {
        Ok(QueryPath::Scan)
    }
}

// ---------------------------------------------------------------------------
// Rows
// ---------------------------------------------------------------------------

/// What a row stands for.
#[verifier::ext_equal]
pub struct RowView {
    pub id: IdView,
    pub document: DocumentView,
    pub score: Option<u32>,
}

pub open spec fn row_view(row: QueryRow) -> RowView {
    RowView { id: row.id@, document: row.document@, score: row.score }
}

pub open spec fn rows_view(rows: Seq<QueryRow>) -> Seq<RowView> {
    Seq::new(rows.len(), |i: int| row_view(rows[i]))
}

/// Rows, without scores, for those of the first `n` documents that meet a filter.
pub open spec fn selected(
    ids: Seq<IdView>,
    docs: documents::Docs,
    filter: Option<&FilterExpr>,
    n: int,
) -> Seq<RowView>
    decreases n,
{
    if n <= 0 {
        Seq::empty()
    } else {
        let front = selected(ids, docs, filter, n - 1);
        let d = docs[ids[n - 1]];
        if query::accepts(filter, d) {
            front.push(RowView { id: ids[n - 1], document: d, score: None })
        } else {
            front
        }
    }
}

/// Rows for the documents that meet a filter, in key order.
pub fn select_rows(docs: SortedMap<Id, Document>, filter: Option<&FilterExpr>) -> (rows: Vec<
    QueryRow,
>)
    requires
        documents::docs_wf(docs),
    ensures
        query::rows_wf(rows@),
        rows_view(rows@) == selected(
            docs.keys(),
            documents::docs_view(docs),
            filter,
            docs.keys().len() as int,
        ),
{
    let ghost ids = docs.keys();
    let ghost all = documents::docs_view(docs);
    let entries = docs.into_entries();
    let ghost given = entries@;
    let n = entries.len();
    let mut rest = reversed(entries);
    let mut rows: Vec<QueryRow> = Vec::new();
    let mut i: usize = 0;
    assert(rows_view(rows@) =~= Seq::empty());
    while i < n
        invariant
            i <= n,
            n == given.len(),
            n == ids.len(),
            ids == docs.keys(),
            all == documents::docs_view(docs),
            documents::docs_wf(docs),
            rest@.len() == n - i,
            forall|k: int| 0 <= k < rest@.len() ==> #[trigger] rest@[k] == given[n - 1 - k],
            forall|k: int|
                0 <= k < n ==> (#[trigger] given[k]).0@ == ids[k] && given[k].1
                    == docs.values()[k],
            query::rows_wf(rows@),
            rows_view(rows@) == selected(ids, all, filter, i as int),
        decreases n - i,
    {
        assert(rest@[rest@.len() - 1] == given[i as int]);
        if let Some((id, document)) = rest.pop() {
            proof {
                docs.lemma_position(i as int);
                assert(given[i as int].0@ == ids[i as int]);
                assert(docs.map()[ids[i as int]].wf());
                assert(all[ids[i as int]] == document@);
            }
            if matches_filter(filter, &document) {
                let ghost before = rows@;
                let row = QueryRow { id, document, score: None };
                rows.push(row);
                assert(rows_view(rows@) =~= rows_view(before).push(row_view(row)));
            }
        }
        i = i + 1;
    }
    rows
}

/// The documents that operations are about.
pub open spec fn touched(ops: Seq<OpView>) -> Set<IdView> {
    Set::new(
        |id: IdView| exists|i: int| 0 <= i < ops.len() && wal::id_of_op(#[trigger] ops[i]) == id,
    )
}

/// The documents that operations are about.
pub fn touched_ids(ops: &Vec<WalOp>) -> (ids: SortedSet<Id>)
    ensures
        ids.wf(),
        ids.set() == touched(wal::ops_view(ops@)),
{
    let ghost views = wal::ops_view(ops@);
    let mut ids: SortedSet<Id> = SortedSet::new();
    let mut i: usize = 0;
    while i < ops.len()
        invariant
            i <= ops@.len(),
            views == wal::ops_view(ops@),
            ids.wf(),
            forall|id: IdView| #[trigger]
                ids.set().contains(id) == (exists|k: int|
                    0 <= k < i && wal::id_of_op(#[trigger] views[k]) == id),
        decreases ops@.len() - i,
    {
        let ghost before = ids.set();
        ids.insert(copy_id(op_id(&ops[i])));
        assert forall|id: IdView| #[trigger] ids.set().contains(id) == (exists|k: int|
            0 <= k < i + 1 && wal::id_of_op(#[trigger] views[k]) == id) by {
            if before.contains(id) {
                let k = choose|k: int| 0 <= k < i && wal::id_of_op(#[trigger] views[k]) == id;
                assert(0 <= k < i + 1 && wal::id_of_op(views[k]) == id);
            }
            if id == wal::id_of_op(views[i as int]) {
                assert(0 <= i < i + 1 && wal::id_of_op(views[i as int]) == id);
            }
        }
        i = i + 1;
    }
    assert(ids.set() =~= touched(views));
    ids
}

proof fn lemma_untouched(docs: documents::Docs, ops: Seq<OpView>, id: IdView)
    requires
        !touched(ops).contains(id),
    ensures
        documents::at(documents::applied_all(docs, ops), id) == documents::at(docs, id),
    decreases ops.len(),
{
    if ops.len() > 0 {
        assert(wal::id_of_op(ops[ops.len() - 1]) != id);
        assert forall|i: int| 0 <= i < ops.drop_last().len() implies wal::id_of_op(
            #[trigger] ops.drop_last()[i],
        ) != id by {
            assert(ops[i] == ops.drop_last()[i]);
        }
        lemma_untouched(docs, ops.drop_last(), id);
    }
}

/// Asking the attribute index first changes nothing: of the documents that met a
/// filter when the index was built, together with all that were written since,
/// those that meet it now are the ones that a scan of everything finds.
pub proof fn law_index_changes_no_answer(
    stored: documents::Docs,
    ops: Seq<OpView>,
    f: FilterView,
    id: IdView,
)
    ensures
        ({
            let now = documents::applied_all(stored, ops);
            candidates::matching(now, f).contains(id) <==> candidates::matching(stored, f).union(
                touched(ops),
            ).contains(id) && now.dom().contains(id) && query::filter_holds(f, now[id])
        }),
{
    let now = documents::applied_all(stored, ops);
    if candidates::matching(now, f).contains(id) && !touched(ops).contains(id) {
        lemma_untouched(stored, ops, id);
        assert(documents::at(now, id) == documents::at(stored, id));
    }
}

// ---------------------------------------------------------------------------
// Aggregates
// ---------------------------------------------------------------------------

/// A number over the rows of a query: their count, or the doubles, by their bits,
/// that make up a sum, in the order of the rows.
#[derive(Clone, Debug)]
pub enum AggregateValues {
    Count(u64),
    Sum { column: String, values: Vec<u64> },
}

/// What such a number stands for.
pub enum AggregateView {
    Count(int),
    Sum { column: Seq<char>, values: Seq<u64> },
}

pub open spec fn aggregate_view(a: AggregateValues) -> AggregateView {
    match a {
        AggregateValues::Count(n) => AggregateView::Count(n as int),
        AggregateValues::Sum { column, values } => AggregateView::Sum {
            column: column@,
            values: values@,
        },
    }
}

/// The double, by its bits, that a value counts as in a sum: an integer as the
/// nearest one. Only finite numbers count.
pub open spec fn numeric_bits(v: ValueView) -> Option<u64> {
    match v {
        ValueView::Int(i) => Some(value::float_of_int(i) as u64),
        ValueView::Float(f) => if value::float_is_finite(f) {
            Some(f)
        } else {
            None
        },
        _ => None,
    }
}

/// The double that a value counts as in a sum.
pub fn numeric_value(v: &Value) -> (r: Option<u64>)
    ensures
        r == numeric_bits(v@),
{
    match v {
        Value::Int(i) => Some(float_from_int(*i)),
        Value::Float(f) => if is_finite(*f) {
            Some(*f)
        } else {
            None
        },
        _ => None,
    }
}

/// The doubles of a column in the first `n` rows; `None` if a row has there what
/// is no number.
pub open spec fn column_numbers(rows: Seq<RowView>, column: Seq<char>, n: int) -> Option<Seq<u64>>
    decreases n,
{
    if n <= 0 {
        Some(Seq::empty())
    } else {
        match column_numbers(rows, column, n - 1) {
            None => None,
            Some(front) => if !rows[n - 1].document.attributes.dom().contains(column) {
                Some(front)
            } else {
                match numeric_bits(rows[n - 1].document.attributes[column]) {
                    Some(x) => Some(front.push(x)),
                    None => None,
                }
            },
        }
    }
}

/// What an aggregate is over some rows; `None` for a sum over what is no number.
pub open spec fn aggregate_of(a: Aggregate, rows: Seq<RowView>) -> Option<AggregateView> {
    match a {
        Aggregate::Count => Some(AggregateView::Count(rows.len() as int)),
        Aggregate::Sum { column } => match column_numbers(rows, column@, rows.len() as int) {
            Some(values) => Some(AggregateView::Sum { column: column@, values }),
            None => None,
        },
    }
}

proof fn lemma_numbers_none(rows: Seq<RowView>, column: Seq<char>, i: int, n: int)
    requires
        0 <= i <= n,
        column_numbers(rows, column, i) is None,
    ensures
        column_numbers(rows, column, n) is None,
    decreases n - i,
{
    if i < n {
        lemma_numbers_none(rows, column, i, n - 1);
    }
}

fn sum_column(rows: &Vec<QueryRow>, column: &String) -> (r: Option<Vec<u64>>)
    requires
        query::rows_wf(rows@),
    ensures
        match r {
            Some(values) => column_numbers(rows_view(rows@), column@, rows@.len() as int) == Some(
                values@,
            ),
            None => column_numbers(rows_view(rows@), column@, rows@.len() as int) is None,
        },
{
    let ghost views = rows_view(rows@);
    let mut values: Vec<u64> = Vec::new();
    let mut i: usize = 0;
    while i < rows.len()
        invariant
            i <= rows@.len(),
            views == rows_view(rows@),
            query::rows_wf(rows@),
            column_numbers(views, column@, i as int) == Some(values@),
        decreases rows@.len() - i,
    {
        assert(rows@[i as int].document.wf());
        if let Some(value) = rows[i].document.attributes.get(column.as_str()) {
            match numeric_value(value) {
                Some(x) => {
                    values.push(x);
                },
                None => {
                    proof {
                        assert(column_numbers(views, column@, i + 1) is None);
                        lemma_numbers_none(views, column@, i + 1, rows@.len() as int);
                    }
                    return None;
                },
            }
        }
        i = i + 1;
    }
    Some(values)
}

/// The aggregates of a query over some rows.
pub fn compute_aggregates(aggregates: &Vec<Aggregate>, rows: &Vec<QueryRow>) -> (r: Result<
    Vec<AggregateValues>,
    Error,
>)
    requires
        query::rows_wf(rows@),
    ensures
        r is Ok <==> forall|i: int|
            0 <= i < aggregates@.len() ==> aggregate_of(
                #[trigger] aggregates@[i],
                rows_view(rows@),
            ) is Some,
        r is Err ==> r->Err_0 is InvalidQuery,
        r matches Ok(out) ==> {
            &&& out@.len() == aggregates@.len()
            &&& forall|i: int|
                0 <= i < out@.len() ==> Some(aggregate_view(#[trigger] out@[i])) == aggregate_of(
                    aggregates@[i],
                    rows_view(rows@),
                )
        },
{
    let ghost views = rows_view(rows@);
    let mut out: Vec<AggregateValues> = Vec::new();
    let mut i: usize = 0;
    while i < aggregates.len()
        invariant
            i <= aggregates@.len(),
            views == rows_view(rows@),
            query::rows_wf(rows@),
            out@.len() == i,
            forall|k: int|
                0 <= k < i ==> Some(aggregate_view(#[trigger] out@[k])) == aggregate_of(
                    aggregates@[k],
                    views,
                ),
        decreases aggregates@.len() - i,
    {
        match &aggregates[i] {
            Aggregate::Count => {
                out.push(AggregateValues::Count(rows.len() as u64));
            },
            Aggregate::Sum { column } => match sum_column(rows, column) {
                Some(values) => {
                    out.push(AggregateValues::Sum { column: column.clone(), values });
                },
                None => {
                    assert(aggregate_of(aggregates@[i as int], views) is None);
                    return Err(Error::InvalidQuery(
                            say("cannot sum non-numeric column '").and(column.as_str()).and(
                                "'",
                            ).done(),
                        ));
                },
            },
        }
        i = i + 1;
    }
    assert forall|k: int| 0 <= k < aggregates@.len() implies aggregate_of(
        #[trigger] aggregates@[k],
        views,
    ) is Some by {
        assert(Some(aggregate_view(out@[k])) == aggregate_of(aggregates@[k], views));
    }
    Ok(out)
}

/// A document is among the rows of a query exactly if it meets the filter, with its key
/// and all it holds.
pub proof fn law_rows_are_the_matching_documents(
    ids: Seq<IdView>,
    docs: documents::Docs,
    filter: Option<&FilterExpr>,
    n: int,
    i: int,
)
    requires
        0 <= i < n <= ids.len(),
    ensures
        (match filter {
            Some(f) => query::filter_holds(f@, docs[ids[i]]),
            None => true,
        }) ==> selected(ids, docs, filter, n).contains(
            RowView { id: ids[i], document: docs[ids[i]], score: None },
        ),
        forall|row: RowView| #[trigger]
            selected(ids, docs, filter, n).contains(row) ==> ids.contains(row.id) && row.document
                == docs[row.id] && row.score is None && (filter matches Some(f)
                ==> query::filter_holds(f@, docs[row.id])),
    decreases n,
{
    let front = selected(ids, docs, filter, n - 1);
    let all = selected(ids, docs, filter, n);
    if n > 1 {
        law_rows_are_the_matching_documents(
            ids,
            docs,
            filter,
            n - 1,
            if i < n - 1 {
                i
            } else {
                0
            },
        );
    } else {
        assert(front =~= Seq::empty());
    }
    let d = docs[ids[n - 1]];
    if query::accepts(filter, d) {
        let last = RowView { id: ids[n - 1], document: d, score: None };
        assert(all[front.len() as int] == last);
        let row = RowView { id: ids[i], document: docs[ids[i]], score: None };
        if i < n - 1 && front.contains(row) {
            let k = front.index_of(row);
            assert(all[k] == row);
        }
        assert forall|row: RowView| #[trigger] all.contains(row) implies ids.contains(row.id)
            && row.document == docs[row.id] && row.score is None && (filter matches Some(f)
            ==> query::filter_holds(f@, docs[row.id])) by {
            let k = all.index_of(row);
            if k < front.len() {
                assert(front[k] == row);
                assert(front.contains(row));
            } else {
                assert(ids[n - 1] == row.id);
            }
        }
    }
}

/// A count is the number of the rows. A sum goes over the values of the column in the
/// rows that have it, in the order of the rows: one more row adds its value at the end,
/// a row without the column adds none, and one with what is no finite number leaves no
/// sum.
pub proof fn law_aggregates_go_over_all_rows(column: String, rows: Seq<RowView>, row: RowView)
    requires
        aggregate_of(Aggregate::Sum { column }, rows) is Some,
    ensures
        aggregate_of(Aggregate::Count, rows) == Some(AggregateView::Count(rows.len() as int)),
        ({
            let before = aggregate_of(Aggregate::Sum { column }, rows)->Some_0->Sum_values;
            let after = aggregate_of(Aggregate::Sum { column }, rows.push(row));
            if !row.document.attributes.dom().contains(column@) {
                after is Some && after->Some_0->Sum_values == before
            } else {
                match row.document.attributes[column@] {
                    ValueView::Int(i) => after is Some && after->Some_0->Sum_values == before.push(
                        value::float_of_int(i) as u64,
                    ),
                    ValueView::Float(f) => if value::float_is_finite(f) {
                        after is Some && after->Some_0->Sum_values == before.push(f)
                    } else {
                        after is None
                    },
                    _ => after is None,
                }
            }
        }),
{
    lemma_numbers_of_front(rows, row, column@, rows.len() as int);
    assert(rows.push(row)[rows.len() as int] == row);
}

proof fn lemma_numbers_of_front(rows: Seq<RowView>, row: RowView, column: Seq<char>, n: int)
    requires
        0 <= n <= rows.len(),
    ensures
        column_numbers(rows.push(row), column, n) == column_numbers(rows, column, n),
    decreases n,
{
    if n > 0 {
        lemma_numbers_of_front(rows, row, column, n - 1);
        assert(rows.push(row)[n - 1] == rows[n - 1]);
    }
}

} // verus!
