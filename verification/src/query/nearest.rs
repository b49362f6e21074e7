//! The nearest vectors: scoring documents, and joining what a vector index finds
//! with what has been written since it was built.

use vstd::prelude::*;

use crate::rounding;
use crate::schema::column_type_text;
use crate::value::id_text;
use crate::strings;
use crate::phrase::say;
use crate::arithmetic::Step;
use crate::error::{invalid_query, Error};
use crate::order::Order;
use crate::query;
use crate::query::execute;
use crate::query::execute::{compute_aggregates, AggregateValues, ApproxVectorQuery, ExactVectorQuery, Query, RowView};
use crate::query::{sort_rows, OrderBy, OrderTarget, QueryRow, SortDirection};
use crate::schema;
use crate::schema::{ColumnType, DistanceMetric, Schema};
use crate::sorting;
use crate::sorting::{arrange, reversed, Comparison};
use crate::value;
use crate::value::{compare_ids, Id, VectorView};
use crate::vector;
use crate::vector::index::copy_vector;
use crate::vector::kernel;
use crate::vector::numbers;
use crate::vector::numbers::{is_all_finite, vector_to_f32};
use crate::vector::search;
use crate::vector::score_beats;

verus! {

// ---------------------------------------------------------------------------
// The column asked about
// ---------------------------------------------------------------------------

/// The dimension and metric of a vector column; none if it is no such column.
pub open spec fn vector_column(columns: schema::Columns, column: Seq<char>) -> Option<
    (usize, DistanceMetric),
> {
    if columns.dom().contains(column) {
        match columns[column].column_type {
            ColumnType::Vector { dim, encoding, metric } => Some((dim, metric)),
            _ => None,
        }
    } else {
        None
    }
}

/// Why a column is no vector column.
pub open spec fn column_complaint(columns: schema::Columns, column: Seq<char>) -> Seq<char> {
    if columns.dom().contains(column) {
        "column '"@ + column + "' is not a vector column: "@ + schema::type_words(
            columns[column].column_type,
        )
    } else {
        "unknown vector column '"@ + column + "'"@
    }
}

/// The dimension and metric of a vector column.
pub fn vector_column_schema(schema: &Schema, column: &str) -> (r: Result<
    (usize, DistanceMetric),
    Error,
>)
    requires
        schema.columns.wf(),
    ensures
        match r {
            Ok(found) => vector_column(schema.columns.map(), column@) == Some(found),
            Err(e) => {
                &&& vector_column(schema.columns.map(), column@) is None
                &&& e is InvalidQuery
                &&& e->InvalidQuery_0@ == column_complaint(schema.columns.map(), column@)
            },
        },
{
    match schema.columns.get(column) {
        Some(spec) => match spec.column_type {
            ColumnType::Vector { dim, encoding: _, metric } => Ok((dim, metric)),
            _ => {
                let found = column_type_text(&spec.column_type);
                Err(
                    Error::InvalidQuery(
                        say("column '").and(column).and("' is not a vector column: ").and(
                            found.as_str(),
                        ).done(),
                    ),
                )
            },
        },
        None => Err(
            Error::InvalidQuery(say("unknown vector column '").and(column).and("'").done()),
        ),
    }
}

/// A vector query that can be run: it asks for something, with a vector of finite
/// components, as many as the column has.
pub open spec fn vector_query_ok(columns: schema::Columns, q: ExactVectorQuery) -> bool {
    &&& q.k > 0
    &&& q.vector@.len() > 0
    &&& numbers::all_finite(q.vector@)
    &&& vector_column(columns, q.column@) matches Some(found) && found.0 == q.vector@.len()
}

/// Why a vector query cannot be run.
pub open spec fn vector_query_complaint(columns: schema::Columns, q: ExactVectorQuery) -> Seq<
    char,
> {
    if q.k == 0 {
        "exact vector query k must be greater than zero"@
    } else if q.vector@.len() == 0 {
        "exact vector query vector cannot be empty"@
    } else if !numbers::all_finite(q.vector@) {
        "exact vector query contains a non-finite value"@
    } else {
        match vector_column(columns, q.column@) {
            None => column_complaint(columns, q.column@),
            Some(found) => "query vector for '"@ + q.column@ + "' has dim "@ + strings::decimal(
                q.vector@.len(),
            ) + ", expected "@ + strings::decimal(found.0 as nat),
        }
    }
}

/// The dimension of the column, and the metric asked for or else that of the
/// column.
pub fn vector_schema(schema: &Schema, q: &ExactVectorQuery) -> (r: Result<
    (usize, DistanceMetric),
    Error,
>)
    requires
        schema.columns.wf(),
    ensures
        r is Ok <==> vector_query_ok(schema.columns.map(), *q),
        r is Err ==> r->Err_0 is InvalidQuery && r->Err_0->InvalidQuery_0@ == vector_query_complaint(
            schema.columns.map(),
            *q,
        ),
        r matches Ok((dim, metric)) ==> dim == q.vector@.len() && metric == asked_metric(
            schema.columns.map(),
            *q,
        ),
{
    if q.k == 0 {
        return Err(invalid_query("exact vector query k must be greater than zero"));
    }
    if q.vector.len() == 0 {
        return Err(invalid_query("exact vector query vector cannot be empty"));
    }
    if !is_all_finite(&q.vector) {
        return Err(invalid_query("exact vector query contains a non-finite value"));
    }
    match vector_column_schema(schema, q.column.as_str()) {
        Ok((dim, metric)) => {
            if q.vector.len() != dim {
                return Err(Error::InvalidQuery(
                        say("query vector for '").and(q.column.as_str()).and("' has dim ").number(
                            q.vector.len() as u64,
                        ).and(", expected ").number(dim as u64).done(),
                    ));
            }
            Ok(
                (
                    dim,
                    match q.metric {
                        Some(m) => m,
                        None => metric,
                    },
                ),
            )
        },
        Err(e) => Err(e),
    }
}

/// The metric of a vector query.
pub open spec fn asked_metric(columns: schema::Columns, q: ExactVectorQuery) -> DistanceMetric {
    match q.metric {
        Some(m) => m,
        None => vector_column(columns, q.column@)->Some_0.1,
    }
}

/// Rows to keep: the best `k`, or fewer where the limit is lower.
pub open spec fn kept_rows(k: usize, limit: Option<usize>) -> usize {
    match limit {
        Some(n) => if n < k {
            n
        } else {
            k
        },
        None => k,
    }
}

/// Rows to keep.
pub fn keep_count(k: usize, limit: Option<usize>) -> (n: usize)
    ensures
        n == kept_rows(k, limit),
{
    match limit {
        Some(n) => if n < k {
            n
        } else {
            k
        },
        None => k,
    }
}

// ---------------------------------------------------------------------------
// Scoring rows
// ---------------------------------------------------------------------------

/// `s` is a score of a query with a stored vector.
pub open spec fn has_score<F: Fn(&Vec<u32>, &Vec<u32>, DistanceMetric) -> Result<u32, Error>>(
    score: F,
    query: Vec<u32>,
    stored: VectorView,
    metric: DistanceMetric,
    s: u32,
) -> bool {
    exists|wide: Vec<u32>|
        numbers::is_widened(stored, wide@) && #[trigger] vector::scores(
            score,
            query,
            wide,
            metric,
            s,
        )
}

/// Those of the first `n` rows that have a vector in a column.
pub open spec fn with_vectors(rows: Seq<RowView>, column: Seq<char>, n: int) -> Seq<RowView>
    decreases n,
{
    if n <= 0 {
        Seq::empty()
    } else {
        let front = with_vectors(rows, column, n - 1);
        if rows[n - 1].document.vectors.dom().contains(column) {
            front.push(rows[n - 1])
        } else {
            front
        }
    }
}

/// A row with a score of its vector.
pub open spec fn row_scored<F: Fn(&Vec<u32>, &Vec<u32>, DistanceMetric) -> Result<u32, Error>>(
    score: F,
    query: Vec<u32>,
    column: Seq<char>,
    metric: DistanceMetric,
    row: RowView,
    scored: RowView,
) -> bool {
    &&& scored.id == row.id
    &&& scored.document == row.document
    &&& scored.score is Some
    &&& has_score(score, query, row.document.vectors[column], metric, scored.score->Some_0)
}

/// The rows that have a vector, with scores.
pub open spec fn rows_scored<F: Fn(&Vec<u32>, &Vec<u32>, DistanceMetric) -> Result<u32, Error>>(
    score: F,
    query: Vec<u32>,
    column: Seq<char>,
    metric: DistanceMetric,
    rows: Seq<RowView>,
    scored: Seq<RowView>,
) -> bool {
    let from = with_vectors(rows, column, rows.len() as int);
    &&& scored.len() == from.len()
    &&& forall|i: int|
        0 <= i < scored.len() ==> row_scored(
            score,
            query,
            column,
            metric,
            from[i],
            #[trigger] scored[i],
        )
}

/// A row holds a vector of another dimension than its column has.
pub open spec fn has_misfit(rows: Seq<RowView>, column: Seq<char>, dim: usize) -> bool {
    exists|i: int|
        0 <= i < rows.len() && (#[trigger] rows[i]).document.vectors.dom().contains(column)
            && value::vector_dim(rows[i].document.vectors[column]) != dim
}

/// A query has no score with the vector of a row, for the reason `e`.
pub open spec fn has_unscorable<F: Fn(&Vec<u32>, &Vec<u32>, DistanceMetric) -> Result<u32, Error>>(
    score: F,
    query: Vec<u32>,
    column: Seq<char>,
    metric: DistanceMetric,
    rows: Seq<RowView>,
    e: Error,
) -> bool {
    exists|i: int, wide: Vec<u32>|
        #![trigger rows[i], vector::no_score(score, query, wide, metric, e)]
        0 <= i < rows.len() && rows[i].document.vectors.dom().contains(column)
            && numbers::is_widened(rows[i].document.vectors[column], wide@) && vector::no_score(
            score,
            query,
            wide,
            metric,
            e,
        )
}

/// The error that a document holds a vector of another dimension than its column has.
pub(crate) fn misfit(column: &str, id: &Id, dim: usize, expected: usize) -> (e: Error)
    ensures
        e is Corrupt,
        e->Corrupt_0@ == "stored vector '"@ + column@ + "' for "@ + value::id_words(id@)
            + " has dim "@ + strings::decimal(dim as nat) + ", expected "@ + strings::decimal(
            expected as nat,
        ),
{
    let who = id_text(id);
    Error::Corrupt(
        say("stored vector '").and(column).and("' for ").and(who.as_str()).and(" has dim ").number(
            dim as u64,
        ).and(", expected ").number(expected as u64).done(),
    )
}

/// Scores the rows that have a vector in a column, and leaves the others out.
pub fn score_rows<F: Copy + Fn(&Vec<u32>, &Vec<u32>, DistanceMetric) -> Result<u32, Error>>(
    rows: Vec<QueryRow>,
    column: &str,
    query: &Vec<u32>,
    metric: DistanceMetric,
    dim: usize,
    score: F,
) -> (r: Result<Vec<QueryRow>, Error>)
    requires
        query::rows_wf(rows@),
        vector::can_score(score),
    ensures
        match r {
            Ok(out) => {
                &&& query::rows_wf(out@)
                &&& !has_misfit(execute::rows_view(rows@), column@, dim)
                &&& rows_scored(
                    score,
                    *query,
                    column@,
                    metric,
                    execute::rows_view(rows@),
                    execute::rows_view(out@),
                )
            },
            Err(e) => has_unscorable(
                score,
                *query,
                column@,
                metric,
                execute::rows_view(rows@),
                e,
            ) || (e is Corrupt && has_misfit(execute::rows_view(rows@), column@, dim)),
        },
{
    let ghost given = rows@;
    let ghost views = execute::rows_view(given);
    let n = rows.len();
    let mut rest = reversed(rows);
    let mut out: Vec<QueryRow> = Vec::new();
    let mut i: usize = 0;
    while i < n
        invariant
            i <= n,
            n == given.len(),
            given == rows@,
            views == execute::rows_view(given),
            query::rows_wf(given),
            vector::can_score(score),
            rest@.len() == n - i,
            forall|k: int| 0 <= k < rest@.len() ==> #[trigger] rest@[k] == given[n - 1 - k],
            query::rows_wf(out@),
            forall|k: int|
                0 <= k < i && (#[trigger] views[k]).document.vectors.dom().contains(column@)
                    ==> value::vector_dim(views[k].document.vectors[column@]) == dim,
            out@.len() == with_vectors(views, column@, i as int).len(),
            forall|k: int|
                0 <= k < out@.len() ==> row_scored(
                    score,
                    *query,
                    column@,
                    metric,
                    with_vectors(views, column@, i as int)[k],
                    execute::row_view(#[trigger] out@[k]),
                ),
        decreases n - i,
    {
        assert(rest@[rest@.len() - 1] == given[i as int]);
        let ghost from = with_vectors(views, column@, i as int);
        let ghost before = out@;
        if let Some(row) = rest.pop() {
            assert(row == given[i as int]);
            assert(given[i as int].document.wf());
            assert(views[i as int] == execute::row_view(row));
            match row.document.vectors.get(column) {
                Some(stored) => {
                    assert(views[i as int].document.vectors[column@] == stored@);
                    let wide = vector_to_f32(stored);
                    if wide.len() != dim {
                        assert(has_misfit(views, column@, dim));
                        return Err(
                            misfit(column, &row.id, wide.len(), dim),
                        );
                    }
                    match score(query, &wide, metric) {
                        Ok(s) => {
                            proof {
                                assert(vector::scores(score, *query, wide, metric, s));
                                assert(has_score(score, *query, stored@, metric, s));
                                assert(with_vectors(views, column@, i + 1) == from.push(
                                    views[i as int],
                                ));
                            }
                            let QueryRow { id, document, score: _ } = row;
                            out.push(QueryRow { id, document, score: Some(s) });
                            assert forall|k: int| 0 <= k < out@.len() implies row_scored(
                                score,
                                *query,
                                column@,
                                metric,
                                with_vectors(views, column@, i + 1)[k],
                                execute::row_view(#[trigger] out@[k]),
                            ) by {
                                if k < before.len() {
                                    assert(out@[k] == before[k]);
                                }
                            }
                        },
                        Err(e) => {
                            assert(vector::no_score(score, *query, wide, metric, e));
                            assert(numbers::is_widened(
                                views[i as int].document.vectors[column@],
                                wide@,
                            ));
                            return Err(e);
                        },
                    }
                },
                None => {
                    assert(with_vectors(views, column@, i + 1) == from);
                },
            }
        }
        i = i + 1;
    }
    assert(rows_scored(score, *query, column@, metric, views, execute::rows_view(out@)));
    Ok(out)
}

/// Score `a` is higher than score `b`; a missing one is lower than any other.
pub open spec fn optional_beats(a: Option<u32>, b: Option<u32>) -> bool {
    match (a, b) {
        (Some(x), Some(y)) => vector::beats(x, y),
        (Some(_), None) => true,
        (None, _) => false,
    }
}

fn optional_score_beats(a: Option<u32>, b: Option<u32>) -> (r: bool)
    ensures
        r == optional_beats(a, b),
{
    match (a, b) {
        (Some(x), Some(y)) => score_beats(x, y),
        (Some(_), None) => true,
        (None, _) => false,
    }
}

/// How rows compare by their scores: the higher stands first, and where neither is
/// higher the lower key. A NaN is neither higher nor lower than any score.
pub struct ByScore;

impl Comparison<QueryRow> for ByScore {
    open spec fn ranks(&self, a: QueryRow) -> bool {
        a.document.wf()
    }

    open spec fn precedes(&self, a: QueryRow, b: QueryRow) -> bool {
        optional_beats(a.score, b.score) || (!optional_beats(b.score, a.score) && value::id_order(
            a.id@,
            b.id@,
        ) != Order::Greater)
    }

    proof fn lemma_total(&self, a: QueryRow, b: QueryRow) {
        value::lemma_ids_total(a.id@, b.id@);
    }

    fn in_order(&self, a: &QueryRow, b: &QueryRow) -> (r: bool) {
        optional_score_beats(a.score, b.score) || (!optional_score_beats(b.score, a.score)
            && !matches!(compare_ids(&a.id, &b.id), Order::Greater))
    }
}

/// Rows whose scores are numbers are ordered: the best of them come first.
pub proof fn law_numbered_rows_are_ordered(rows: Seq<QueryRow>)
    requires
        forall|i: int|
            0 <= i < rows.len() ==> ((#[trigger] rows[i]).score matches Some(s)
                ==> vector::score_rank(s) is Some),
    ensures
        sorting::is_consistent(rows, ByScore),
{
    assert forall|a: QueryRow, b: QueryRow, c: QueryRow|
        rows.contains(a) && rows.contains(b) && rows.contains(c) && #[trigger] ByScore.precedes(
            a,
            b,
        ) && #[trigger] ByScore.precedes(b, c) implies ByScore.precedes(a, c) by {
        assert(rows[rows.index_of(a)] == a);
        assert(rows[rows.index_of(b)] == b);
        assert(rows[rows.index_of(c)] == c);
        vector::lemma_ids_transitive(a.id@, b.id@, c.id@);
    }
}

/// `out` is the best of some rows, best first, at most `keep` of them.
pub open spec fn are_best(all: Seq<QueryRow>, keep: int, ranked: Seq<QueryRow>, out: Seq<QueryRow>) -> bool {
    &&& sorting::is_arrangement(all, ranked, ByScore)
    &&& out == ranked.take(search::smaller(keep, ranked.len() as int))
}

/// `out` can be the best of some rows.
pub open spec fn is_best_of(all: Seq<QueryRow>, keep: int, out: Seq<QueryRow>) -> bool {
    exists|ranked: Seq<QueryRow>| #[trigger] are_best(all, keep, ranked, out)
}

/// The best of some rows, best first.
pub fn best_rows(rows: Vec<QueryRow>, keep: usize) -> (out: Vec<QueryRow>)
    requires
        query::rows_wf(rows@),
    ensures
        query::rows_wf(out@),
        is_best_of(rows@, keep as int, out@),
{
    assert(sorting::all_rank(rows@, ByScore)) by {
        assert forall|i: int| 0 <= i < rows@.len() implies ByScore.ranks(#[trigger] rows@[i]) by {
            assert(rows@[i].document.wf());
        }
    }
    let mut out = arrange(rows, &ByScore);
    let ghost ranked = out@;
    assert(query::rows_wf(ranked)) by {
        assert forall|i: int| 0 <= i < ranked.len() implies (#[trigger] ranked[i]).document.wf() by {
            assert(ByScore.ranks(ranked[i]));
        }
    }
    if keep < out.len() {
        out.truncate(keep);
    }
    proof {
        assert(out@ =~= ranked.take(search::smaller(keep as int, ranked.len() as int)));
        assert(are_best(rows@, keep as int, ranked, out@));
        assert forall|i: int| 0 <= i < out@.len() implies (#[trigger] out@[i]).document.wf() by {
            assert(out@[i] == ranked[i]);
        }
    }
    out
}

/// The best scored rows of a column.
pub open spec fn nearest_are<F: Fn(&Vec<u32>, &Vec<u32>, DistanceMetric) -> Result<u32, Error>>(
    score: F,
    query: Vec<u32>,
    column: Seq<char>,
    metric: DistanceMetric,
    rows: Seq<RowView>,
    keep: int,
    out: Seq<QueryRow>,
) -> bool {
    exists|scored: Seq<QueryRow>| #[trigger]
        is_best_of(scored, keep, out) && rows_scored(
            score,
            query,
            column,
            metric,
            rows,
            execute::rows_view(scored),
        )
}

/// Why the nearest rows cannot be had.
pub open spec fn nearest_fails<F: Fn(&Vec<u32>, &Vec<u32>, DistanceMetric) -> Result<u32, Error>>(
    score: F,
    columns: schema::Columns,
    q: ExactVectorQuery,
    rows: Seq<RowView>,
    e: Error,
) -> bool {
    if !vector_query_ok(columns, q) {
        e is InvalidQuery
    } else {
        ||| has_unscorable(score, q.vector, q.column@, asked_metric(columns, q), rows, e)
        ||| e is Corrupt && has_misfit(rows, q.column@, q.vector.len())
    }
}

/// The nearest of some rows, by scoring every one of them.
pub fn exact_nearest<F: Copy + Fn(&Vec<u32>, &Vec<u32>, DistanceMetric) -> Result<u32, Error>>(
    rows: Vec<QueryRow>,
    schema: &Schema,
    q: &ExactVectorQuery,
    limit: Option<usize>,
    score: F,
) -> (r: Result<Vec<QueryRow>, Error>)
    requires
        schema.columns.wf(),
        query::rows_wf(rows@),
        vector::can_score(score),
    ensures
        match r {
            Ok(out) => {
                &&& query::rows_wf(out@)
                &&& vector_query_ok(schema.columns.map(), *q)
                &&& !has_misfit(execute::rows_view(rows@), q.column@, q.vector.len())
                &&& nearest_are(
                    score,
                    q.vector,
                    q.column@,
                    asked_metric(schema.columns.map(), *q),
                    execute::rows_view(rows@),
                    kept_rows(q.k, limit) as int,
                    out@,
                )
            },
            Err(e) => nearest_fails(
                score,
                schema.columns.map(),
                *q,
                execute::rows_view(rows@),
                e,
            ),
        },
{
    let (dim, metric) = match vector_schema(schema, q) {
        Ok(found) => found,
        Err(e) => {
            return Err(e);
        },
    };
    let ghost views = execute::rows_view(rows@);
    match score_rows(rows, q.column.as_str(), &q.vector, metric, dim, score) {
        Ok(scored) => {
            let ghost all = scored@;
            let out = best_rows(scored, keep_count(q.k, limit));
            assert(is_best_of(all, kept_rows(q.k, limit) as int, out@));
            Ok(out)
        },
        Err(e) => Err(e),
    }
}

/// The vectors that rows have in a column are sound.
pub open spec fn rows_sound<M: Fn(Step) -> u32>(
    calc: M,
    rows: Seq<RowView>,
    column: Seq<char>,
    dim: usize,
    metric: DistanceMetric,
) -> bool {
    forall|i: int, wide: Seq<u32>|
        0 <= i < rows.len() && (#[trigger] rows[i]).document.vectors.dom().contains(column)
            && #[trigger] numbers::is_widened(rows[i].document.vectors[column], wide)
            ==> search::vector_sound(calc, wide, dim, metric)
}

/// The nearest of sound rows are found for every query that can be asked of them.
pub proof fn law_sound_rows_are_ranked<
    F: Fn(&Vec<u32>, &Vec<u32>, DistanceMetric) -> Result<u32, Error>,
    M: Fn(Step) -> u32,
>(
    score: F,
    calc: M,
    columns: schema::Columns,
    q: ExactVectorQuery,
    rows: Seq<RowView>,
    e: Error,
)
    requires
        kernel::is_kernel(score, calc),
        vector_query_ok(columns, q),
        kernel::is_scorable(calc, q.vector@, asked_metric(columns, q)),
        rows_sound(calc, rows, q.column@, q.vector.len(), asked_metric(columns, q)),
        !has_misfit(rows, q.column@, q.vector.len()),
    ensures
        !nearest_fails(score, columns, q, rows, e),
{
    let m = asked_metric(columns, q);
    if has_unscorable(score, q.vector, q.column@, m, rows, e) {
        let (i, wide) = choose|i: int, wide: Vec<u32>|
            #![trigger rows[i], vector::no_score(score, q.vector, wide, m, e)]
            0 <= i < rows.len() && rows[i].document.vectors.dom().contains(q.column@)
                && numbers::is_widened(rows[i].document.vectors[q.column@], wide@)
                && vector::no_score(score, q.vector, wide, m, e);
        assert(search::vector_sound(calc, wide@, q.vector.len(), m));
        assert(kernel::is_scored(calc, q.vector@, wide@, m, Err::<u32, Error>(e)));
    }
}

/// The same question, asked of every candidate.
pub fn exact_of(q: &ApproxVectorQuery) -> (r: ExactVectorQuery)
    ensures
        r.column@ == q.column@,
        r.vector@ == q.vector@,
        r.k == q.k,
        r.metric == q.metric,
{
    ExactVectorQuery {
        column: q.column.clone(),
        vector: copy_vector(&q.vector),
        k: q.k,
        metric: q.metric,
    }
}

// ---------------------------------------------------------------------------
// Scanning
// ---------------------------------------------------------------------------

/// The rows of a query and its aggregates.
#[derive(Debug)]
pub struct QueryOutcome {
    pub rows: Vec<QueryRow>,
    pub aggregates: Vec<AggregateValues>,
}

/// The order in which rows come without any other.
pub open spec fn is_id_order(by: OrderBy) -> bool {
    by.target is Id && by.direction == SortDirection::Asc
}

/// `out` is some rows in some order, at most as many as a limit allows.
pub open spec fn are_first(
    rows: Seq<QueryRow>,
    by: OrderBy,
    limit: Option<usize>,
    ranked: Seq<QueryRow>,
    out: Seq<QueryRow>,
) -> bool {
    &&& sorting::is_arrangement(rows, ranked, by)
    &&& out == match limit {
        Some(n) => ranked.take(search::smaller(n as int, ranked.len() as int)),
        None => ranked,
    }
}

/// `out` can be some rows in some order.
pub open spec fn is_first_of(
    rows: Seq<QueryRow>,
    by: OrderBy,
    limit: Option<usize>,
    out: Seq<QueryRow>,
) -> bool {
    exists|ranked: Seq<QueryRow>| #[trigger] are_first(rows, by, limit, ranked, out)
}

/// The vector part of a query that is scanned.
pub open spec fn is_vector_part(query: Query, q: ExactVectorQuery) -> bool {
    match (query.exact_vector, query.approx_vector) {
        (Some(e), _) => q == e,
        (None, Some(a)) => q.column@ == a.column@ && q.vector@ == a.vector@ && q.k == a.k
            && q.metric == a.metric,
        (None, None) => false,
    }
}

/// The rows of a query that is scanned: the nearest, or those in the order asked
/// for, or else in key order.
pub open spec fn scan_rows<F: Fn(&Vec<u32>, &Vec<u32>, DistanceMetric) -> Result<u32, Error>>(
    score: F,
    query: Query,
    columns: schema::Columns,
    rows: Seq<QueryRow>,
    out: Seq<QueryRow>,
) -> bool {
    if query.exact_vector is Some || query.approx_vector is Some {
        exists|q: ExactVectorQuery| #[trigger]
            is_vector_part(query, q) && vector_query_ok(columns, q) && !has_misfit(
                execute::rows_view(rows),
                q.column@,
                q.vector.len(),
            ) && nearest_are(
                score,
                q.vector,
                q.column@,
                asked_metric(columns, q),
                execute::rows_view(rows),
                kept_rows(q.k, query.limit) as int,
                out,
            )
    } else {
        match query.order_by {
            Some(by) => query::rows_sortable(rows, by) && is_first_of(rows, by, query.limit, out),
            None => exists|by: OrderBy| #[trigger]
                is_id_order(by) && is_first_of(rows, by, query.limit, out),
        }
    }
}

/// Why a scan has no answer.
pub open spec fn scan_fails<F: Fn(&Vec<u32>, &Vec<u32>, DistanceMetric) -> Result<u32, Error>>(
    score: F,
    query: Query,
    columns: schema::Columns,
    rows: Seq<QueryRow>,
    e: Error,
) -> bool {
    ||| e is InvalidQuery && !aggregates_ok(query, rows)
    ||| exists|q: ExactVectorQuery| #[trigger]
        is_vector_part(query, q) && nearest_fails(
            score,
            columns,
            q,
            execute::rows_view(rows),
            e,
        )
    ||| e is InvalidQuery && query.exact_vector is None && query.approx_vector is None
        && query.order_by is Some && !query::rows_sortable(rows, query.order_by->Some_0)
}

/// Every aggregate of a query can be computed.
pub open spec fn aggregates_ok(query: Query, rows: Seq<QueryRow>) -> bool {
    forall|i: int|
        0 <= i < query.aggregates@.len() ==> execute::aggregate_of(
            #[trigger] query.aggregates@[i],
            execute::rows_view(rows),
        ) is Some
}

/// The rows in some order, as many as a limit allows.
fn first_rows(rows: Vec<QueryRow>, by: &OrderBy, limit: Option<usize>) -> (r: Result<
    Vec<QueryRow>,
    Error,
>)
    requires
        query::rows_wf(rows@),
    ensures
        match r {
            Ok(out) => query::rows_wf(out@) && query::rows_sortable(rows@, *by) && is_first_of(
                rows@,
                *by,
                limit,
                out@,
            ),
            Err(e) => e is InvalidQuery && !query::rows_sortable(rows@, *by),
        },
{
    let mut out = rows;
    match sort_rows(&mut out, by) {
        Ok(_) => {},
        Err(e) => {
            return Err(e);
        },
    }
    let ghost ranked = out@;
    if let Some(n) = limit {
        if n < out.len() {
            out.truncate(n);
        }
    }
    proof {
        if let Some(n) = limit {
            assert(out@ =~= ranked.take(search::smaller(n as int, ranked.len() as int)));
        }
        assert(are_first(rows@, *by, limit, ranked, out@));
        assert forall|i: int| 0 <= i < out@.len() implies (#[trigger] out@[i]).document.wf() by {
            assert(out@[i] == ranked[i]);
        }
    }
    Ok(out)
}

/// Answers a query from its candidates.
pub fn finish_scan<F: Copy + Fn(&Vec<u32>, &Vec<u32>, DistanceMetric) -> Result<u32, Error>>(
    query: &Query,
    rows: Vec<QueryRow>,
    schema: &Schema,
    score: F,
) -> (r: Result<QueryOutcome, Error>)
    requires
        schema.columns.wf(),
        query::rows_wf(rows@),
        vector::can_score(score),
    ensures
        match r {
            Ok(out) => {
                &&& aggregates_ok(*query, rows@)
                &&& out.aggregates@.len() == query.aggregates@.len()
                &&& forall|i: int|
                    0 <= i < out.aggregates@.len() ==> Some(
                        execute::aggregate_view(#[trigger] out.aggregates@[i]),
                    ) == execute::aggregate_of(
                        query.aggregates@[i],
                        execute::rows_view(rows@),
                    )
                &&& scan_rows(score, *query, schema.columns.map(), rows@, out.rows@)
            },
            Err(e) => scan_fails(score, *query, schema.columns.map(), rows@, e),
        },
{
    let aggregates = match compute_aggregates(&query.aggregates, &rows) {
        Ok(out) => out,
        Err(e) => {
            return Err(e);
        },
    };
    let found: Result<Vec<QueryRow>, Error> = if let Some(q) = &query.exact_vector {
        assert(is_vector_part(*query, *q));
        exact_nearest(rows, schema, q, query.limit, score)
    } else if let Some(q) = &query.approx_vector {
        let exact = exact_of(q);
        assert(is_vector_part(*query, exact));
        exact_nearest(rows, schema, &exact, query.limit, score)
    } else if let Some(by) = &query.order_by {
        first_rows(rows, by, query.limit)
    } else {
        let by = OrderBy { target: OrderTarget::Id, direction: SortDirection::Asc };
        assert(is_id_order(by));
        first_rows(rows, &by, query.limit)
    };
    match found {
        Ok(out) => Ok(QueryOutcome { rows: out, aggregates }),
        Err(e) => Err(e),
    }
}

/// No more rows are kept than asked for, and no more than the limit; all of the smaller
/// number are.
pub proof fn law_rows_are_limited(k: usize, limit: Option<usize>)
    ensures
        kept_rows(k, limit) <= k,
        limit matches Some(n) ==> kept_rows(k, limit) <= n,
        kept_rows(k, limit) == k || limit == Some(kept_rows(k, limit)),
{
}

/// The best of some rows are as many as asked for, or all; they come best first, rows
/// of the same score by their keys, and no row that is left out has a higher score than
/// one that is kept. This is told of scores that are numbers.
pub proof fn law_best_rows_have_the_highest_scores(
    all: Seq<QueryRow>,
    keep: int,
    out: Seq<QueryRow>,
    i: int,
    j: int,
)
    requires
        is_best_of(all, keep, out),
        keep >= 0,
        forall|row: QueryRow| #[trigger]
            all.contains(row) ==> row.score is Some && rounding::is_number(row.score->Some_0),
        0 <= i < j < out.len(),
    ensures
        out.len() <= keep,
        out.len() == keep || out.len() == all.len(),
        all.contains(out[i]),
        rounding::number(out[i].score->Some_0) >= rounding::number(out[j].score->Some_0),
        rounding::number(out[i].score->Some_0) == rounding::number(out[j].score->Some_0)
            ==> value::id_order(out[i].id@, out[j].id@) != Order::Greater,
        forall|row: QueryRow|
            all.contains(row) && !out.contains(row) ==> rounding::number(out[i].score->Some_0)
                >= rounding::number(#[trigger] row.score->Some_0),
{
    let ranked = choose|ranked: Seq<QueryRow>| #[trigger] are_best(all, keep, ranked, out);
    sorting::lemma_nothing_is_lost(all, ranked);
    assert forall|m: int| 0 <= m < ranked.len() implies ((#[trigger] ranked[m]).score matches Some(
        s,
    ) ==> vector::score_rank(s) is Some) by {
        assert(ranked.contains(ranked[m]));
        assert(all.contains(ranked[m]));
    }
    law_numbered_rows_are_ordered(ranked);
    assert(out[i] == ranked[i] && out[j] == ranked[j]);
    assert(ranked.contains(ranked[i]) && ranked.contains(ranked[j]));
    assert(all.contains(ranked[i]) && all.contains(ranked[j]));
    assert(ByScore.precedes(ranked[i], ranked[j]));
    let x = ranked[i].score->Some_0;
    let y = ranked[j].score->Some_0;
    rounding::law_higher_score_is_higher_number(x, y);
    rounding::law_higher_score_is_higher_number(y, x);
    assert forall|row: QueryRow|
        all.contains(row) && !out.contains(row) implies rounding::number(out[i].score->Some_0)
        >= rounding::number(#[trigger] row.score->Some_0) by {
        sorting::lemma_first_come_first(all, ranked, ByScore, out.len() as int, i, row);
        rounding::law_higher_score_is_higher_number(x, row.score->Some_0);
        rounding::law_higher_score_is_higher_number(row.score->Some_0, x);
    }
}

/// The rows of a query in some order are all of them without a limit, and with one as
/// many as it allows; a row that is left out may stand behind each that is kept.
pub proof fn law_limit_keeps_the_first_rows(
    rows: Seq<QueryRow>,
    by: OrderBy,
    limit: Option<usize>,
    out: Seq<QueryRow>,
    i: int,
    other: QueryRow,
)
    requires
        is_first_of(rows, by, limit, out),
        sorting::is_consistent(rows, by),
        0 <= i < out.len(),
        rows.contains(other),
        !out.contains(other),
    ensures
        rows.contains(out[i]),
        limit matches Some(n) && out.len() == n,
        by.precedes(out[i], other),
        forall|j: int| i < j < out.len() ==> by.precedes(out[i], #[trigger] out[j]),
{
    let ranked = choose|ranked: Seq<QueryRow>| #[trigger] are_first(rows, by, limit, ranked, out);
    sorting::lemma_nothing_is_lost(rows, ranked);
    assert(sorting::is_consistent(ranked, by)) by {
        assert forall|a: QueryRow, b: QueryRow, c: QueryRow|
            ranked.contains(a) && ranked.contains(b) && ranked.contains(c) && #[trigger] by.precedes(
                a,
                b,
            ) && #[trigger] by.precedes(b, c) implies by.precedes(a, c) by {
            assert(rows.contains(a) && rows.contains(b) && rows.contains(c));
        }
    }
    assert(ranked.contains(ranked[i]));
    assert(ranked.take(ranked.len() as int) =~= ranked);
    assert(ranked.contains(other));
    sorting::lemma_first_come_first(rows, ranked, by, out.len() as int, i, other);
    assert forall|j: int| i < j < out.len() implies by.precedes(out[i], #[trigger] out[j]) by {
        assert(out[j] == ranked[j]);
    }
    if limit is None {
        assert(out.contains(other));
    } else if limit->Some_0 >= ranked.len() {
        assert(out =~= ranked);
    }
}

/// A query that asks for no order gives its rows by their keys, from the lowest on, and
/// all of them where it has no limit.
pub proof fn law_rows_come_by_key<F: Fn(&Vec<u32>, &Vec<u32>, DistanceMetric) -> Result<u32, Error>>(
    score: F,
    query: Query,
    columns: schema::Columns,
    rows: Seq<QueryRow>,
    out: Seq<QueryRow>,
    i: int,
    j: int,
)
    requires
        scan_rows(score, query, columns, rows, out),
        query.exact_vector is None,
        query.approx_vector is None,
        query.order_by is None,
        0 <= i < j < out.len(),
    ensures
        value::id_order(out[i].id@, out[j].id@) != Order::Greater,
        rows.contains(out[i]),
        query.limit is None ==> out.len() == rows.len(),
        query.limit matches Some(n) ==> out.len() <= n && (out.len() == n || out.len()
            == rows.len()),
{
    let by = choose|by: OrderBy| #[trigger]
        is_id_order(by) && is_first_of(rows, by, query.limit, out);
    let ranked = choose|ranked: Seq<QueryRow>| #[trigger]
        are_first(rows, by, query.limit, ranked, out);
    query::law_keys_go_in_the_direction(rows, ranked, by);
    assert(out[i] == ranked[i] && out[j] == ranked[j]);
    assert(ranked.contains(ranked[i]));
}

/// A row is scored exactly if it has a vector in the column, and it keeps its document.
pub proof fn law_rows_with_vectors_are_scored(
    rows: Seq<RowView>,
    column: Seq<char>,
    n: int,
    i: int,
)
    requires
        0 <= i < n <= rows.len(),
    ensures
        rows[i].document.vectors.dom().contains(column) ==> with_vectors(
            rows,
            column,
            n,
        ).contains(rows[i]),
        forall|row: RowView| #[trigger]
            with_vectors(rows, column, n).contains(row) ==> rows.contains(row)
                && row.document.vectors.dom().contains(column),
        with_vectors(rows, column, n).len() <= n,
    decreases n,
{
    let front = with_vectors(rows, column, n - 1);
    let all = with_vectors(rows, column, n);
    if n > 1 {
        law_rows_with_vectors_are_scored(
            rows,
            column,
            n - 1,
            if i < n - 1 {
                i
            } else {
                0
            },
        );
    } else {
        assert(front =~= Seq::empty());
    }
    if rows[n - 1].document.vectors.dom().contains(column) {
        assert(all[front.len() as int] == rows[n - 1]);
        if i < n - 1 && rows[i].document.vectors.dom().contains(column) {
            let k = front.index_of(rows[i]);
            assert(all[k] == rows[i]);
        }
        assert forall|row: RowView| #[trigger] all.contains(row) implies rows.contains(row)
            && row.document.vectors.dom().contains(column) by {
            let k = all.index_of(row);
            if k < front.len() {
                assert(front[k] == row);
                assert(front.contains(row));
            } else {
                assert(rows[n - 1] == row);
            }
        }
    }
}

/// The metric that a query names counts, and else that of its column; where a query names
/// the metric of the column it makes no difference whether it does.
pub proof fn law_named_metric_counts(
    columns: schema::Columns,
    named: ExactVectorQuery,
    unnamed: ExactVectorQuery,
    dim: usize,
    encoding: schema::VectorEncoding,
    metric: DistanceMetric,
)
    requires
        named.metric is Some,
        unnamed.metric is None,
        named.column@ == unnamed.column@,
        columns.dom().contains(unnamed.column@),
        columns[unnamed.column@].column_type == (ColumnType::Vector { dim, encoding, metric }),
    ensures
        Some(asked_metric(columns, named)) == named.metric,
        asked_metric(columns, unnamed) == metric,
        named.metric == Some(metric) ==> asked_metric(columns, named) == asked_metric(
            columns,
            unnamed,
        ),
{
}

/// A query that can be run has as many components as its column, all numbers, and asks for
/// at least one row.
pub proof fn law_queries_fit_their_column(
    columns: schema::Columns,
    q: ExactVectorQuery,
    dim: usize,
    encoding: schema::VectorEncoding,
    metric: DistanceMetric,
)
    requires
        columns.dom().contains(q.column@),
        columns[q.column@].column_type == (ColumnType::Vector { dim, encoding, metric }),
    ensures
        vector_query_ok(columns, q) ==> q.k >= 1 && q.vector@.len() == dim && dim > 0,
        q.k >= 1 && dim > 0 && q.vector@.len() == dim && (forall|i: int|
            0 <= i < dim ==> rounding::is_number(#[trigger] q.vector@[i])) ==> vector_query_ok(
            columns,
            q,
        ),
        vector_query_ok(columns, q) ==> forall|i: int|
            0 <= i < dim ==> rounding::is_number(#[trigger] q.vector@[i]),
{
}

} // verus!
