//! Queries over the documents of a namespace: filters, orders, aggregates and the
//! nearest vectors.

use vstd::prelude::*;

use crate::phrase::say;
use crate::attr;
use crate::attr::{AttrBound, BoundView};
use crate::error::Error;
use crate::order::Order;
use crate::sorting;
use crate::sorting::{arrange, Comparison};
use crate::strings;
use crate::textmap;
use crate::value;
use crate::value::{compare_ids, compare_scalars, scalar_eq, values_equal, Document, DocumentView, Id, Value, ValueView};
use crate::vector;

pub mod ann;
pub mod candidates;
pub mod execute;
pub mod native;
pub mod nearest;
pub mod recall;

verus! {

/// One end of a range of values.
#[derive(Debug)]
pub enum RangeBound {
    Included(Value),
    Excluded(Value),
}

pub open spec fn range_bound_view(b: RangeBound) -> BoundView {
    match b {
        RangeBound::Included(v) => BoundView { value: v@, inclusive: true },
        RangeBound::Excluded(v) => BoundView { value: v@, inclusive: false },
    }
}

pub open spec fn optional_bound_view(b: Option<RangeBound>) -> Option<BoundView> {
    match b {
        Some(b) => Some(range_bound_view(b)),
        None => None,
    }
}

impl RangeBound {
    /// The value at the end of the range.
    pub fn value(&self) -> (v: &Value)
        ensures
            v@ == range_bound_view(*self).value,
    {
        match self {
            RangeBound::Included(v) => v,
            RangeBound::Excluded(v) => v,
        }
    }
}

/// The bound in the terms of the attribute index.
pub fn range_bound_to_attr_bound<'a>(bound: &'a Option<RangeBound>) -> (r: Option<AttrBound<'a>>)
    ensures
        attr::bound_view(r) == optional_bound_view(*bound),
{
    match bound {
        Some(RangeBound::Included(v)) => Some(AttrBound { value: v, inclusive: true }),
        Some(RangeBound::Excluded(v)) => Some(AttrBound { value: v, inclusive: false }),
        None => None,
    }
}

/// A condition on documents.
#[derive(Debug)]
pub enum FilterExpr {
    Eq { column: String, value: Value },
    Range { column: String, lower: Option<RangeBound>, upper: Option<RangeBound> },
    And(Vec<FilterExpr>),
    Or(Vec<FilterExpr>),
    Not(Box<FilterExpr>),
}

/// What a condition stands for.
pub enum FilterView {
    Eq { column: Seq<char>, value: ValueView },
    Range { column: Seq<char>, lower: Option<BoundView>, upper: Option<BoundView> },
    And(Seq<FilterView>),
    Or(Seq<FilterView>),
    Not(Box<FilterView>),
}

/// What a condition stands for.
pub open spec fn filter_view(f: FilterExpr) -> FilterView
    decreases f,
{
    match f {
        FilterExpr::Eq { column, value } => FilterView::Eq { column: column@, value: value@ },
        FilterExpr::Range { column, lower, upper } => FilterView::Range {
            column: column@,
            lower: optional_bound_view(lower),
            upper: optional_bound_view(upper),
        },
        FilterExpr::And(fs) => FilterView::And(
            Seq::new(
                fs@.len(),
                |i: int|
                    if 0 <= i < fs@.len() {
                        filter_view(fs@[i])
                    } else {
                        FilterView::And(Seq::empty())
                    },
            ),
        ),
        FilterExpr::Or(fs) => FilterView::Or(
            Seq::new(
                fs@.len(),
                |i: int|
                    if 0 <= i < fs@.len() {
                        filter_view(fs@[i])
                    } else {
                        FilterView::And(Seq::empty())
                    },
            ),
        ),
        FilterExpr::Not(f) => FilterView::Not(Box::new(filter_view(*f))),
    }
}

impl View for FilterExpr {
    type V = FilterView;

    open spec fn view(&self) -> FilterView {
        filter_view(*self)
    }
}

/// An attribute equals a value: it is equal itself, or, where it is an array and
/// the value is none, an item of it is.
pub open spec fn eq_holds(actual: ValueView, expected: ValueView) -> bool {
    match actual {
        ValueView::Array(items) => if expected is Array {
            value::value_eq(actual, expected)
        } else {
            exists|i: int|
                0 <= i < items.len() && #[trigger] value::scalars_equal(items[i], expected)
        },
        _ => value::scalars_equal(actual, expected),
    }
}

/// A scalar lies between two bounds.
pub open spec fn in_range(v: ValueView, lower: Option<BoundView>, upper: Option<BoundView>) -> bool {
    attr::meets_lower(v, lower) && attr::meets_upper(v, upper)
}

/// An attribute lies between two bounds: it does itself or, where it is an array,
/// an item of it does.
pub open spec fn range_holds(
    actual: ValueView,
    lower: Option<BoundView>,
    upper: Option<BoundView>,
) -> bool {
    match actual {
        ValueView::Array(items) => exists|i: int|
            0 <= i < items.len() && #[trigger] in_range(items[i], lower, upper),
        _ => in_range(actual, lower, upper),
    }
}

/// A document meets a condition.
pub open spec fn filter_holds(f: FilterView, d: DocumentView) -> bool
    decreases f,
{
    match f {
        FilterView::Eq { column, value } => d.attributes.dom().contains(column) && eq_holds(
            d.attributes[column],
            value,
        ),
        FilterView::Range { column, lower, upper } => d.attributes.dom().contains(column)
            && range_holds(d.attributes[column], lower, upper),
        FilterView::And(fs) => forall|i: int|
            0 <= i < fs.len() ==> filter_holds(#[trigger] fs[i], d),
        FilterView::Or(fs) => exists|i: int|
            0 <= i < fs.len() && filter_holds(#[trigger] fs[i], d),
        FilterView::Not(f) => !filter_holds(*f, d),
    }
}

/// Whether an attribute equals a value.
pub fn eq_filter_value(actual: &Value, expected: &Value) -> (b: bool)
    ensures
        b == eq_holds(actual@, expected@),
{
    match actual {
        Value::Array(values) => {
            if let Value::Array(_) = expected {
                return values_equal(actual, expected);
            }
            let mut i: usize = 0;
            while i < values.len()
                invariant
                    i <= values@.len(),
                    *actual == Value::Array(*values),
                    !(expected@ is Array),
                    forall|j: int|
                        0 <= j < i ==> !#[trigger] value::scalars_equal(
                            actual@->Array_0[j],
                            expected@,
                        ),
                decreases values@.len() - i,
            {
                assert(actual@->Array_0[i as int] == values@[i as int]@);
                if scalar_eq(&values[i], expected) {
                    assert(value::scalars_equal(actual@->Array_0[i as int], expected@));
                    return true;
                }
                i = i + 1;
            }
            false
        },
        _ => scalar_eq(actual, expected),
    }
}

/// Whether a scalar lies between two bounds.
pub fn scalar_in_range(
    value: &Value,
    lower: &Option<RangeBound>,
    upper: &Option<RangeBound>,
) -> (b: bool)
    ensures
        b == in_range(value@, optional_bound_view(*lower), optional_bound_view(*upper)),
{
    attr::range_bound_matches(
        value,
        range_bound_to_attr_bound(lower),
        range_bound_to_attr_bound(upper),
    )
}

/// Whether an attribute lies between two bounds.
pub fn range_filter_value(
    actual: &Value,
    lower: &Option<RangeBound>,
    upper: &Option<RangeBound>,
) -> (b: bool)
    ensures
        b == range_holds(actual@, optional_bound_view(*lower), optional_bound_view(*upper)),
{
    match actual {
        Value::Array(values) => {
            let ghost lo = optional_bound_view(*lower);
            let ghost hi = optional_bound_view(*upper);
            let mut i: usize = 0;
            while i < values.len()
                invariant
                    i <= values@.len(),
                    *actual == Value::Array(*values),
                    lo == optional_bound_view(*lower),
                    hi == optional_bound_view(*upper),
                    forall|j: int|
                        0 <= j < i ==> !#[trigger] in_range(actual@->Array_0[j], lo, hi),
                decreases values@.len() - i,
            {
                assert(actual@->Array_0[i as int] == values@[i as int]@);
                if scalar_in_range(&values[i], lower, upper) {
                    assert(in_range(actual@->Array_0[i as int], lo, hi));
                    return true;
                }
                i = i + 1;
            }
            false
        },
        _ => scalar_in_range(actual, lower, upper),
    }
}

/// Whether a document meets a condition.
pub fn filter_matches(filter: &FilterExpr, document: &Document) -> (b: bool)
    requires
        document.wf(),
    ensures
        b == filter_holds(filter@, document@),
    decreases filter,
{
    match filter {
        FilterExpr::Eq { column, value } => match document.attributes.get(column.as_str()) {
            Some(actual) => eq_filter_value(actual, value),
            None => false,
        },
        FilterExpr::Range { column, lower, upper } => match document.attributes.get(
            column.as_str(),
        ) {
            Some(actual) => range_filter_value(actual, lower, upper),
            None => false,
        },
        FilterExpr::And(filters) => {
            let mut i: usize = 0;
            while i < filters.len()
                invariant
                    i <= filters@.len(),
                    *filter == FilterExpr::And(*filters),
                    document.wf(),
                    forall|j: int|
                        0 <= j < i ==> filter_holds(#[trigger] filter@->And_0[j], document@),
                decreases filters@.len() - i,
            {
                assert(filter->And_0@[i as int] == filters@[i as int]);
                assert(decreases_to!(*filter => filter->And_0@[i as int]));
                assert(filter@->And_0[i as int] == filters@[i as int]@);
                if !filter_matches(&filters[i], document) {
                    assert(!filter_holds(filter@->And_0[i as int], document@));
                    return false;
                }
                i = i + 1;
            }
            true
        },
        FilterExpr::Or(filters) => {
            let mut i: usize = 0;
            while i < filters.len()
                invariant
                    i <= filters@.len(),
                    *filter == FilterExpr::Or(*filters),
                    document.wf(),
                    forall|j: int|
                        0 <= j < i ==> !filter_holds(#[trigger] filter@->Or_0[j], document@),
                decreases filters@.len() - i,
            {
                assert(filter->Or_0@[i as int] == filters@[i as int]);
                assert(decreases_to!(*filter => filter->Or_0@[i as int]));
                assert(filter@->Or_0[i as int] == filters@[i as int]@);
                if filter_matches(&filters[i], document) {
                    assert(filter_holds(filter@->Or_0[i as int], document@));
                    return true;
                }
                i = i + 1;
            }
            false
        },
        FilterExpr::Not(inner) => !filter_matches(inner, document),
    }
}

/// A document meets a condition, if there is one.
pub open spec fn accepts(filter: Option<&FilterExpr>, d: DocumentView) -> bool {
    match filter {
        Some(f) => filter_holds(f@, d),
        None => true,
    }
}

/// Whether a document meets a condition, if there is one.
pub fn matches_filter(filter: Option<&FilterExpr>, document: &Document) -> (b: bool)
    requires
        document.wf(),
    ensures
        b == accepts(filter, document@),
{
    match filter {
        Some(f) => filter_matches(f, document),
        None => true,
    }
}

// ---------------------------------------------------------------------------
// Rows and their order
// ---------------------------------------------------------------------------

/// By what rows are sorted.
#[derive(Clone, Debug, PartialEq, Eq)]
pub enum OrderTarget {
    Id,
    Attribute(String),
}

#[derive(Clone, Copy, Debug, PartialEq, Eq, Structural)]
pub enum SortDirection {
    Asc,
    Desc,
}

/// The order of the rows of a query.
#[derive(Clone, Debug, PartialEq, Eq)]
pub struct OrderBy {
    pub target: OrderTarget,
    pub direction: SortDirection,
}

/// A document that a query found. The score, a single-precision number by its
/// bits, is there for vector queries; higher is better.
#[derive(Debug)]
pub struct QueryRow {
    pub id: Id,
    pub document: Document,
    pub score: Option<u32>,
}

/// The first order, and where it leaves the question open the second.
pub open spec fn then_order(a: Order, b: Order) -> Order {
    if a == Order::Equal {
        b
    } else {
        a
    }
}

/// The order of two values of a column; values that do not compare leave it open.
pub open spec fn value_order(a: ValueView, b: ValueView) -> Order {
    match value::scalar_order(a, b) {
        Some(o) => o,
        None => Order::Equal,
    }
}

pub open spec fn reversed_order(o: Order) -> Order {
    match o {
        Order::Less => Order::Greater,
        Order::Equal => Order::Equal,
        Order::Greater => Order::Less,
    }
}

/// An order taken in some direction.
pub open spec fn directed(o: Order, direction: SortDirection) -> Order {
    match direction {
        SortDirection::Asc => o,
        SortDirection::Desc => reversed_order(o),
    }
}

/// The value of a row in a column.
pub open spec fn row_value(row: QueryRow, column: Seq<char>) -> Option<ValueView> {
    if row.document@.attributes.dom().contains(column) {
        Some(row.document@.attributes[column])
    } else {
        None
    }
}

/// The order of two values that may be missing: in the direction asked for, but
/// missing ones last.
pub open spec fn optional_order(
    a: Option<ValueView>,
    b: Option<ValueView>,
    direction: SortDirection,
) -> Order {
    match (a, b) {
        (Some(x), Some(y)) => directed(value_order(x, y), direction),
        (Some(_), None) => Order::Less,
        (None, Some(_)) => Order::Greater,
        (None, None) => Order::Equal,
    }
}

/// The order of two rows.
pub open spec fn row_order(by: OrderBy, a: QueryRow, b: QueryRow) -> Order {
    match by.target {
        OrderTarget::Id => directed(value::id_order(a.id@, b.id@), by.direction),
        OrderTarget::Attribute(column) => then_order(
            optional_order(row_value(a, column@), row_value(b, column@), by.direction),
            value::id_order(a.id@, b.id@),
        ),
    }
}

proof fn lemma_values_total(a: ValueView, b: ValueView)
    ensures
        value_order(b, a) == reversed_order(value_order(a, b)),
{
    if let (ValueView::String(x), ValueView::String(y)) = (a, b) {
        textmap::lemma_text_total(x, y);
        textmap::lemma_text_total(y, x);
    }
}

proof fn lemma_texts_transitive(a: Seq<char>, b: Seq<char>, c: Seq<char>)
    ensures
        strings::text_order(a, b) != Order::Greater && strings::text_order(b, c) != Order::Greater
            ==> strings::text_order(a, c) != Order::Greater && (strings::text_order(a, c)
            == Order::Equal ==> strings::text_order(a, b) == Order::Equal && strings::text_order(
            b,
            c,
        ) == Order::Equal),
{
    textmap::lemma_text_total(a, b);
    textmap::lemma_text_total(b, c);
    textmap::lemma_text_total(a, c);
    textmap::lemma_text_total(b, a);
    if strings::text_lt(a, b) && strings::text_lt(b, c) {
        textmap::lemma_text_transitive(a, b, c);
    }
}

/// Two values of one kind, of which none is a NaN.
pub open spec fn same_kind(a: ValueView, b: ValueView) -> bool {
    match (a, b) {
        (ValueView::Bool(_), ValueView::Bool(_)) => true,
        (ValueView::Int(_), ValueView::Int(_)) => true,
        (ValueView::Float(x), ValueView::Float(y)) => value::float_rank(x) is Some
            && value::float_rank(y) is Some,
        (ValueView::String(_), ValueView::String(_)) => true,
        _ => false,
    }
}

proof fn lemma_values_transitive(a: ValueView, b: ValueView, c: ValueView)
    requires
        same_kind(a, b),
        same_kind(b, c),
    ensures
        value_order(a, b) != Order::Greater && value_order(b, c) != Order::Greater ==> value_order(
            a,
            c,
        ) != Order::Greater && (value_order(a, c) == Order::Equal ==> value_order(a, b)
            == Order::Equal && value_order(b, c) == Order::Equal),
{
    if let (ValueView::String(x), ValueView::String(y), ValueView::String(z)) = (a, b, c) {
        lemma_texts_transitive(x, y, z);
    }
}

proof fn lemma_optional_total(a: Option<ValueView>, b: Option<ValueView>, d: SortDirection)
    ensures
        optional_order(b, a, d) == reversed_order(optional_order(a, b, d)),
{
    if a is Some && b is Some {
        lemma_values_total(a->Some_0, b->Some_0);
    }
}

proof fn lemma_optional_transitive(
    a: Option<ValueView>,
    b: Option<ValueView>,
    c: Option<ValueView>,
    d: SortDirection,
)
    requires
        a is Some && b is Some ==> same_kind(a->Some_0, b->Some_0),
        b is Some && c is Some ==> same_kind(b->Some_0, c->Some_0),
        a is Some && c is Some ==> same_kind(a->Some_0, c->Some_0),
    ensures
        optional_order(a, b, d) != Order::Greater && optional_order(b, c, d) != Order::Greater
            ==> optional_order(a, c, d) != Order::Greater && (optional_order(a, c, d)
            == Order::Equal ==> optional_order(a, b, d) == Order::Equal && optional_order(b, c, d)
            == Order::Equal),
{
    if a is Some && b is Some && c is Some {
        lemma_values_transitive(a->Some_0, b->Some_0, c->Some_0);
        lemma_values_transitive(c->Some_0, b->Some_0, a->Some_0);
        lemma_values_total(a->Some_0, b->Some_0);
        lemma_values_total(b->Some_0, c->Some_0);
        lemma_values_total(a->Some_0, c->Some_0);
    }
}

/// The order of two values.
pub fn compare_values(a: &Value, b: &Value) -> (o: Order)
    ensures
        o == value_order(a@, b@),
{
    match compare_scalars(a, b) {
        Some(o) => o,
        None => Order::Equal,
    }
}

/// The order of two values that may be missing.
pub fn compare_optional_values(
    a: Option<&Value>,
    b: Option<&Value>,
    direction: SortDirection,
) -> (o: Order)
    ensures
        o == optional_order(
            match a {
                Some(v) => Some(v@),
                None => None,
            },
            match b {
                Some(v) => Some(v@),
                None => None,
            },
            direction,
        ),
{
    match (a, b) {
        (Some(x), Some(y)) => apply_direction(compare_values(x, y), direction),
        (Some(_), None) => Order::Less,
        (None, Some(_)) => Order::Greater,
        (None, None) => Order::Equal,
    }
}

/// An order taken in some direction.
pub fn apply_direction(order: Order, direction: SortDirection) -> (o: Order)
    ensures
        o == directed(order, direction),
{
    match direction {
        SortDirection::Asc => order,
        SortDirection::Desc => match order {
            Order::Less => Order::Greater,
            Order::Equal => Order::Equal,
            Order::Greater => Order::Less,
        },
    }
}

impl Comparison<QueryRow> for OrderBy {
    open spec fn ranks(&self, a: QueryRow) -> bool {
        a.document.wf()
    }

    open spec fn precedes(&self, a: QueryRow, b: QueryRow) -> bool {
        row_order(*self, a, b) != Order::Greater
    }

    proof fn lemma_total(&self, a: QueryRow, b: QueryRow) {
        value::lemma_ids_total(a.id@, b.id@);
        value::lemma_ids_total(b.id@, a.id@);
        if let OrderTarget::Attribute(column) = self.target {
            lemma_optional_total(
                row_value(a, column@),
                row_value(b, column@),
                self.direction,
            );
        }
    }

    fn in_order(&self, a: &QueryRow, b: &QueryRow) -> (r: bool) {
        let o = match &self.target {
            OrderTarget::Id => apply_direction(compare_ids(&a.id, &b.id), self.direction),
            OrderTarget::Attribute(column) => {
                let x = a.document.attributes.get(column.as_str());
                let y = b.document.attributes.get(column.as_str());
                let o = compare_optional_values(x, y, self.direction);
                match o {
                    Order::Equal => compare_ids(&a.id, &b.id),
                    _ => o,
                }
            },
        };
        !matches!(o, Order::Greater)
    }
}

/// Rows whose values are all of one kind, and no NaN, are ordered, in either direction
/// and with rows that have none; and so are any rows by their keys.
pub proof fn law_rows_of_one_kind_are_ordered(rows: Seq<QueryRow>, by: OrderBy)
    requires
        by.target matches OrderTarget::Attribute(column) ==> forall|i: int, j: int|
            0 <= i < rows.len() && 0 <= j < rows.len() && row_value(#[trigger] rows[i], column@) is Some
                && row_value(#[trigger] rows[j], column@) is Some ==> same_kind(
                row_value(rows[i], column@)->Some_0,
                row_value(rows[j], column@)->Some_0,
            ),
    ensures
        sorting::is_consistent(rows, by),
{
    assert forall|a: QueryRow, b: QueryRow, c: QueryRow|
        rows.contains(a) && rows.contains(b) && rows.contains(c) && #[trigger] by.precedes(a, b)
            && #[trigger] by.precedes(b, c) implies by.precedes(a, c) by {
        assert(rows[rows.index_of(a)] == a);
        assert(rows[rows.index_of(b)] == b);
        assert(rows[rows.index_of(c)] == c);
        vector::lemma_ids_transitive(a.id@, b.id@, c.id@);
        vector::lemma_ids_transitive(c.id@, b.id@, a.id@);
        value::lemma_ids_total(a.id@, b.id@);
        value::lemma_ids_total(b.id@, c.id@);
        value::lemma_ids_total(a.id@, c.id@);
        value::lemma_ids_total(b.id@, a.id@);
        value::lemma_ids_total(c.id@, b.id@);
        value::lemma_ids_total(c.id@, a.id@);
        if let OrderTarget::Attribute(column) = by.target {
            lemma_optional_transitive(
                row_value(a, column@),
                row_value(b, column@),
                row_value(c, column@),
                by.direction,
            );
        }
    }
}

/// A value that rows can be sorted by.
pub open spec fn is_sortable(v: ValueView) -> bool {
    attr::is_scalar(v)
}

/// Whether rows can be sorted by a value.
pub fn is_sortable_value(value: &Value) -> (b: bool)
    ensures
        b == is_sortable(value@),
{
    matches!(value, Value::Bool(_) | Value::Int(_) | Value::Float(_) | Value::String(_))
}

/// Every row has either no value to sort by or one that can be sorted by.
pub open spec fn rows_sortable(rows: Seq<QueryRow>, by: OrderBy) -> bool {
    match by.target {
        OrderTarget::Id => true,
        OrderTarget::Attribute(column) => forall|i: int|
            0 <= i < rows.len() ==> (row_value(#[trigger] rows[i], column@) matches Some(v)
                ==> is_sortable(v)),
    }
}

/// Every row holds a well-formed document.
pub open spec fn rows_wf(rows: Seq<QueryRow>) -> bool {
    forall|i: int| 0 <= i < rows.len() ==> (#[trigger] rows[i]).document.wf()
}

/// Sorts rows. A column of arrays cannot be sorted by. Rows that the comparison does
/// not order, as values of several kinds can do, come in some order.
pub fn sort_rows(rows: &mut Vec<QueryRow>, order_by: &OrderBy) -> (r: Result<(), Error>)
    requires
        rows_wf(old(rows)@),
    ensures
        rows_wf(final(rows)@),
        r is Ok <==> rows_sortable(old(rows)@, *order_by),
        r is Err ==> r->Err_0 is InvalidQuery && final(rows)@ == old(rows)@,
        r is Ok ==> {
            &&& sorting::is_arrangement(old(rows)@, final(rows)@, *order_by)
            &&& final(rows)@.len() == old(rows)@.len()
        },
{
    if let OrderTarget::Attribute(column) = &order_by.target {
        let mut i: usize = 0;
        while i < rows.len()
            invariant
                i <= rows@.len(),
                rows@ == old(rows)@,
                rows_wf(rows@),
                order_by.target == OrderTarget::Attribute(*column),
                forall|j: int|
                    0 <= j < i ==> (row_value(#[trigger] rows@[j], column@) matches Some(v)
                        ==> is_sortable(v)),
            decreases rows@.len() - i,
        {
            assert(rows@[i as int].document.wf());
            if let Some(value) = rows[i].document.attributes.get(column.as_str()) {
                if !is_sortable_value(value) {
                    assert(row_value(rows@[i as int], column@) == Some(value@));
                    return Err(Error::InvalidQuery(
                            say("cannot order by non-scalar column '").and(column.as_str()).and(
                                "'",
                            ).done(),
                        ));
                }
            }
            i = i + 1;
        }
    }
    let mut taken: Vec<QueryRow> = Vec::new();
    std::mem::swap(&mut taken, rows);
    assert(sorting::all_rank(taken@, *order_by)) by {
        assert forall|i: int| 0 <= i < taken@.len() implies order_by.ranks(#[trigger] taken@[i]) by {
            assert(taken@[i].document.wf());
        }
    }
    let mut sorted = arrange(taken, order_by);
    assert(rows_wf(sorted@)) by {
        assert forall|i: int| 0 <= i < sorted@.len() implies (
        #[trigger] sorted@[i]).document.wf() by {
            assert(order_by.ranks(sorted@[i]));
        }
    }
    std::mem::swap(&mut sorted, rows);
    Ok(())
}

/// For an attribute that is an integer, a range is the plain comparison of numbers: a
/// bound that is excluded leaves the number itself out, and one that is included takes
/// it in.
pub proof fn law_integer_range_is_plain_comparison(
    d: DocumentView,
    column: Seq<char>,
    x: i64,
    low: i64,
    high: i64,
)
    requires
        d.attributes.dom().contains(column),
        d.attributes[column] == ValueView::Int(x),
    ensures
        ({
            let from = |inclusive: bool|
                Some(BoundView { value: ValueView::Int(low), inclusive });
            let to = |inclusive: bool| Some(BoundView { value: ValueView::Int(high), inclusive });
            &&& filter_holds(FilterView::Range { column, lower: None, upper: to(false) }, d) == (x
                < high)
            &&& filter_holds(FilterView::Range { column, lower: None, upper: to(true) }, d) == (x
                <= high)
            &&& filter_holds(FilterView::Range { column, lower: from(false), upper: None }, d) == (
            low < x)
            &&& filter_holds(FilterView::Range { column, lower: from(true), upper: None }, d) == (
            low <= x)
            &&& filter_holds(FilterView::Range { column, lower: from(true), upper: to(false) }, d)
                == (low <= x < high)
            &&& filter_holds(FilterView::Range { column, lower: from(false), upper: to(true) }, d)
                == (low < x <= high)
            &&& filter_holds(FilterView::Range { column, lower: None, upper: None }, d)
            &&& filter_holds(FilterView::Eq { column, value: ValueView::Int(high) }, d) == (x
                == high)
        }),
{
}

/// A bound that is excluded leaves out exactly what compares equal to it: with the bound
/// included, a value is in the range if it was before, or if it compares equal. A value
/// that does not compare with a bound is outside of the range.
pub proof fn law_excluded_bound_is_outside(v: ValueView, bound: ValueView)
    ensures
        ({
            let out = Some(BoundView { value: bound, inclusive: false });
            let within = Some(BoundView { value: bound, inclusive: true });
            let equal = value::scalar_order(v, bound) == Some(Order::Equal);
            &&& equal ==> !in_range(v, None, out) && !in_range(v, out, None)
            &&& equal ==> in_range(v, None, within) && in_range(v, within, None)
            &&& in_range(v, None, within) == (in_range(v, None, out) || equal)
            &&& in_range(v, within, None) == (in_range(v, out, None) || equal)
            &&& in_range(v, None, out) == (value::scalar_order(v, bound) == Some(Order::Less))
            &&& in_range(v, out, None) == (value::scalar_order(v, bound) == Some(Order::Greater))
            &&& value::scalar_order(v, bound) is None ==> !in_range(v, None, within) && !in_range(
                v,
                within,
                None,
            )
        }),
{
}

/// A list of conditions is met where each is, or where one is.
pub proof fn lemma_lists_of_conditions(fs: Seq<FilterView>, d: DocumentView)
    ensures
        filter_holds(FilterView::And(fs), d) <==> forall|i: int|
            0 <= i < fs.len() ==> filter_holds(#[trigger] fs[i], d),
        filter_holds(FilterView::Or(fs), d) <==> exists|i: int|
            0 <= i < fs.len() && filter_holds(#[trigger] fs[i], d),
{
    let all = FilterView::And(fs);
    let any = FilterView::Or(fs);
    if filter_holds(all, d) {
        assert forall|i: int| 0 <= i < fs.len() implies filter_holds(#[trigger] fs[i], d) by {
            assert(filter_holds(all->And_0[i], d));
        }
    }
    if forall|i: int| 0 <= i < fs.len() ==> filter_holds(#[trigger] fs[i], d) {
        assert forall|i: int| 0 <= i < all->And_0.len() implies filter_holds(
            #[trigger] all->And_0[i],
            d,
        ) by {
            assert(filter_holds(fs[i], d));
        }
    }
    if filter_holds(any, d) {
        let i = choose|i: int| 0 <= i < any->Or_0.len() && filter_holds(#[trigger] any->Or_0[i], d);
        assert(filter_holds(fs[i], d));
    }
    if exists|i: int| 0 <= i < fs.len() && filter_holds(#[trigger] fs[i], d) {
        let i = choose|i: int| 0 <= i < fs.len() && filter_holds(#[trigger] fs[i], d);
        assert(filter_holds(any->Or_0[i], d));
    }
}

/// Conditions combine as truths do: both of two, either of two, and the opposite of one.
/// All of none hold, and any of none does not. A column that a document does not have
/// meets no condition on it.
pub proof fn law_conditions_combine(f: FilterView, g: FilterView, d: DocumentView)
    ensures
        filter_holds(FilterView::And(seq![f, g]), d) == (filter_holds(f, d) && filter_holds(g, d)),
        filter_holds(FilterView::Or(seq![f, g]), d) == (filter_holds(f, d) || filter_holds(g, d)),
        filter_holds(FilterView::Not(Box::new(f)), d) == !filter_holds(f, d),
        filter_holds(FilterView::And(Seq::empty()), d),
        !filter_holds(FilterView::Or(Seq::empty()), d),
        forall|column: Seq<char>, value: ValueView, lower: Option<BoundView>, upper: Option<BoundView>|
            !d.attributes.dom().contains(column) ==> !#[trigger] filter_holds(
                FilterView::Eq { column, value },
                d,
            ) && !#[trigger] filter_holds(FilterView::Range { column, lower, upper }, d),
{
    let two = seq![f, g];
    lemma_lists_of_conditions(two, d);
    lemma_lists_of_conditions(Seq::empty(), d);
    assert(two[0] == f && two[1] == g);
    assert(filter_holds(two[0], d) == filter_holds(f, d));
    assert(filter_holds(two[1], d) == filter_holds(g, d));
}

/// One more condition that must be met admits those of the documents that were admitted
/// and meet it; one more that suffices admits those as well that meet it.
pub proof fn law_conditions_narrow_and_widen(fs: Seq<FilterView>, g: FilterView, d: DocumentView)
    ensures
        filter_holds(FilterView::And(fs.push(g)), d) == (filter_holds(FilterView::And(fs), d)
            && filter_holds(g, d)),
        filter_holds(FilterView::Or(fs.push(g)), d) == (filter_holds(FilterView::Or(fs), d)
            || filter_holds(g, d)),
{
    let more = fs.push(g);
    lemma_lists_of_conditions(fs, d);
    lemma_lists_of_conditions(more, d);
    assert(more[fs.len() as int] == g);
    if filter_holds(FilterView::And(more), d) {
        assert forall|i: int| 0 <= i < fs.len() implies filter_holds(#[trigger] fs[i], d) by {
            assert(filter_holds(more[i], d));
        }
        assert(filter_holds(more[fs.len() as int], d));
    }
    if filter_holds(FilterView::Or(fs), d) {
        let i = choose|i: int| 0 <= i < fs.len() && filter_holds(#[trigger] fs[i], d);
        assert(filter_holds(more[i], d));
    }
    if filter_holds(g, d) {
        assert(filter_holds(more[fs.len() as int], d));
    }
    if filter_holds(FilterView::Or(more), d) && !filter_holds(g, d) {
        let i = choose|i: int| 0 <= i < more.len() && filter_holds(#[trigger] more[i], d);
        assert(filter_holds(fs[i], d));
    }
}

/// An array meets a condition on single values if one of its items does: with one more
/// item it does if it did before, or the item alone does. An empty one never does.
pub proof fn law_arrays_meet_by_item(
    items: Seq<ValueView>,
    item: ValueView,
    expected: ValueView,
    lower: Option<BoundView>,
    upper: Option<BoundView>,
)
    requires
        !(item is Array),
        !(expected is Array),
    ensures
        !eq_holds(ValueView::Array(Seq::empty()), expected),
        !range_holds(ValueView::Array(Seq::empty()), lower, upper),
        eq_holds(ValueView::Array(items.push(item)), expected) == (eq_holds(
            ValueView::Array(items),
            expected,
        ) || eq_holds(item, expected)),
        range_holds(ValueView::Array(items.push(item)), lower, upper) == (range_holds(
            ValueView::Array(items),
            lower,
            upper,
        ) || range_holds(item, lower, upper)),
{
    let more = items.push(item);
    let n = items.len() as int;
    assert(more[n] == item);
    assert forall|i: int| 0 <= i < n implies more[i] == #[trigger] items[i] by {}
    if eq_holds(ValueView::Array(items), expected) {
        let i = choose|i: int|
            0 <= i < n && #[trigger] value::scalars_equal(items[i], expected);
        assert(value::scalars_equal(more[i], expected));
    }
    if eq_holds(ValueView::Array(more), expected) {
        let i = choose|i: int|
            0 <= i < more.len() && #[trigger] value::scalars_equal(more[i], expected);
        if i < n {
            assert(value::scalars_equal(items[i], expected));
        }
    }
    if eq_holds(item, expected) {
        assert(value::scalars_equal(more[n], expected));
    }
    if range_holds(ValueView::Array(items), lower, upper) {
        let i = choose|i: int| 0 <= i < n && #[trigger] in_range(items[i], lower, upper);
        assert(in_range(more[i], lower, upper));
    }
    if range_holds(ValueView::Array(more), lower, upper) {
        let i = choose|i: int|
            0 <= i < more.len() && #[trigger] in_range(more[i], lower, upper);
        if i < n {
            assert(in_range(items[i], lower, upper));
        }
    }
    if range_holds(item, lower, upper) {
        assert(in_range(more[n], lower, upper));
    }
}

/// Rows sorted by their keys have keys that never fall, or never rise where the
/// direction is descending.
pub proof fn law_keys_go_in_the_direction(rows: Seq<QueryRow>, sorted: Seq<QueryRow>, by: OrderBy)
    requires
        sorting::is_arrangement(rows, sorted, by),
        by.target is Id,
    ensures
        forall|i: int, j: int|
            0 <= i < j < sorted.len() ==> match by.direction {
                SortDirection::Asc => value::id_order(
                    (#[trigger] sorted[i]).id@,
                    (#[trigger] sorted[j]).id@,
                ) != Order::Greater,
                SortDirection::Desc => value::id_order(sorted[i].id@, sorted[j].id@)
                    != Order::Less,
            },
        sorted.len() == rows.len(),
        forall|row: QueryRow| rows.contains(row) == sorted.contains(row),
{
    law_rows_of_one_kind_are_ordered(sorted, by);
    assert(sorting::is_sorted(sorted, by));
    assert forall|i: int, j: int| 0 <= i < j < sorted.len() implies match by.direction {
        SortDirection::Asc => value::id_order(
            (#[trigger] sorted[i]).id@,
            (#[trigger] sorted[j]).id@,
        ) != Order::Greater,
        SortDirection::Desc => value::id_order(sorted[i].id@, sorted[j].id@) != Order::Less,
    } by {
        assert(by.precedes(sorted[i], sorted[j]));
        value::lemma_ids_total(sorted[i].id@, sorted[j].id@);
    }
    sorting::lemma_nothing_is_lost(rows, sorted);
}

/// Rows sorted by an attribute that is an integer where they have it: the integers never
/// fall, or never rise where the direction is descending; rows without the attribute come
/// last in either direction; and among rows with the same integer, or without one, the
/// keys rise.
pub proof fn law_attributes_go_in_the_direction(
    rows: Seq<QueryRow>,
    sorted: Seq<QueryRow>,
    by: OrderBy,
    column: String,
)
    requires
        sorting::is_arrangement(rows, sorted, by),
        by.target == OrderTarget::Attribute(column),
        forall|i: int|
            0 <= i < sorted.len() ==> (row_value(#[trigger] sorted[i], column@) matches Some(v)
                ==> v is Int),
    ensures
        forall|i: int, j: int|
            0 <= i < j < sorted.len() ==> {
                let x = row_value(#[trigger] sorted[i], column@);
                let y = row_value(#[trigger] sorted[j], column@);
                &&& y is Some ==> x is Some
                &&& x is Some && y is Some ==> match by.direction {
                    SortDirection::Asc => x->Some_0->Int_0 <= y->Some_0->Int_0,
                    SortDirection::Desc => x->Some_0->Int_0 >= y->Some_0->Int_0,
                }
                &&& x == y ==> value::id_order(sorted[i].id@, sorted[j].id@) != Order::Greater
            },
        sorted.len() == rows.len(),
        forall|row: QueryRow| rows.contains(row) == sorted.contains(row),
{
    law_rows_of_one_kind_are_ordered(sorted, by);
    assert(sorting::is_sorted(sorted, by));
    assert forall|i: int, j: int| 0 <= i < j < sorted.len() implies {
        let x = row_value(#[trigger] sorted[i], column@);
        let y = row_value(#[trigger] sorted[j], column@);
        &&& y is Some ==> x is Some
        &&& x is Some && y is Some ==> match by.direction {
            SortDirection::Asc => x->Some_0->Int_0 <= y->Some_0->Int_0,
            SortDirection::Desc => x->Some_0->Int_0 >= y->Some_0->Int_0,
        }
        &&& x == y ==> value::id_order(sorted[i].id@, sorted[j].id@) != Order::Greater
    } by {
        assert(by.precedes(sorted[i], sorted[j]));
    }
    sorting::lemma_nothing_is_lost(rows, sorted);
}

/// Of two rows with different values that compare, the one that stands first when
/// ascending stands last when descending.
pub proof fn law_directions_are_opposite(column: String, a: QueryRow, b: QueryRow)
    requires
        row_value(a, column@) is Some,
        row_value(b, column@) is Some,
        value::scalar_order(row_value(a, column@)->Some_0, row_value(b, column@)->Some_0) matches Some(
            o,
        ) && o != Order::Equal,
    ensures
        ({
            let up = OrderBy {
                target: OrderTarget::Attribute(column),
                direction: SortDirection::Asc,
            };
            let down = OrderBy {
                target: OrderTarget::Attribute(column),
                direction: SortDirection::Desc,
            };
            &&& up.precedes(a, b) == down.precedes(b, a)
            &&& up.precedes(a, b) != down.precedes(a, b)
            &&& up.precedes(a, b) == (value::scalar_order(
                row_value(a, column@)->Some_0,
                row_value(b, column@)->Some_0,
            ) == Some(Order::Less))
        }),
{
    lemma_values_total(row_value(a, column@)->Some_0, row_value(b, column@)->Some_0);
}

} // verus!
