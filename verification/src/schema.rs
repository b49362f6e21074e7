//! The schema of a namespace: which columns it has, of which types, and how
//! writes add to it.

use vstd::prelude::*;
use vstd::string::*;

use crate::wal;
use crate::value;
use crate::error::{invalid_schema, invalid_write, Error};
use crate::strings;
use crate::phrase::say;
use crate::strings::{text2, text3};
use crate::textmap::TextMap;
use crate::value::{is_finite, same_id, Value, ValueView, VectorValue, VectorView};
use crate::wal::{OpView, WalOp};

verus! {

#[derive(Clone, Copy, Debug, PartialEq, Eq, Structural)]
pub enum ScalarType {
    Bool,
    Int,
    Float,
    String,
}

#[derive(Clone, Copy, Debug, PartialEq, Eq, Structural)]
pub enum VectorEncoding {
    F32,
    F16,
}

#[derive(Clone, Copy, Debug, PartialEq, Eq, Structural)]
pub enum DistanceMetric {
    L2,
    Cosine,
    Dot,
}

#[derive(Clone, Copy, Debug, PartialEq, Eq, Structural)]
pub enum ColumnType {
    Scalar(ScalarType),
    Array(ScalarType),
    Vector { dim: usize, encoding: VectorEncoding, metric: DistanceMetric },
    FullText,
}

#[derive(Clone, Copy, Debug, PartialEq, Eq, Structural)]
pub struct ColumnSpec {
    pub column_type: ColumnType,
    pub filterable: bool,
    pub indexed: bool,
}

/// The columns of a namespace, and how often they have changed.
#[derive(Debug)]
pub struct Schema {
    pub columns: TextMap<ColumnSpec>,
    pub version: u64,
}

/// Columns by name.
pub type Columns = Map<Seq<char>, ColumnSpec>;

/// Whether a write replaces a whole document or changes some columns of one.
#[derive(Clone, Copy, PartialEq, Eq, Structural)]
pub enum WriteMode {
    FullDocument,
    Patch,
}

/// The type of a scalar; infinities, NaNs, nulls and arrays have none.
pub open spec fn scalar_type(v: ValueView) -> Option<ScalarType> {
    match v {
        ValueView::Bool(_) => Some(ScalarType::Bool),
        ValueView::Int(_) => Some(ScalarType::Int),
        ValueView::Float(f) => if value::float_is_finite(f) {
            Some(ScalarType::Float)
        } else {
            None
        },
        ValueView::String(_) => Some(ScalarType::String),
        _ => None,
    }
}

/// Every item is a scalar of that type.
pub open spec fn items_have_type(items: Seq<ValueView>, t: ScalarType) -> bool {
    forall|i: int| 0 <= i < items.len() ==> scalar_type(#[trigger] items[i]) == Some(t)
}

/// The type of the column that a value starts: an array must not be empty, and its
/// items must have one type.
pub open spec fn inferred_type(v: ValueView) -> Option<ColumnType> {
    match v {
        ValueView::Array(items) => if items.len() > 0 && scalar_type(items[0]) is Some
            && items_have_type(items, scalar_type(items[0])->Some_0) {
            Some(ColumnType::Array(scalar_type(items[0])->Some_0))
        } else {
            None
        },
        _ => match scalar_type(v) {
            Some(t) => Some(ColumnType::Scalar(t)),
            None => None,
        },
    }
}

/// A value belongs in a column of that type. An empty array belongs in any array
/// column; nothing but vectors belongs in a vector column.
pub open spec fn fits(v: ValueView, t: ColumnType) -> bool {
    match t {
        ColumnType::Scalar(s) => inferred_type(v) == Some(ColumnType::Scalar(s)),
        ColumnType::Array(s) => v matches ValueView::Array(items) && items_have_type(items, s),
        _ => false,
    }
}

/// The single-precision number with these bits is neither infinite nor a NaN.
pub open spec fn f32_is_finite(bits: u32) -> bool {
    bits % 0x8000_0000 < 0x7f80_0000
}

/// The half-precision number with these bits is neither infinite nor a NaN.
pub open spec fn f16_is_finite(bits: u16) -> bool {
    bits % 0x8000 < 0x7c00
}

/// The type of the column of a vector: it must not be empty nor hold an infinity
/// or a NaN.
pub open spec fn vector_type(v: VectorView) -> Option<ColumnType> {
    if value::vector_dim(v) == 0 || value::vector_dim(v) > usize::MAX {
        None
    } else {
        match v {
            VectorView::F32(s) => if forall|i: int|
                0 <= i < s.len() ==> f32_is_finite(#[trigger] s[i]) {
                Some(
                    ColumnType::Vector {
                        dim: s.len() as usize,
                        encoding: VectorEncoding::F32,
                        metric: DistanceMetric::Cosine,
                    },
                )
            } else {
                None
            },
            VectorView::F16(s) => if forall|i: int|
                0 <= i < s.len() ==> f16_is_finite(#[trigger] s[i]) {
                Some(
                    ColumnType::Vector {
                        dim: s.len() as usize,
                        encoding: VectorEncoding::F16,
                        metric: DistanceMetric::Cosine,
                    },
                )
            } else {
                None
            },
        }
    }
}

/// A write may give that column that value. A null is for patches alone, which
/// clear the column with it.
pub open spec fn attribute_fits(
    columns: Columns,
    name: Seq<char>,
    v: ValueView,
    mode: WriteMode,
) -> bool {
    &&& name.len() > 0
    &&& if v is Null {
        mode == WriteMode::Patch
    } else if columns.dom().contains(name) {
        fits(v, columns[name].column_type)
    } else {
        inferred_type(v) is Some
    }
}

/// The column that an attribute starts.
pub open spec fn attribute_column(v: ValueView) -> ColumnSpec {
    ColumnSpec { column_type: inferred_type(v)->Some_0, filterable: true, indexed: true }
}

/// The columns that attributes start, where there are none of those names yet.
pub open spec fn attribute_columns(attributes: Map<Seq<char>, ValueView>) -> Columns {
    Map::new(
        |name: Seq<char>| attributes.dom().contains(name) && !(attributes[name] is Null),
        |name: Seq<char>| attribute_column(attributes[name]),
    )
}

/// A write may give that column that vector.
pub open spec fn vector_fits(columns: Columns, name: Seq<char>, v: VectorView) -> bool {
    &&& name.len() > 0
    &&& vector_type(v) is Some
    &&& columns.dom().contains(name) ==> columns[name].column_type == vector_type(v)->Some_0
}

/// The column that a vector starts.
pub open spec fn vector_column(v: VectorView) -> ColumnSpec {
    ColumnSpec { column_type: vector_type(v)->Some_0, filterable: false, indexed: true }
}

/// The columns that vectors start, where there are none of those names yet.
pub open spec fn vector_columns(vectors: Map<Seq<char>, VectorView>) -> Columns {
    Map::new(
        |name: Seq<char>| vectors.dom().contains(name),
        |name: Seq<char>| vector_column(vectors[name]),
    )
}

/// Columns with new ones added; those that are there stay as they are.
pub open spec fn added(columns: Columns, more: Columns) -> Columns {
    more.union_prefer_right(columns)
}

/// The columns after a write of attributes.
pub open spec fn with_attributes(
    columns: Columns,
    attributes: Map<Seq<char>, ValueView>,
    mode: WriteMode,
) -> Option<Columns> {
    if forall|name: Seq<char>|
        attributes.dom().contains(name) ==> attribute_fits(
            columns,
            name,
            #[trigger] attributes[name],
            mode,
        ) {
        Some(added(columns, attribute_columns(attributes)))
    } else {
        None
    }
}

/// The columns after a write of vectors.
pub open spec fn with_vectors(columns: Columns, vectors: Map<Seq<char>, VectorView>) -> Option<
    Columns,
> {
    if forall|name: Seq<char>|
        vectors.dom().contains(name) ==> vector_fits(columns, name, #[trigger] vectors[name]) {
        Some(added(columns, vector_columns(vectors)))
    } else {
        None
    }
}

/// The columns after a write of attributes and then vectors.
pub open spec fn with_both(
    columns: Columns,
    attributes: Map<Seq<char>, ValueView>,
    vectors: Map<Seq<char>, VectorView>,
    mode: WriteMode,
) -> Option<Columns> {
    match with_attributes(columns, attributes, mode) {
        None => None,
        Some(c) => with_vectors(c, vectors),
    }
}

/// What a batch does to the columns.
pub enum Outcome {
    Columns(Columns),
    /// An operation replaces a document under another document's key.
    Misplaced,
    /// A value or vector has no place in the schema.
    Rejected,
}

/// What an operation does to the columns.
pub open spec fn op_outcome(columns: Columns, op: OpView) -> Outcome {
    match op {
        OpView::Upsert { id, document } => if document.id != id {
            Outcome::Misplaced
        } else {
            match with_both(
                columns,
                document.attributes,
                document.vectors,
                WriteMode::FullDocument,
            ) {
                None => Outcome::Rejected,
                Some(c) => Outcome::Columns(c),
            }
        },
        OpView::Patch { attributes, vectors, .. } => match with_both(
            columns,
            attributes,
            vectors,
            WriteMode::Patch,
        ) {
            None => Outcome::Rejected,
            Some(c) => Outcome::Columns(c),
        },
        OpView::Delete { .. } => Outcome::Columns(columns),
    }
}

/// What a batch does to the columns: one operation after the other, up to the
/// first that is refused.
pub open spec fn batch_outcome(columns: Columns, ops: Seq<OpView>) -> Outcome
    decreases ops.len(),
{
    if ops.len() == 0 {
        Outcome::Columns(columns)
    } else {
        match batch_outcome(columns, ops.drop_last()) {
            Outcome::Columns(c) => op_outcome(c, ops.last()),
            refused => refused,
        }
    }
}

/// What comes before a name, in the order in which names are gone through.
pub open spec fn names_before<V>(m: Map<Seq<char>, V>, name: Seq<char>) -> Map<Seq<char>, V> {
    Map::new(
        |k: Seq<char>| m.dom().contains(k) && k != name && strings::text_lt(k, name),
        |k: Seq<char>| m[k],
    )
}

/// An attribute is the first that is refused.
pub open spec fn is_first_refused_attribute(
    columns: Columns,
    attributes: Map<Seq<char>, ValueView>,
    mode: WriteMode,
    name: Seq<char>,
) -> bool {
    &&& attributes.dom().contains(name)
    &&& !attribute_fits(columns, name, attributes[name], mode)
    &&& forall|k: Seq<char>| #[trigger]
        names_before(attributes, name).dom().contains(k) ==> attribute_fits(
            columns,
            k,
            attributes[k],
            mode,
        )
}

/// A vector is the first that is refused.
pub open spec fn is_first_refused_vector(
    columns: Columns,
    vectors: Map<Seq<char>, VectorView>,
    name: Seq<char>,
) -> bool {
    &&& vectors.dom().contains(name)
    &&& !vector_fits(columns, name, vectors[name])
    &&& forall|k: Seq<char>| #[trigger]
        names_before(vectors, name).dom().contains(k) ==> vector_fits(columns, k, vectors[k])
}

/// The columns that a refused write of attributes leaves, and what is said of it: those
/// columns that the attributes before the first refused one started are there.
pub open spec fn attributes_leave(
    columns: Columns,
    attributes: Map<Seq<char>, ValueView>,
    mode: WriteMode,
    left: Columns,
    words: Seq<char>,
) -> bool {
    exists|name: Seq<char>| #[trigger]
        is_first_refused_attribute(columns, attributes, mode, name) && left == added(
            columns,
            attribute_columns(names_before(attributes, name)),
        ) && words == attribute_complaint(columns, name, attributes[name])
}

/// The columns that a refused write of vectors leaves, and what is said of it.
pub open spec fn vectors_leave(
    columns: Columns,
    vectors: Map<Seq<char>, VectorView>,
    left: Columns,
    words: Seq<char>,
) -> bool {
    exists|name: Seq<char>| #[trigger]
        is_first_refused_vector(columns, vectors, name) && left == added(
            columns,
            vector_columns(names_before(vectors, name)),
        ) && words == vector_complaint(columns, name, vectors[name])
}

/// The columns that a refused write of attributes and then vectors leaves, and what is
/// said of it.
pub open spec fn both_leave(
    columns: Columns,
    attributes: Map<Seq<char>, ValueView>,
    vectors: Map<Seq<char>, VectorView>,
    mode: WriteMode,
    left: Columns,
    words: Seq<char>,
) -> bool {
    match with_attributes(columns, attributes, mode) {
        None => attributes_leave(columns, attributes, mode, left, words),
        Some(c) => vectors_leave(c, vectors, left, words),
    }
}

/// The columns that a refused operation leaves, and what is said of it.
pub open spec fn op_leaves(columns: Columns, op: OpView, left: Columns, words: Seq<char>) -> bool {
    match op {
        OpView::Upsert { id, document } => if document.id != id {
            left == columns && words == "upsert id does not match document id"@
        } else {
            both_leave(
                columns,
                document.attributes,
                document.vectors,
                WriteMode::FullDocument,
                left,
                words,
            )
        },
        OpView::Patch { attributes, vectors, .. } => both_leave(
            columns,
            attributes,
            vectors,
            WriteMode::Patch,
            left,
            words,
        ),
        OpView::Delete { .. } => false,
    }
}

/// The columns that a refused batch leaves, and what is said of it: the operations before
/// the refused one, and the parts of that one before the refused part, have done their
/// work.
pub open spec fn batch_leaves(
    columns: Columns,
    ops: Seq<OpView>,
    left: Columns,
    words: Seq<char>,
) -> bool
    decreases ops.len(),
{
    if ops.len() == 0 {
        false
    } else {
        match batch_outcome(columns, ops.drop_last()) {
            Outcome::Columns(c) => op_leaves(c, ops.last(), left, words),
            _ => batch_leaves(columns, ops.drop_last(), left, words),
        }
    }
}

/// What is said of a refused batch.
pub open spec fn batch_says(columns: Columns, ops: Seq<OpView>, words: Seq<char>) -> bool {
    exists|left: Columns| #[trigger] batch_leaves(columns, ops, left, words)
}

proof fn lemma_leaves(
    columns: Columns,
    ops: Seq<OpView>,
    n: int,
    left: Columns,
    words: Seq<char>,
)
    requires
        0 <= n <= ops.len(),
        !(batch_outcome(columns, ops.take(n)) is Columns),
        batch_leaves(columns, ops.take(n), left, words),
    ensures
        batch_leaves(columns, ops, left, words),
    decreases ops.len() - n,
{
    if n == ops.len() {
        assert(ops.take(n) =~= ops);
    } else {
        assert(ops.take(n + 1).drop_last() =~= ops.take(n));
        lemma_leaves(columns, ops, n + 1, left, words);
    }
}

proof fn lemma_refused(columns: Columns, ops: Seq<OpView>, n: int)
    requires
        0 <= n <= ops.len(),
        !(batch_outcome(columns, ops.take(n)) is Columns),
    ensures
        batch_outcome(columns, ops) == batch_outcome(columns, ops.take(n)),
    decreases ops.len() - n,
{
    if n == ops.len() {
        assert(ops.take(n) =~= ops);
    } else {
        assert(ops.take(n + 1).drop_last() =~= ops.take(n));
        lemma_refused(columns, ops, n + 1);
    }
}

/// The type of a scalar.
fn scalar_type_of(value: &Value) -> (r: Option<ScalarType>)
    ensures
        r == scalar_type(value@),
{
    match value {
        Value::Bool(_) => Some(ScalarType::Bool),
        Value::Int(_) => Some(ScalarType::Int),
        Value::Float(f) => if is_finite(*f) {
            Some(ScalarType::Float)
        } else {
            None
        },
        Value::String(_) => Some(ScalarType::String),
        Value::Null => None,
        Value::Array(_) => None,
    }
}

/// Whether every item is a scalar of that type.
fn all_of_type(value: &Value, items: &Vec<Value>, t: ScalarType) -> (b: bool)
    requires
        *value == Value::Array(*items),
    ensures
        b == items_have_type(value@->Array_0, t),
{
    let mut i: usize = 0;
    while i < items.len()
        invariant
            i <= items@.len(),
            *value == Value::Array(*items),
            forall|j: int| 0 <= j < i ==> scalar_type(#[trigger] value@->Array_0[j]) == Some(t),
        decreases items@.len() - i,
    {
        assert(value@->Array_0[i as int] == items@[i as int]@);
        match scalar_type_of(&items[i]) {
            Some(actual) => {
                if actual != t {
                    assert(scalar_type(value@->Array_0[i as int]) != Some(t));
                    return false;
                }
            },
            None => {
                assert(scalar_type(value@->Array_0[i as int]) != Some(t));
                return false;
            },
        }
        i = i + 1;
    }
    true
}

/// The type of the column that a value starts.
fn infer_attribute_type(value: &Value) -> (r: Option<ColumnType>)
    ensures
        r == inferred_type(value@),
{
    match value {
        Value::Array(items) => {
            if items.len() == 0 {
                return None;
            }
            assert(value@->Array_0[0] == items@[0]@);
            match scalar_type_of(&items[0]) {
                None => None,
                Some(t) => if all_of_type(value, items, t) {
                    Some(ColumnType::Array(t))
                } else {
                    None
                },
            }
        },
        _ => match scalar_type_of(value) {
            Some(t) => Some(ColumnType::Scalar(t)),
            None => None,
        },
    }
}

/// Whether a value belongs in a column of that type.
fn value_fits(value: &Value, expected: &ColumnType) -> (b: bool)
    ensures
        b == fits(value@, *expected),
{
    match expected {
        ColumnType::Scalar(s) => match infer_attribute_type(value) {
            Some(ColumnType::Scalar(t)) => t == *s,
            _ => false,
        },
        ColumnType::Array(s) => match value {
            Value::Array(items) => all_of_type(value, items, *s),
            _ => false,
        },
        ColumnType::Vector { .. } => false,
        ColumnType::FullText => false,
    }
}

/// The type of the column of a vector.
fn infer_vector_type(vector: &VectorValue) -> (r: Option<ColumnType>)
    ensures
        r == vector_type(vector@),
{
    let dim: usize = vector.dim();
    if dim == 0 {
        return None;
    }
    match vector {
        VectorValue::F32(values) => {
            let mut i: usize = 0;
            while i < values.len()
                invariant
                    i <= values@.len(),
                    vector@ == VectorView::F32(values@),
                    forall|j: int| 0 <= j < i ==> f32_is_finite(#[trigger] values@[j]),
                decreases values@.len() - i,
            {
                if values[i] % 0x8000_0000 >= 0x7f80_0000 {
                    assert(!f32_is_finite(values@[i as int]));
                    return None;
                }
                i = i + 1;
            }
            Some(
                ColumnType::Vector {
                    dim,
                    encoding: VectorEncoding::F32,
                    metric: DistanceMetric::Cosine,
                },
            )
        },
        VectorValue::F16(values) => {
            let mut i: usize = 0;
            while i < values.len()
                invariant
                    i <= values@.len(),
                    vector@ == VectorView::F16(values@),
                    forall|j: int| 0 <= j < i ==> f16_is_finite(#[trigger] values@[j]),
                decreases values@.len() - i,
            {
                if values[i] % 0x8000 >= 0x7c00 {
                    assert(!f16_is_finite(values@[i as int]));
                    return None;
                }
                i = i + 1;
            }
            Some(
                ColumnType::Vector {
                    dim,
                    encoding: VectorEncoding::F16,
                    metric: DistanceMetric::Cosine,
                },
            )
        },
    }
}

/// The name of a type of scalars.
pub open spec fn scalar_words(t: ScalarType) -> Seq<char> {
    match t {
        ScalarType::Bool => "Bool"@,
        ScalarType::Int => "Int"@,
        ScalarType::Float => "Float"@,
        ScalarType::String => "String"@,
    }
}

/// The type of a column, for people.
pub open spec fn type_words(t: ColumnType) -> Seq<char> {
    match t {
        ColumnType::Scalar(t) => "Scalar("@ + scalar_words(t) + ")"@,
        ColumnType::Array(t) => "Array("@ + scalar_words(t) + ")"@,
        ColumnType::Vector { dim, encoding, metric } => "Vector { dim: "@ + strings::decimal(
            dim as nat,
        ) + ", encoding: "@ + (match encoding {
            VectorEncoding::F32 => "F32"@,
            VectorEncoding::F16 => "F16"@,
        }) + ", metric: "@ + (match metric {
            DistanceMetric::L2 => "L2"@,
            DistanceMetric::Cosine => "Cosine"@,
            DistanceMetric::Dot => "Dot"@,
        }) + " }"@,
        ColumnType::FullText => "FullText"@,
    }
}

/// Why a column does not take a value of some type.
pub open spec fn type_complaint(
    name: Seq<char>,
    expected: Seq<char>,
    actual: Seq<char>,
) -> Seq<char> {
    "column '"@ + name + "' expected "@ + expected + ", got "@ + actual
}

/// Why the items of an array from the `i`-th on are not all of one type, or not of the
/// type that its column has for them. Those before have the type `first`.
pub open spec fn items_complaint(
    name: Seq<char>,
    items: Seq<ValueView>,
    expected: Option<ScalarType>,
    first: Option<ScalarType>,
    i: int,
) -> Seq<char>
    decreases items.len() - i,
{
    if i >= items.len() {
        "cannot infer element type for empty array attribute '"@ + name + "'"@
    } else {
        match scalar_type(items[i]) {
            None => "array attribute '"@ + name + (if items[i] is Float {
                "' contains a non-finite float"@
            } else {
                "' must contain only non-null scalar values"@
            }),
            Some(t) => if expected is Some && t != expected->Some_0 {
                type_complaint(
                    name,
                    "array of "@ + scalar_words(expected->Some_0),
                    "array of "@ + scalar_words(t),
                )
            } else if first is Some && t != first->Some_0 {
                "array attribute '"@ + name + "' mixes "@ + scalar_words(first->Some_0) + " and "@
                    + scalar_words(t)
            } else {
                items_complaint(name, items, expected, Some(t), i + 1)
            },
        }
    }
}

/// Why a value starts no column.
pub open spec fn untyped_complaint(name: Seq<char>, v: ValueView) -> Seq<char> {
    match v {
        ValueView::Float(_) => "attribute '"@ + name + "' contains a non-finite float"@,
        ValueView::Array(items) => items_complaint(name, items, None, None, 0),
        _ => "cannot infer type for null attribute '"@ + name + "'"@,
    }
}

/// What a column of that type takes.
pub open spec fn wanted_words(t: ColumnType) -> Seq<char> {
    match t {
        ColumnType::Scalar(t) => scalar_words(t),
        ColumnType::Array(t) => "array of "@ + scalar_words(t),
        _ => type_words(t),
    }
}

/// Why a value does not belong in a column of that type.
pub open spec fn value_complaint(name: Seq<char>, v: ValueView, expected: ColumnType) -> Seq<
    char,
> {
    match (expected, v) {
        (ColumnType::Array(want), ValueView::Array(items)) => items_complaint(
            name,
            items,
            Some(want),
            None,
            0,
        ),
        _ => match inferred_type(v) {
            None => untyped_complaint(name, v),
            Some(actual) => type_complaint(name, wanted_words(expected), type_words(actual)),
        },
    }
}

/// Why a write may not give that column that value.
pub open spec fn attribute_complaint(columns: Columns, name: Seq<char>, v: ValueView) -> Seq<
    char,
> {
    if name.len() == 0 {
        "column name cannot be empty"@
    } else if v is Null {
        "attribute '"@ + name + "' is null in a full document; omit it or patch null to clear"@
    } else if columns.dom().contains(name) {
        value_complaint(name, v, columns[name].column_type)
    } else {
        untyped_complaint(name, v)
    }
}

/// Why a vector has no type.
pub open spec fn untyped_vector_complaint(name: Seq<char>, v: VectorView) -> Seq<char> {
    let empty = match v {
        VectorView::F32(values) => values.len() == 0,
        VectorView::F16(values) => values.len() == 0,
    };
    "vector column '"@ + name + (if empty {
        "' cannot be empty"@
    } else if v is F32 {
        "' contains a non-finite f32"@
    } else {
        "' contains a non-finite f16"@
    })
}

/// Why a write may not give that column that vector.
pub open spec fn vector_complaint(columns: Columns, name: Seq<char>, v: VectorView) -> Seq<char> {
    if name.len() == 0 {
        "column name cannot be empty"@
    } else {
        match vector_type(v) {
            None => untyped_vector_complaint(name, v),
            Some(t) => type_complaint(name, type_words(columns[name].column_type), type_words(t)),
        }
    }
}

fn scalar_text(t: ScalarType) -> (s: &'static str)
    ensures
        s@ == scalar_words(t),
{
    match t {
        ScalarType::Bool => "Bool",
        ScalarType::Int => "Int",
        ScalarType::Float => "Float",
        ScalarType::String => "String",
    }
}

/// The type of a column, for people.
pub fn column_type_text(t: &ColumnType) -> (s: String)
    ensures
        s@ == type_words(*t),
{
    match t {
        ColumnType::Scalar(t) => say("Scalar(").and(scalar_text(*t)).and(")").done(),
        ColumnType::Array(t) => say("Array(").and(scalar_text(*t)).and(")").done(),
        ColumnType::Vector { dim, encoding, metric } => {
            let encoding = match encoding {
                VectorEncoding::F32 => "F32",
                VectorEncoding::F16 => "F16",
            };
            let metric = match metric {
                DistanceMetric::L2 => "L2",
                DistanceMetric::Cosine => "Cosine",
                DistanceMetric::Dot => "Dot",
            };
            say("Vector { dim: ").number(*dim as u64).and(", encoding: ").and(encoding).and(
                ", metric: ",
            ).and(metric).and(" }").done()
        },
        ColumnType::FullText => "FullText".to_owned(),
    }
}

fn refused(before: &str, name: &str, after: &str) -> (e: Error)
    ensures
        e is InvalidSchema,
        e->InvalidSchema_0@ == before@ + name@ + after@,
{
    Error::InvalidSchema(text3(before, name, after))
}

/// Why a column cannot take a value of some type.
fn refused_type(name: &str, expected: &str, actual: &str) -> (e: Error)
    ensures
        e is InvalidSchema,
        e->InvalidSchema_0@ == type_complaint(name@, expected@, actual@),
{
    Error::InvalidSchema(
        say("column '").and(name).and("' expected ").and(expected).and(", got ").and(
            actual,
        ).done(),
    )
}

/// Why the items of an array are not all of one type, or not of the type that its
/// column has for them.
fn refused_items(
    name: &str,
    value: &Value,
    items: &Vec<Value>,
    expected: Option<ScalarType>,
) -> (e: Error)
    requires
        *value == Value::Array(*items),
    ensures
        e is InvalidSchema,
        e->InvalidSchema_0@ == items_complaint(name@, value@->Array_0, expected, None, 0),
{
    let ghost view = value@->Array_0;
    let mut first: Option<ScalarType> = None;
    let mut i: usize = 0;
    while i < items.len()
        invariant
            i <= items@.len(),
            *value == Value::Array(*items),
            view == value@->Array_0,
            items_complaint(name@, view, expected, None, 0) == items_complaint(
                name@,
                view,
                expected,
                first,
                i as int,
            ),
        decreases items@.len() - i,
    {
        assert(view[i as int] == items@[i as int]@);
        let t = match scalar_type_of(&items[i]) {
            Some(t) => t,
            None => {
                return match &items[i] {
                    Value::Float(_) => refused(
                        "array attribute '",
                        name,
                        "' contains a non-finite float",
                    ),
                    _ => refused(
                        "array attribute '",
                        name,
                        "' must contain only non-null scalar values",
                    ),
                };
            },
        };
        if let Some(want) = expected {
            if t != want {
                let wanted = text2("array of ", scalar_text(want));
                let actual = text2("array of ", scalar_text(t));
                return refused_type(name, wanted.as_str(), actual.as_str());
            }
        }
        if let Some(before) = first {
            if before != t {
                return Error::InvalidSchema(
                    say("array attribute '").and(name).and("' mixes ").and(
                        scalar_text(before),
                    ).and(" and ").and(scalar_text(t)).done(),
                );
            }
        } else {
            first = Some(t);
        }
        i = i + 1;
    }
    refused("cannot infer element type for empty array attribute '", name, "'")
}

/// Why an attribute has no type.
fn refused_untyped(name: &str, value: &Value) -> (e: Error)
    ensures
        e is InvalidSchema,
        e->InvalidSchema_0@ == untyped_complaint(name@, value@),
{
    match value {
        Value::Float(_) => refused("attribute '", name, "' contains a non-finite float"),
        Value::Array(items) => refused_items(name, value, items, None),
        _ => refused("cannot infer type for null attribute '", name, "'"),
    }
}

/// Why a column does not take an attribute.
fn refused_value(name: &str, value: &Value, expected: &ColumnType) -> (e: Error)
    ensures
        e is InvalidSchema,
        e->InvalidSchema_0@ == value_complaint(name@, value@, *expected),
{
    if let ColumnType::Array(want) = expected {
        if let Value::Array(items) = value {
            return refused_items(name, value, items, Some(*want));
        }
    }
    match infer_attribute_type(value) {
        None => refused_untyped(name, value),
        Some(actual) => {
            let got = column_type_text(&actual);
            let wanted = match expected {
                ColumnType::Scalar(t) => scalar_text(*t).to_owned(),
                ColumnType::Array(t) => text2("array of ", scalar_text(*t)),
                _ => column_type_text(expected),
            };
            refused_type(name, wanted.as_str(), got.as_str())
        },
    }
}

/// Why a vector has no type.
fn refused_vector(name: &str, vector: &VectorValue) -> (e: Error)
    ensures
        e is InvalidSchema,
        e->InvalidSchema_0@ == untyped_vector_complaint(name@, vector@),
{
    match vector {
        VectorValue::F32(values) => if values.len() == 0 {
            refused("vector column '", name, "' cannot be empty")
        } else {
            refused("vector column '", name, "' contains a non-finite f32")
        },
        VectorValue::F16(values) => if values.len() == 0 {
            refused("vector column '", name, "' cannot be empty")
        } else {
            refused("vector column '", name, "' contains a non-finite f16")
        },
    }
}

/// The columns only grow.
pub open spec fn grows(before: Columns, after: Columns) -> bool {
    forall|name: Seq<char>|
        #![trigger after.dom().contains(name)]
        #![trigger before.dom().contains(name)]
        before.dom().contains(name) ==> after.dom().contains(name) && after[name] == before[name]
}

impl Default for Schema {
    fn default() -> (s: Schema)
        ensures
            s.wf(),
            s.columns.map() == Map::<Seq<char>, ColumnSpec>::empty(),
            s.version == 0,
    {
        Schema { columns: TextMap::new(), version: 0 }
    }
}

impl Schema {
    /// The columns are in name order.
    pub open spec fn wf(self) -> bool {
        self.columns.wf()
    }

    /// Gives an attribute its column.
    fn infer_and_validate_attribute(&mut self, name: &str, value: &Value, mode: WriteMode) -> (r:
        Result<bool, Error>)
        requires
            old(self).wf(),
        ensures
            final(self).wf(),
            final(self).version == old(self).version,
            ({
                let columns = old(self).columns.map();
                if attribute_fits(columns, name@, value@, mode) {
                    let fresh = !(value@ is Null) && !columns.dom().contains(name@);
                    &&& r == Ok::<bool, Error>(fresh)
                    &&& final(self).columns.map() == (if fresh {
                        columns.insert(name@, attribute_column(value@))
                    } else {
                        columns
                    })
                } else {
                    &&& r is Err
                    &&& r->Err_0 is InvalidSchema
                    &&& r->Err_0->InvalidSchema_0@ == attribute_complaint(columns, name@, value@)
                    &&& final(self).columns.map() == columns
                }
            }),
    {
        if name.is_empty() {
            return Err(invalid_schema("column name cannot be empty"));
        }
        if let Value::Null = value {
            return match mode {
                WriteMode::Patch => Ok(false),
                WriteMode::FullDocument => Err(
                    refused(
                        "attribute '",
                        name,
                        "' is null in a full document; omit it or patch null to clear",
                    ),
                ),
            };
        }
        let known: Option<ColumnType> = match self.columns.get(name) {
            Some(spec) => Some(spec.column_type),
            None => None,
        };
        match known {
            Some(expected) => if value_fits(value, &expected) {
                Ok(false)
            } else {
                Err(refused_value(name, value, &expected))
            },
            None => match infer_attribute_type(value) {
                None => Err(refused_untyped(name, value)),
                Some(column_type) => {
                    self.columns.insert(
                        name.to_owned(),
                        ColumnSpec { column_type, filterable: true, indexed: true },
                    );
                    Ok(true)
                },
            },
        }
    }

    /// Gives a vector its column.
    fn infer_and_validate_vector(&mut self, name: &str, vector: &VectorValue) -> (r: Result<
        bool,
        Error,
    >)
        requires
            old(self).wf(),
        ensures
            final(self).wf(),
            final(self).version == old(self).version,
            ({
                let columns = old(self).columns.map();
                if vector_fits(columns, name@, vector@) {
                    let fresh = !columns.dom().contains(name@);
                    &&& r == Ok::<bool, Error>(fresh)
                    &&& final(self).columns.map() == (if fresh {
                        columns.insert(name@, vector_column(vector@))
                    } else {
                        columns
                    })
                } else {
                    &&& r is Err
                    &&& r->Err_0 is InvalidSchema
                    &&& r->Err_0->InvalidSchema_0@ == vector_complaint(columns, name@, vector@)
                    &&& final(self).columns.map() == columns
                }
            }),
    {
        if name.is_empty() {
            return Err(invalid_schema("column name cannot be empty"));
        }
        let column_type = match infer_vector_type(vector) {
            Some(t) => t,
            None => {
                return Err(refused_vector(name, vector));
            },
        };
        let known: Option<ColumnType> = match self.columns.get(name) {
            Some(spec) => Some(spec.column_type),
            None => None,
        };
        match known {
            Some(expected) => if expected == column_type {
                Ok(false)
            } else {
                let wanted = column_type_text(&expected);
                let got = column_type_text(&column_type);
                Err(refused_type(name, wanted.as_str(), got.as_str()))
            },
            None => {
                self.columns.insert(
                    name.to_owned(),
                    ColumnSpec { column_type, filterable: false, indexed: true },
                );
                Ok(true)
            },
        }
    }

    /// Gives attributes their columns.
    fn infer_and_validate_attributes(&mut self, attributes: &TextMap<Value>, mode: WriteMode) -> (r:
        Result<bool, Error>)
        requires
            old(self).wf(),
            attributes.wf(),
        ensures
            final(self).wf(),
            final(self).version == old(self).version,
            grows(old(self).columns.map(), final(self).columns.map()),
            match with_attributes(old(self).columns.map(), value::attributes_view(*attributes), mode) {
                Some(c) => r == Ok::<bool, Error>(c != old(self).columns.map())
                    && final(self).columns.map() == c,
                None => r is Err && r->Err_0 is InvalidSchema && attributes_leave(
                    old(self).columns.map(),
                    value::attributes_view(*attributes),
                    mode,
                    final(self).columns.map(),
                    r->Err_0->InvalidSchema_0@,
                ),
            },
    {
        let ghost start = self.columns.map();
        let ghost view = value::attributes_view(*attributes);
        let mut changed = false;
        let mut i: usize = 0;
        assert(added(start, attribute_columns(first_keys(view, attributes.keys(), 0))) =~= start);
        while i < attributes.len()
            invariant
                i <= attributes.keys().len(),
                attributes.wf(),
                self.wf(),
                self.version == old(self).version,
                start == old(self).columns.map(),
                view == value::attributes_view(*attributes),
                self.columns.map() == added(
                    start,
                    attribute_columns(first_keys(view, attributes.keys(), i as int)),
                ),
                changed == (self.columns.map() != start),
                grows(start, self.columns.map()),
                forall|j: int|
                    0 <= j < i ==> attribute_fits(
                        start,
                        #[trigger] attributes.keys()[j],
                        view[attributes.keys()[j]],
                        mode,
                    ),
            decreases attributes.keys().len() - i,
        {
            let ghost before = self.columns.map();
            let name = attributes.key_at(i);
            let value = attributes.value_at(i);
            proof {
                attributes.lemma_position(i as int);
                lemma_not_first(attributes.keys(), i as int);
                assert(view.dom().contains(name@) && view[name@] == value@);
                assert(before.dom().contains(name@) == start.dom().contains(name@));
            }
            match self.infer_and_validate_attribute(name.as_str(), value, mode) {
                Err(e) => {
                    proof {
                        assert(!attribute_fits(start, name@, view[name@], mode));
                        lemma_first_before(view, attributes.keys(), i as int);
                        assert forall|k: Seq<char>| #[trigger]
                            names_before(view, name@).dom().contains(k) implies attribute_fits(
                            start,
                            k,
                            view[k],
                            mode,
                        ) by {
                            let j = attributes.keys().take(i as int).index_of(k);
                            assert(attributes.keys()[j] == k);
                        }
                        assert(is_first_refused_attribute(start, view, mode, name@));
                    }
                    return Err(e);
                },
                Ok(fresh) => {
                    proof {
                        let now = added(
                            start,
                            attribute_columns(first_keys(view, attributes.keys(), i + 1)),
                        );
                        lemma_first_next(view, attributes.keys(), i as int);
                        assert(self.columns.map() =~= now);
                        if fresh {
                            assert(now.dom().contains(name@));
                            assert(now != start);
                        }
                    }
                    changed = changed || fresh;
                },
            }
            i = i + 1;
        }
        proof {
            lemma_first_all(view, attributes.keys());
            assert forall|name: Seq<char>| view.dom().contains(name) implies attribute_fits(
                start,
                name,
                #[trigger] view[name],
                mode,
            ) by {
                let j = attributes.keys().index_of(name);
                assert(attributes.keys()[j] == name);
            }
        }
        Ok(changed)
    }

    /// Gives vectors their columns.
    fn infer_and_validate_vectors(&mut self, vectors: &TextMap<VectorValue>) -> (r: Result<
        bool,
        Error,
    >)
        requires
            old(self).wf(),
            vectors.wf(),
        ensures
            final(self).wf(),
            final(self).version == old(self).version,
            grows(old(self).columns.map(), final(self).columns.map()),
            match with_vectors(old(self).columns.map(), value::vectors_view(*vectors)) {
                Some(c) => r == Ok::<bool, Error>(c != old(self).columns.map())
                    && final(self).columns.map() == c,
                None => r is Err && r->Err_0 is InvalidSchema && vectors_leave(
                    old(self).columns.map(),
                    value::vectors_view(*vectors),
                    final(self).columns.map(),
                    r->Err_0->InvalidSchema_0@,
                ),
            },
    {
        let ghost start = self.columns.map();
        let ghost view = value::vectors_view(*vectors);
        let mut changed = false;
        let mut i: usize = 0;
        assert(added(start, vector_columns(first_keys(view, vectors.keys(), 0))) =~= start);
        while i < vectors.len()
            invariant
                i <= vectors.keys().len(),
                vectors.wf(),
                self.wf(),
                self.version == old(self).version,
                start == old(self).columns.map(),
                view == value::vectors_view(*vectors),
                self.columns.map() == added(
                    start,
                    vector_columns(first_keys(view, vectors.keys(), i as int)),
                ),
                changed == (self.columns.map() != start),
                grows(start, self.columns.map()),
                forall|j: int|
                    0 <= j < i ==> vector_fits(
                        start,
                        #[trigger] vectors.keys()[j],
                        view[vectors.keys()[j]],
                    ),
            decreases vectors.keys().len() - i,
        {
            let ghost before = self.columns.map();
            let name = vectors.key_at(i);
            let vector = vectors.value_at(i);
            proof {
                vectors.lemma_position(i as int);
                lemma_not_first(vectors.keys(), i as int);
                assert(view.dom().contains(name@) && view[name@] == vector@);
                assert(before.dom().contains(name@) == start.dom().contains(name@));
            }
            match self.infer_and_validate_vector(name.as_str(), vector) {
                Err(e) => {
                    proof {
                        assert(!vector_fits(start, name@, view[name@]));
                        lemma_first_before(view, vectors.keys(), i as int);
                        assert forall|k: Seq<char>| #[trigger]
                            names_before(view, name@).dom().contains(k) implies vector_fits(
                            start,
                            k,
                            view[k],
                        ) by {
                            let j = vectors.keys().take(i as int).index_of(k);
                            assert(vectors.keys()[j] == k);
                        }
                        assert(is_first_refused_vector(start, view, name@));
                    }
                    return Err(e);
                },
                Ok(fresh) => {
                    proof {
                        let now = added(
                            start,
                            vector_columns(first_keys(view, vectors.keys(), i + 1)),
                        );
                        lemma_first_next(view, vectors.keys(), i as int);
                        assert(self.columns.map() =~= now);
                        if fresh {
                            assert(now.dom().contains(name@));
                            assert(now != start);
                        }
                    }
                    changed = changed || fresh;
                },
            }
            i = i + 1;
        }
        proof {
            lemma_first_all(view, vectors.keys());
            assert forall|name: Seq<char>| view.dom().contains(name) implies vector_fits(
                start,
                name,
                #[trigger] view[name],
            ) by {
                let j = vectors.keys().index_of(name);
                assert(vectors.keys()[j] == name);
            }
        }
        Ok(changed)
    }

    /// Gives attributes and then vectors their columns.
    fn infer_and_validate_both(
        &mut self,
        attributes: &TextMap<Value>,
        vectors: &TextMap<VectorValue>,
        mode: WriteMode,
    ) -> (r: Result<bool, Error>)
        requires
            old(self).wf(),
            attributes.wf(),
            vectors.wf(),
        ensures
            final(self).wf(),
            final(self).version == old(self).version,
            grows(old(self).columns.map(), final(self).columns.map()),
            match with_both(
                old(self).columns.map(),
                value::attributes_view(*attributes),
                value::vectors_view(*vectors),
                mode,
            ) {
                Some(c) => r == Ok::<bool, Error>(c != old(self).columns.map())
                    && final(self).columns.map() == c,
                None => r is Err && r->Err_0 is InvalidSchema && both_leave(
                    old(self).columns.map(),
                    value::attributes_view(*attributes),
                    value::vectors_view(*vectors),
                    mode,
                    final(self).columns.map(),
                    r->Err_0->InvalidSchema_0@,
                ),
            },
    {
        let first = match self.infer_and_validate_attributes(attributes, mode) {
            Ok(changed) => changed,
            Err(e) => {
                return Err(e);
            },
        };
        let ghost middle = self.columns.map();
        let second = match self.infer_and_validate_vectors(vectors) {
            Ok(changed) => changed,
            Err(e) => {
                proof {
                    lemma_grown(old(self).columns.map(), middle, self.columns.map());
                }
                return Err(e);
            },
        };
        proof {
            lemma_grown(old(self).columns.map(), middle, self.columns.map());
        }
        Ok(first || second)
    }

    /// Adds the columns that a batch of operations starts, and checks every value
    /// against the columns there are. Once a column has a type it keeps it. The
    /// version goes up by one if the batch added a column.
    pub fn infer_and_validate_ops(&mut self, ops: &[WalOp]) -> (r: Result<bool, Error>)
        requires
            old(self).wf(),
            wal::ops_wf(ops@),
        ensures
            final(self).wf(),
            grows(old(self).columns.map(), final(self).columns.map()),
            match batch_outcome(old(self).columns.map(), wal::ops_view(ops@)) {
                Outcome::Columns(c) => {
                    let changed = c != old(self).columns.map();
                    &&& final(self).columns.map() == c
                    &&& if changed && old(self).version == u64::MAX {
                        &&& r is Err
                        &&& r->Err_0 is InvalidSchema
                        &&& r->Err_0->InvalidSchema_0@ == "schema version overflow"@
                        &&& final(self).version == u64::MAX
                    } else {
                        r == Ok::<bool, Error>(changed) && final(self).version == old(self).version
                            + (if changed {
                            1int
                        } else {
                            0
                        })
                    }
                },
                Outcome::Misplaced => r is Err && r->Err_0 is InvalidWrite && final(self).version
                    == old(self).version && batch_leaves(
                    old(self).columns.map(),
                    wal::ops_view(ops@),
                    final(self).columns.map(),
                    r->Err_0->InvalidWrite_0@,
                ),
                Outcome::Rejected => r is Err && r->Err_0 is InvalidSchema && final(self).version
                    == old(self).version && batch_leaves(
                    old(self).columns.map(),
                    wal::ops_view(ops@),
                    final(self).columns.map(),
                    r->Err_0->InvalidSchema_0@,
                ),
            },
    {
        let ghost start = self.columns.map();
        let ghost all = wal::ops_view(ops@);
        let mut changed = false;
        let mut i: usize = 0;
        assert(all.take(0) =~= Seq::empty());
        while i < ops.len()
            invariant
                i <= ops@.len(),
                wal::ops_wf(ops@),
                all == wal::ops_view(ops@),
                self.wf(),
                start == old(self).columns.map(),
                self.version == old(self).version,
                grows(start, self.columns.map()),
                changed == (self.columns.map() != start),
                batch_outcome(start, all.take(i as int)) == Outcome::Columns(self.columns.map()),
            decreases ops@.len() - i,
        {
            let ghost before = self.columns.map();
            proof {
                assert(all.take(i + 1).drop_last() =~= all.take(i as int));
                assert(all.take(i + 1).last() == ops@[i as int]@);
                assert(ops@[i as int].wf());
            }
            let step: Result<bool, Error> = match &ops[i] {
                WalOp::Upsert { id, document } => {
                    if !same_id(&document.id, id) {
                        proof {
                            lemma_refused(start, all, i + 1);
                            lemma_leaves(
                                start,
                                all,
                                i + 1,
                                self.columns.map(),
                                "upsert id does not match document id"@,
                            );
                        }
                        return Err(invalid_write("upsert id does not match document id"));
                    }
                    self.infer_and_validate_both(
                        &document.attributes,
                        &document.vectors,
                        WriteMode::FullDocument,
                    )
                },
                WalOp::Patch { attributes, vectors, .. } => self.infer_and_validate_both(
                    attributes,
                    vectors,
                    WriteMode::Patch,
                ),
                WalOp::Delete { .. } => Ok(false),
            };
            match step {
                Ok(fresh) => {
                    proof {
                        lemma_grown(start, before, self.columns.map());
                    }
                    changed = changed || fresh;
                },
                Err(e) => {
                    proof {
                        lemma_grown(start, before, self.columns.map());
                        lemma_refused(start, all, i + 1);
                        lemma_leaves(
                            start,
                            all,
                            i + 1,
                            self.columns.map(),
                            e->InvalidSchema_0@,
                        );
                    }
                    return Err(e);
                },
            }
            i = i + 1;
        }
        assert(all.take(i as int) =~= all);
        if changed {
            match self.version.checked_add(1) {
                Some(version) => {
                    self.version = version;
                },
                None => {
                    return Err(invalid_schema("schema version overflow"));
                },
            }
        }
        Ok(changed)
    }
}

/// A map restricted to the first `n` of its keys.
spec fn first_keys<V>(m: Map<Seq<char>, V>, keys: Seq<Seq<char>>, n: int) -> Map<Seq<char>, V> {
    m.restrict(keys.take(n).to_set())
}

proof fn lemma_not_first(keys: Seq<Seq<char>>, i: int)
    requires
        crate::textmap::texts_sorted(keys),
        0 <= i < keys.len(),
    ensures
        !keys.take(i).to_set().contains(keys[i]),
{
    if keys.take(i).contains(keys[i]) {
        let j = keys.take(i).index_of(keys[i]);
        assert(keys[j] == keys[i]);
        crate::textmap::lemma_text_total(keys[j], keys[i]);
    }
}

proof fn lemma_first_next<V>(m: Map<Seq<char>, V>, keys: Seq<Seq<char>>, i: int)
    requires
        0 <= i < keys.len(),
        m.dom().contains(keys[i]),
    ensures
        first_keys(m, keys, i + 1) == first_keys(m, keys, i).insert(keys[i], m[keys[i]]),
{
    let a = keys.take(i + 1);
    let b = keys.take(i);
    assert(a =~= b.push(keys[i]));
    assert forall|k: Seq<char>| a.to_set().contains(k) <==> b.to_set().contains(k) || k
        == keys[i] by {
        if a.contains(k) && k != keys[i] {
            assert(b[a.index_of(k)] == k);
        }
        if b.contains(k) {
            assert(a[b.index_of(k)] == k);
        }
        if k == keys[i] {
            assert(a[i] == k);
        }
    }
    assert(first_keys(m, keys, i + 1) =~= first_keys(m, keys, i).insert(keys[i], m[keys[i]]));
}

proof fn lemma_first_before<V>(m: Map<Seq<char>, V>, keys: Seq<Seq<char>>, i: int)
    requires
        crate::textmap::texts_sorted(keys),
        0 <= i < keys.len(),
        forall|k: Seq<char>| m.dom().contains(k) <==> #[trigger] keys.contains(k),
    ensures
        first_keys(m, keys, i) == names_before(m, keys[i]),
        forall|k: Seq<char>| #[trigger]
            names_before(m, keys[i]).dom().contains(k) ==> keys.take(i).contains(k),
{
    let front = keys.take(i);
    assert forall|k: Seq<char>| m.dom().contains(k) implies front.contains(k) == (k != keys[i]
        && strings::text_lt(k, keys[i])) by {
        assert(keys.contains(k));
        let j = keys.index_of(k);
        crate::textmap::lemma_text_total(k, keys[i]);
        if j < i {
            assert(front[j] == k);
            assert(strings::text_lt(keys[j], keys[i]));
        } else if j > i {
            assert(strings::text_lt(keys[i], keys[j]));
        }
        if front.contains(k) {
            let l = front.index_of(k);
            assert(keys[l] == k);
            assert(strings::text_lt(keys[l], keys[i]));
        }
    }
    assert(first_keys(m, keys, i) =~= names_before(m, keys[i]));
}

proof fn lemma_first_all<V>(m: Map<Seq<char>, V>, keys: Seq<Seq<char>>)
    requires
        forall|k: Seq<char>| m.dom().contains(k) ==> #[trigger] keys.contains(k),
    ensures
        first_keys(m, keys, keys.len() as int) == m,
{
    assert(keys.take(keys.len() as int) =~= keys);
    assert forall|k: Seq<char>| m.dom().contains(k) implies keys.to_set().contains(k) by {
        assert(keys.contains(k));
    }
    assert(first_keys(m, keys, keys.len() as int) =~= m);
}

/// Where columns grow in two steps, they have changed if they have in either.
proof fn lemma_grown(a: Columns, b: Columns, c: Columns)
    requires
        grows(a, b),
        grows(b, c),
    ensures
        grows(a, c),
        (c != a) <==> (b != a || c != b),
{
    assert forall|k: Seq<char>| a.dom().contains(k) implies c.dom().contains(k) && c[k]
        == a[k] by {
        assert(b.dom().contains(k) && b[k] == a[k]);
    }
    if c == a {
        assert(b =~= a);
    }
}

/// A column keeps its type through every batch.
pub proof fn law_columns_keep_their_types(columns: Columns, ops: Seq<OpView>)
    requires
        batch_outcome(columns, ops) is Columns,
    ensures
        grows(columns, batch_outcome(columns, ops)->Columns_0),
    decreases ops.len(),
{
    if ops.len() > 0 {
        law_columns_keep_their_types(columns, ops.drop_last());
        let middle = batch_outcome(columns, ops.drop_last())->Columns_0;
        lemma_grown(columns, middle, batch_outcome(columns, ops)->Columns_0);
    }
}

/// A write that was accepted adds nothing to columns that hold what it added.
proof fn lemma_write_settles(
    columns: Columns,
    attributes: Map<Seq<char>, ValueView>,
    vectors: Map<Seq<char>, VectorView>,
    mode: WriteMode,
    c: Columns,
)
    requires
        with_both(columns, attributes, vectors, mode) is Some,
        grows(with_both(columns, attributes, vectors, mode)->Some_0, c),
    ensures
        with_both(c, attributes, vectors, mode) == Some(c),
{
    let a = with_attributes(columns, attributes, mode)->Some_0;
    let b = with_both(columns, attributes, vectors, mode)->Some_0;
    assert forall|name: Seq<char>| a.dom().contains(name) implies c.dom().contains(name) && c[name]
        == a[name] by {
        assert(b.dom().contains(name) && b[name] == a[name]);
    }
    assert forall|name: Seq<char>| attributes.dom().contains(name) implies attribute_fits(
        c,
        name,
        #[trigger] attributes[name],
        mode,
    ) by {
        assert(attribute_fits(columns, name, attributes[name], mode));
        let v = attributes[name];
        if !(v is Null) {
            assert(a.dom().contains(name));
            if !columns.dom().contains(name) {
                assert(c[name] == attribute_column(v));
            }
        }
    }
    assert(added(c, attribute_columns(attributes)) =~= c) by {
        assert forall|name: Seq<char>| attribute_columns(attributes).dom().contains(
            name,
        ) implies c.dom().contains(name) by {
            assert(a.dom().contains(name));
        }
    }
    assert forall|name: Seq<char>| vectors.dom().contains(name) implies vector_fits(
        c,
        name,
        #[trigger] vectors[name],
    ) by {
        assert(vector_fits(a, name, vectors[name]));
        assert(b.dom().contains(name));
    }
    assert(added(c, vector_columns(vectors)) =~= c) by {
        assert forall|name: Seq<char>| vector_columns(vectors).dom().contains(name) implies c.dom()
            .contains(name) by {
            assert(b.dom().contains(name));
        }
    }
}

proof fn lemma_batch_settles(columns: Columns, ops: Seq<OpView>, c: Columns)
    requires
        batch_outcome(columns, ops) is Columns,
        grows(batch_outcome(columns, ops)->Columns_0, c),
    ensures
        batch_outcome(c, ops) == Outcome::Columns(c),
    decreases ops.len(),
{
    if ops.len() > 0 {
        let middle = batch_outcome(columns, ops.drop_last())->Columns_0;
        let b = batch_outcome(columns, ops)->Columns_0;
        lemma_grown(middle, b, c);
        lemma_batch_settles(columns, ops.drop_last(), c);
        match ops.last() {
            OpView::Upsert { id, document } => {
                lemma_write_settles(
                    middle,
                    document.attributes,
                    document.vectors,
                    WriteMode::FullDocument,
                    c,
                );
            },
            OpView::Patch { id, attributes, vectors } => {
                lemma_write_settles(middle, attributes, vectors, WriteMode::Patch, c);
            },
            OpView::Delete { .. } => {},
        }
    }
}

/// A batch that was accepted is accepted again, and then adds no column.
pub proof fn law_accepted_writes_fit(columns: Columns, ops: Seq<OpView>)
    requires
        batch_outcome(columns, ops) is Columns,
    ensures
        batch_outcome(batch_outcome(columns, ops)->Columns_0, ops) == batch_outcome(columns, ops),
{
    lemma_batch_settles(columns, ops, batch_outcome(columns, ops)->Columns_0);
}

/// A refused operation that writes one attribute and no vector leaves the columns as
/// they were. So a refused null adds no column, and a refused value changes none.
pub proof fn law_refused_value_changes_nothing(
    columns: Columns,
    op: OpView,
    name: Seq<char>,
    v: ValueView,
    left: Columns,
    words: Seq<char>,
)
    requires
        match op {
            OpView::Upsert { document, .. } => document.attributes == map![name => v]
                && document.vectors == Map::<Seq<char>, VectorView>::empty(),
            OpView::Patch { attributes, vectors, .. } => attributes == map![name => v] && vectors
                == Map::<Seq<char>, VectorView>::empty(),
            OpView::Delete { .. } => false,
        },
        op_leaves(columns, op, left, words),
    ensures
        left == columns,
{
    let attributes = map![name => v];
    assert(added(columns, attribute_columns(names_before(attributes, name))) =~= columns);
}

/// The column that a value starts has the type of the value: of a truth, of an integer, of
/// a finite float, of a text, or of an array of one of these. A null, a float that is not
/// finite, an empty array and one of several kinds start none.
pub proof fn law_columns_have_the_type_of_their_values(
    name: Seq<char>,
    b: bool,
    i: i64,
    f: u64,
    s: Seq<char>,
    items: Seq<ValueView>,
    mode: WriteMode,
)
    requires
        name.len() > 0,
    ensures
        ({
            let none = Map::<Seq<char>, ColumnSpec>::empty();
            let column = |v: ValueView|
                with_attributes(none, map![name => v], WriteMode::FullDocument)->Some_0[name].column_type;
            let fits = |v: ValueView| attribute_fits(none, name, v, WriteMode::FullDocument);
            &&& fits(ValueView::Bool(b)) && column(ValueView::Bool(b)) == ColumnType::Scalar(
                ScalarType::Bool,
            )
            &&& fits(ValueView::Int(i)) && column(ValueView::Int(i)) == ColumnType::Scalar(
                ScalarType::Int,
            )
            &&& fits(ValueView::String(s)) && column(ValueView::String(s)) == ColumnType::Scalar(
                ScalarType::String,
            )
            &&& fits(ValueView::Float(f)) == value::float_is_finite(f)
            &&& value::float_is_finite(f) ==> column(ValueView::Float(f)) == ColumnType::Scalar(
                ScalarType::Float,
            )
            &&& !fits(ValueView::Null)
            &&& !fits(ValueView::Array(Seq::empty()))
            &&& items.len() > 0 && (forall|k: int| 0 <= k < items.len() ==> (#[trigger] items[k]) is Int)
                ==> fits(ValueView::Array(items)) && column(ValueView::Array(items))
                == ColumnType::Array(ScalarType::Int)
            &&& (exists|k: int, l: int|
                0 <= k < items.len() && 0 <= l < items.len() && (#[trigger] items[k]) is Int && (
                #[trigger] items[l]) is String) ==> !fits(ValueView::Array(items))
        }),
{
    let none = Map::<Seq<char>, ColumnSpec>::empty();
    let all = |v: ValueView| map![name => v];
    assert forall|v: ValueView|
        !(v is Null) && #[trigger] attribute_fits(none, name, v, WriteMode::FullDocument) implies
        with_attributes(none, map![name => v], WriteMode::FullDocument) is Some && with_attributes(
        none,
        map![name => v],
        WriteMode::FullDocument,
    )->Some_0[name].column_type == inferred_type(v)->Some_0 by {
        let m = map![name => v];
        assert(m.dom().contains(name) && m[name] == v);
        assert(attribute_columns(m).dom().contains(name));
    }
    if items.len() > 0 && forall|k: int| 0 <= k < items.len() ==> (#[trigger] items[k]) is Int {
        assert(items[0] is Int);
        assert(items_have_type(items, ScalarType::Int));
        assert(attribute_fits(none, name, ValueView::Array(items), WriteMode::FullDocument));
    }
    if exists|k: int, l: int|
        0 <= k < items.len() && 0 <= l < items.len() && (#[trigger] items[k]) is Int && (
        #[trigger] items[l]) is String {
        let (k, l) = choose|k: int, l: int|
            0 <= k < items.len() && 0 <= l < items.len() && (#[trigger] items[k]) is Int && (
            #[trigger] items[l]) is String;
        assert(scalar_type(items[k]) == Some(ScalarType::Int));
        assert(scalar_type(items[l]) == Some(ScalarType::String));
    }
    assert(attribute_fits(none, name, ValueView::Bool(b), WriteMode::FullDocument));
    assert(attribute_fits(none, name, ValueView::Int(i), WriteMode::FullDocument));
    assert(attribute_fits(none, name, ValueView::String(s), WriteMode::FullDocument));
    if value::float_is_finite(f) {
        assert(attribute_fits(none, name, ValueView::Float(f), WriteMode::FullDocument));
    }
}

/// A column takes what is of its own type and nothing else: one of integers no text and
/// no float, one of text no integer, one of arrays no single value, and one of vectors no
/// attribute. A null goes through in a patch alone, whatever the column.
pub proof fn law_columns_take_their_own_type(
    columns: Columns,
    name: Seq<char>,
    i: i64,
    f: u64,
    s: Seq<char>,
    mode: WriteMode,
)
    requires
        name.len() > 0,
        columns.dom().contains(name),
    ensures
        ({
            let t = columns[name].column_type;
            &&& attribute_fits(columns, name, ValueView::Int(i), mode) <==> t == ColumnType::Scalar(
                ScalarType::Int,
            )
            &&& attribute_fits(columns, name, ValueView::String(s), mode) <==> t
                == ColumnType::Scalar(ScalarType::String)
            &&& attribute_fits(columns, name, ValueView::Float(f), mode) <==> t
                == ColumnType::Scalar(ScalarType::Float) && value::float_is_finite(f)
            &&& attribute_fits(columns, name, ValueView::Null, mode) <==> mode == WriteMode::Patch
            &&& attribute_fits(columns, name, ValueView::Array(seq![ValueView::Int(i)]), mode)
                <==> t == ColumnType::Array(ScalarType::Int)
            &&& attribute_fits(columns, name, ValueView::Array(Seq::empty()), mode) <==> t is Array
        }),
{
    let one = seq![ValueView::Int(i)];
    assert(one[0] == ValueView::Int(i));
    assert(scalar_type(one[0]) == Some(ScalarType::Int));
    assert(items_have_type(one, ScalarType::Int));
}

/// A vector column takes vectors of its own dimension and encoding alone; the first vector
/// sets both. An empty vector, and one with a component that is no number, has no place.
pub proof fn law_vectors_keep_their_dimension(
    columns: Columns,
    name: Seq<char>,
    v: Seq<u32>,
    w: Seq<u32>,
    h: Seq<u16>,
)
    requires
        name.len() > 0,
        !columns.dom().contains(name),
        0 < v.len() <= usize::MAX,
        forall|i: int| 0 <= i < v.len() ==> f32_is_finite(#[trigger] v[i]),
    ensures
        vector_fits(columns, name, VectorView::F32(v)),
        ({
            let now = columns.insert(name, vector_column(VectorView::F32(v)));
            &&& vector_fits(now, name, VectorView::F32(v))
            &&& vector_fits(now, name, VectorView::F32(w)) ==> w.len() == v.len()
            &&& w.len() == v.len() && (forall|i: int|
                0 <= i < w.len() ==> f32_is_finite(#[trigger] w[i])) ==> vector_fits(
                now,
                name,
                VectorView::F32(w),
            )
            &&& !vector_fits(now, name, VectorView::F16(h))
        }),
        vector_fits(columns, name, VectorView::F32(w)) ==> w.len() > 0 && forall|i: int|
            0 <= i < w.len() ==> f32_is_finite(#[trigger] w[i]),
{
}

/// Columns that a write starts are all indexed; those of attributes can be filtered by, and
/// those of vectors cannot, and are compared by their angle until told otherwise.
pub proof fn law_new_columns_are_indexed(v: ValueView, w: VectorView)
    requires
        inferred_type(v) is Some,
        vector_type(w) is Some,
    ensures
        attribute_column(v).indexed,
        vector_column(w).indexed,
        attribute_column(v).filterable,
        !vector_column(w).filterable,
        vector_column(w).column_type matches ColumnType::Vector { dim, metric, .. } && dim
            == value::vector_dim(w) && metric == DistanceMetric::Cosine,
        !(attribute_column(v).column_type is Vector),
{
}

} // verus!
