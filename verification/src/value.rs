//! Document keys, attribute values, vectors and documents.

use vstd::prelude::*;
use vstd::string::*;
use vstd::utf8::*;

use crate::strings;
use crate::order;
use crate::order::{compare_bytes, same_bytes, Order};
use crate::codec::slice_of;
use crate::phrase;
use crate::phrase::say;
use crate::strings::{chars_of, compare_text, hex, push_decimal, same_text};
use crate::textmap;
use crate::textmap::TextMap;

verus! {

/// A document key: a number, a universally unique identifier, or text.
#[derive(Clone, Debug, PartialEq, Eq)]
pub enum Id {
    U64(u64),
    Uuid([u8; 16]),
    String(String),
}

/// What a document key stands for.
pub enum IdView {
    U64(u64),
    Uuid(Seq<u8>),
    String(Seq<char>),
}

/// Numbers, separated by commas.
pub open spec fn byte_words(bytes: Seq<u8>) -> Seq<char>
    decreases bytes.len(),
{
    if bytes.len() == 0 {
        Seq::empty()
    } else if bytes.len() == 1 {
        strings::decimal(bytes[0] as nat)
    } else {
        byte_words(bytes.drop_last()) + ", "@ + strings::decimal(bytes.last() as nat)
    }
}

/// A key, for people.
pub open spec fn id_words(id: IdView) -> Seq<char> {
    match id {
        IdView::U64(n) => "U64("@ + strings::decimal(n as nat) + ")"@,
        IdView::Uuid(bytes) => "Uuid(["@ + byte_words(bytes) + "])"@,
        IdView::String(s) => "String("@ + phrase::quoted(s) + ")"@,
    }
}

fn byte_text(bytes: &[u8]) -> (s: String)
    ensures
        s@ == byte_words(bytes@),
{
    let mut s = String::new();
    let mut i: usize = 0;
    assert(bytes@.take(0) =~= Seq::empty());
    assert(s@ =~= byte_words(bytes@.take(0)));
    while i < bytes.len()
        invariant
            i <= bytes@.len(),
            s@ == byte_words(bytes@.take(i as int)),
        decreases bytes@.len() - i,
    {
        let ghost before = s@;
        if i > 0 {
            s.append(", ");
        }
        push_decimal(&mut s, bytes[i] as u64);
        proof {
            let next = bytes@.take(i + 1);
            assert(next.drop_last() =~= bytes@.take(i as int));
            assert(next.last() == bytes@[i as int]);
            if i == 0 {
                assert(before =~= Seq::empty());
                assert(s@ =~= strings::decimal(bytes@[0] as nat));
            }
        }
        i = i + 1;
    }
    assert(bytes@.take(i as int) =~= bytes@);
    s
}

/// A key, for people.
pub fn id_text(id: &Id) -> (s: String)
    ensures
        s@ == id_words(id@),
{
    match id {
        Id::U64(n) => say("U64(").number(*n).and(")").done(),
        Id::Uuid(bytes) => {
            let list = byte_text(bytes.as_slice());
            say("Uuid([").and(list.as_str()).and("])").done()
        },
        Id::String(s) => say("String(").quote(s.as_str()).and(")").done(),
    }
}

impl View for Id {
    type V = IdView;

    open spec fn view(&self) -> IdView {
        match self {
            Id::U64(v) => IdView::U64(*v),
            Id::Uuid(u) => IdView::Uuid(u@),
            Id::String(s) => IdView::String(s@),
        }
    }
}

/// Numbers come before identifiers, and those before text; within one kind keys
/// go by their number, their bytes, or the bytes of their text.
pub open spec fn id_order(a: IdView, b: IdView) -> Order {
    match (a, b) {
        (IdView::U64(x), IdView::U64(y)) => if x < y {
            Order::Less
        } else if x == y {
            Order::Equal
        } else {
            Order::Greater
        },
        (IdView::U64(_), _) => Order::Less,
        (_, IdView::U64(_)) => Order::Greater,
        (IdView::Uuid(x), IdView::Uuid(y)) => order::lex_order(x, y),
        (IdView::Uuid(_), IdView::String(_)) => Order::Less,
        (IdView::String(_), IdView::Uuid(_)) => Order::Greater,
        (IdView::String(x), IdView::String(y)) => strings::text_order(x, y),
    }
}

/// Only equal keys compare equal, and two keys compare the same either way.
pub proof fn lemma_ids_total(a: IdView, b: IdView)
    ensures
        id_order(a, b) == Order::Equal <==> a == b,
        id_order(a, b) == Order::Less <==> id_order(b, a) == Order::Greater,
{
    match (a, b) {
        (IdView::Uuid(x), IdView::Uuid(y)) => {
            order::lemma_lex_total(x, y);
        },
        (IdView::String(x), IdView::String(y)) => {
            textmap::lemma_text_total(x, y);
        },
        _ => {},
    }
}

/// The order of two keys.
pub fn compare_ids(a: &Id, b: &Id) -> (o: Order)
    ensures
        o == id_order(a@, b@),
{
    match a {
        Id::U64(x) => match b {
            Id::U64(y) => if *x < *y {
                Order::Less
            } else if *x == *y {
                Order::Equal
            } else {
                Order::Greater
            },
            _ => Order::Less,
        },
        Id::Uuid(x) => match b {
            Id::U64(_) => Order::Greater,
            Id::Uuid(y) => compare_bytes(x.as_slice(), y.as_slice()),
            Id::String(_) => Order::Less,
        },
        Id::String(x) => match b {
            Id::String(y) => compare_text(x.as_str(), y.as_str()),
            _ => Order::Greater,
        },
    }
}

/// Whether two keys are the same.
pub fn same_id(a: &Id, b: &Id) -> (same: bool)
    ensures
        same == (a@ == b@),
{
    match (a, b) {
        (Id::U64(x), Id::U64(y)) => *x == *y,
        (Id::Uuid(x), Id::Uuid(y)) => same_bytes(x.as_slice(), y.as_slice()),
        (Id::String(x), Id::String(y)) => same_text(x.as_str(), y.as_str()),
        _ => false,
    }
}

/// A key equal to `id`.
pub fn copy_id(id: &Id) -> (r: Id)
    ensures
        r@ == id@,
{
    match id {
        Id::U64(v) => Id::U64(*v),
        Id::Uuid(u) => Id::Uuid(*u),
        Id::String(s) => Id::String(s.clone()),
    }
}

/// An attribute value. A float is held as the bits of an IEEE 754 double.
#[derive(Debug)]
pub enum Value {
    Null,
    Bool(bool),
    Int(i64),
    Float(u64),
    String(String),
    Array(Vec<Value>),
}

/// What an attribute value stands for.
pub enum ValueView {
    Null,
    Bool(bool),
    Int(i64),
    Float(u64),
    String(Seq<char>),
    Array(Seq<ValueView>),
}

/// What an attribute value stands for.
pub open spec fn value_view(v: Value) -> ValueView
    decreases v,
{
    match v {
        Value::Null => ValueView::Null,
        Value::Bool(b) => ValueView::Bool(b),
        Value::Int(i) => ValueView::Int(i),
        Value::Float(f) => ValueView::Float(f),
        Value::String(s) => ValueView::String(s@),
        Value::Array(a) => ValueView::Array(
            Seq::new(
                a@.len(),
                |i: int|
                    if 0 <= i < a@.len() {
                        value_view(a@[i])
                    } else {
                        ValueView::Null
                    },
            ),
        ),
    }
}

impl View for Value {
    type V = ValueView;

    open spec fn view(&self) -> ValueView {
        value_view(*self)
    }
}

/// A value equal to `v`.
pub fn copy_value(v: &Value) -> (r: Value)
    ensures
        r@ == v@,
    decreases v,
{
    match v {
        Value::Null => Value::Null,
        Value::Bool(b) => Value::Bool(*b),
        Value::Int(i) => Value::Int(*i),
        Value::Float(f) => Value::Float(*f),
        Value::String(s) => Value::String(s.clone()),
        Value::Array(a) => {
            let mut out: Vec<Value> = Vec::new();
            let mut i: usize = 0;
            while i < a.len()
                invariant
                    i <= a@.len(),
                    out@.len() == i,
                    *v == Value::Array(*a),
                    forall|j: int| 0 <= j < i ==> value_view(#[trigger] out@[j]) == value_view(a@[j]),
                decreases a@.len() - i,
            {
                assert(v->Array_0@[i as int] == a@[i as int]);
                assert(decreases_to!(*v => v->Array_0@[i as int]));
                let item = copy_value(&a[i]);
                out.push(item);
                i = i + 1;
            }
            let r = Value::Array(out);
            assert(r@->Array_0 =~= v@->Array_0);
            r
        },
    }
}

/// The two halves of the doubles: below this the sign is plus.
pub const SIGN: u64 = 0x8000_0000_0000_0000;

/// The magnitude bits of infinity; above it are the NaNs.
pub const INFINITY: u64 = 0x7ff0_0000_0000_0000;

/// The place of a double in the order of the doubles, with both zeros at zero; a
/// NaN has none.
pub open spec fn float_rank(bits: u64) -> Option<int> {
    if bits % SIGN > INFINITY {
        None
    } else if bits < SIGN {
        Some(bits as int)
    } else {
        Some(-(bits - SIGN))
    }
}

/// Neither infinite nor a NaN.
pub open spec fn float_is_finite(bits: u64) -> bool {
    bits % SIGN < INFINITY
}

/// Whether a double is finite.
pub fn is_finite(bits: u64) -> (b: bool)
    ensures
        b == float_is_finite(bits),
{
    bits % SIGN < INFINITY
}

/// How two doubles compare; not at all where one is a NaN.
pub open spec fn float_order(a: u64, b: u64) -> Option<Order> {
    match (float_rank(a), float_rank(b)) {
        (Some(x), Some(y)) => Some(
            if x < y {
                Order::Less
            } else if x == y {
                Order::Equal
            } else {
                Order::Greater
            },
        ),
        _ => None,
    }
}

/// How two doubles compare.
pub fn compare_floats(a: u64, b: u64) -> (o: Option<Order>)
    ensures
        o == float_order(a, b),
{
    if a % SIGN > INFINITY || b % SIGN > INFINITY {
        return None;
    }
    let x: i128 = if a < SIGN {
        a as i128
    } else {
        -((a - SIGN) as i128)
    };
    let y: i128 = if b < SIGN {
        b as i128
    } else {
        -((b - SIGN) as i128)
    };
    if x < y {
        Some(Order::Less)
    } else if x == y {
        Some(Order::Equal)
    } else {
        Some(Order::Greater)
    }
}

/// Two to the power `n`.
pub open spec fn two_to(n: nat) -> nat
    decreases n,
{
    if n == 0 {
        1
    } else {
        2 * two_to((n - 1) as nat)
    }
}

/// How many binary digits a number has.
pub open spec fn bit_length(m: nat) -> nat
    decreases m,
{
    if m == 0 {
        0
    } else {
        1 + bit_length(m / 2)
    }
}

/// `m` in units of two to the power `shift`, to the nearest one, and to the even
/// one of two as near.
pub open spec fn nearest(m: nat, shift: nat) -> nat {
    let unit = two_to(shift);
    let q = m / unit;
    let r = m % unit;
    if 2 * r > unit || (2 * r == unit && q % 2 == 1) {
        q + 1
    } else {
        q
    }
}

/// The bits of the double nearest to `m`: 53 significant digits, of which the
/// first, always one, adds one to the exponent in place of being stored.
pub open spec fn float_magnitude(m: nat) -> nat {
    let n = bit_length(m);
    if m == 0 {
        0
    } else if n <= 53 {
        (n + 1021) as nat * two_to(52) + m * two_to((53 - n) as nat)
    } else {
        (n + 1021) as nat * two_to(52) + nearest(m, (n - 53) as nat)
    }
}

/// The bits of the double nearest to an integer.
pub open spec fn float_of_int(i: i64) -> nat {
    if i >= 0 {
        float_magnitude(i as nat)
    } else {
        SIGN as nat + float_magnitude((-i) as nat)
    }
}

proof fn lemma_two_to_values()
    ensures
        two_to(52) == 0x10_0000_0000_0000,
        two_to(53) == 0x20_0000_0000_0000,
        two_to(11) == 2048,
        two_to(64) == 0x1_0000_0000_0000_0000,
        two_to(63) == 0x8000_0000_0000_0000,
{
    reveal_with_fuel(two_to, 65);
}

pub proof fn lemma_two_to_sum(a: nat, b: nat)
    ensures
        two_to(a + b) == two_to(a) * two_to(b),
        two_to(a) > 0,
    decreases b, a,
{
    if b == 0 {
        assert(two_to(a) * 1 == two_to(a)) by (nonlinear_arith);
        if a > 0 {
            lemma_two_to_sum((a - 1) as nat, 0);
        }
    } else {
        lemma_two_to_sum(a, (b - 1) as nat);
        let x = two_to(a) as int;
        let y = two_to((b - 1) as nat) as int;
        assert(2 * (x * y) == x * (2 * y)) by (nonlinear_arith);
    }
}

pub proof fn lemma_bit_length(m: nat)
    ensures
        m < two_to(bit_length(m)),
        m > 0 ==> bit_length(m) > 0 && two_to((bit_length(m) - 1) as nat) <= m,
    decreases m,
{
    if m > 0 {
        lemma_bit_length(m / 2);
    }
}

pub proof fn lemma_two_to_mono(a: nat, b: nat)
    requires
        a <= b,
    ensures
        two_to(a) <= two_to(b),
    decreases b,
{
    if a < b {
        lemma_two_to_mono(a, (b - 1) as nat);
    }
}

/// How many binary digits `m` has.
fn digits_of(m: u64) -> (n: u64)
    ensures
        n == bit_length(m as nat),
        n <= 64,
{
    let mut rest: u64 = m;
    let mut n: u64 = 0;
    proof {
        lemma_bit_length(m as nat);
        if bit_length(m as nat) > 64 {
            lemma_two_to_mono(64, (bit_length(m as nat) - 1) as nat);
            lemma_two_to_values();
        }
    }
    while rest > 0
        invariant
            n + bit_length(rest as nat) == bit_length(m as nat),
            bit_length(m as nat) <= 64,
        decreases rest,
    {
        rest = rest / 2;
        n = n + 1;
    }
    n
}

/// The bits of the double nearest to `m`.
fn magnitude_bits(m: u64) -> (r: u64)
    requires
        m <= SIGN,
    ensures
        r == float_magnitude(m as nat),
        r < INFINITY,
{
    if m == 0 {
        return 0;
    }
    let n: u64 = digits_of(m);
    proof {
        lemma_bit_length(m as nat);
        lemma_two_to_values();
    }
    let base: u64 = (n + 1021) * 0x10_0000_0000_0000;
    if n <= 53 {
        let mut q: u64 = m;
        let mut k: u64 = n;
        assert(m * two_to(0) == m) by (nonlinear_arith)
            requires
                two_to(0) == 1,
        ;
        while k < 53
            invariant
                n <= k <= 53,
                q == m * two_to((k - n) as nat),
                m < two_to(n as nat),
                two_to(53) == 0x20_0000_0000_0000,
            decreases 53 - k,
        {
            proof {
                let f = two_to((k - n) as nat) as int;
                let t = two_to(n as nat) as int;
                lemma_two_to_sum(n as nat, (k - n) as nat);
                lemma_two_to_sum((k - n) as nat, 0);
                lemma_two_to_mono(k as nat, 53);
                let mm = m as int;
                assert(mm * f < t * f) by (nonlinear_arith)
                    requires
                        mm < t,
                        f > 0,
                ;
                assert(2 * (mm * f) == mm * (2 * f)) by (nonlinear_arith);
            }
            q = 2 * q;
            k = k + 1;
        }
        proof {
            lemma_two_to_sum(n as nat, (53 - n) as nat);
            lemma_two_to_sum((53 - n) as nat, 0);
            let mm = m as int;
            let t = two_to(n as nat) as int;
            let f = two_to((53 - n) as nat) as int;
            assert(mm * f < t * f) by (nonlinear_arith)
                requires
                    mm < t,
                    f > 0,
            ;
        }
        base + q
    } else {
        let mut unit: u64 = 1;
        let mut k: u64 = 53;
        while k < n
            invariant
                53 <= k <= n <= 64,
                unit == two_to((k - 53) as nat),
                two_to(11) == 2048,
            decreases n - k,
        {
            proof {
                lemma_two_to_mono((k - 53) as nat, 11);
            }
            unit = 2 * unit;
            k = k + 1;
        }
        proof {
            lemma_two_to_sum((n - 53) as nat, 53);
            lemma_two_to_sum((n - 53) as nat, 0);
            lemma_two_to_mono((n - 53) as nat, 11);
            let mm = m as int;
            let u = unit as int;
            assert(mm / u < 0x20_0000_0000_0000) by (nonlinear_arith)
                requires
                    mm < u * 0x20_0000_0000_0000,
                    u > 0,
            ;
        }
        let q: u64 = m / unit;
        let r: u64 = m % unit;
        if 2 * r > unit || (2 * r == unit && q % 2 == 1) {
            base + (q + 1)
        } else {
            base + q
        }
    }
}

/// The bits of the double nearest to an integer.
pub fn float_from_int(i: i64) -> (r: u64)
    ensures
        r == float_of_int(i),
{
    if i >= 0 {
        magnitude_bits(i as u64)
    } else {
        SIGN + magnitude_bits((-(i as i128)) as u64)
    }
}

/// How two scalar values compare. Numbers compare by value, integers exactly and
/// an integer with a float after rounding it to one; values of different kinds,
/// nulls, arrays and NaNs do not compare.
pub open spec fn scalar_order(a: ValueView, b: ValueView) -> Option<Order> {
    match (a, b) {
        (ValueView::Int(x), ValueView::Int(y)) => Some(
            if x < y {
                Order::Less
            } else if x == y {
                Order::Equal
            } else {
                Order::Greater
            },
        ),
        (ValueView::Float(x), ValueView::Float(y)) => float_order(x, y),
        (ValueView::Int(x), ValueView::Float(y)) => float_order(float_of_int(x) as u64, y),
        (ValueView::Float(x), ValueView::Int(y)) => float_order(x, float_of_int(y) as u64),
        (ValueView::Bool(x), ValueView::Bool(y)) => Some(
            if x == y {
                Order::Equal
            } else if y {
                Order::Less
            } else {
                Order::Greater
            },
        ),
        (ValueView::String(x), ValueView::String(y)) => Some(strings::text_order(x, y)),
        _ => None,
    }
}

/// How two scalar values compare.
pub fn compare_scalars(a: &Value, b: &Value) -> (o: Option<Order>)
    ensures
        o == scalar_order(a@, b@),
{
    match (a, b) {
        (Value::Int(x), Value::Int(y)) => Some(
            if *x < *y {
                Order::Less
            } else if *x == *y {
                Order::Equal
            } else {
                Order::Greater
            },
        ),
        (Value::Float(x), Value::Float(y)) => compare_floats(*x, *y),
        (Value::Int(x), Value::Float(y)) => compare_floats(float_from_int(*x), *y),
        (Value::Float(x), Value::Int(y)) => compare_floats(*x, float_from_int(*y)),
        (Value::Bool(x), Value::Bool(y)) => Some(
            if *x == *y {
                Order::Equal
            } else if *y {
                Order::Less
            } else {
                Order::Greater
            },
        ),
        (Value::String(x), Value::String(y)) => Some(compare_text(x.as_str(), y.as_str())),
        _ => None,
    }
}

/// Equality of values of one kind: floats are equal as doubles are, arrays item
/// by item.
pub open spec fn value_eq(a: ValueView, b: ValueView) -> bool
    decreases a,
{
    match (a, b) {
        (ValueView::Null, ValueView::Null) => true,
        (ValueView::Bool(x), ValueView::Bool(y)) => x == y,
        (ValueView::Int(x), ValueView::Int(y)) => x == y,
        (ValueView::Float(x), ValueView::Float(y)) => float_order(x, y) == Some(Order::Equal),
        (ValueView::String(x), ValueView::String(y)) => x == y,
        (ValueView::Array(x), ValueView::Array(y)) => x.len() == y.len() && forall|i: int|
            0 <= i < x.len() ==> value_eq(#[trigger] x[i], y[i]),
        _ => false,
    }
}

/// Whether two values are equal.
pub fn values_equal(a: &Value, b: &Value) -> (same: bool)
    ensures
        same == value_eq(a@, b@),
    decreases a,
{
    match (a, b) {
        (Value::Null, Value::Null) => true,
        (Value::Bool(x), Value::Bool(y)) => *x == *y,
        (Value::Int(x), Value::Int(y)) => *x == *y,
        (Value::Float(x), Value::Float(y)) => match compare_floats(*x, *y) {
            Some(Order::Equal) => true,
            _ => false,
        },
        (Value::String(x), Value::String(y)) => same_text(x.as_str(), y.as_str()),
        (Value::Array(x), Value::Array(y)) => {
            if x.len() != y.len() {
                return false;
            }
            let mut i: usize = 0;
            while i < x.len()
                invariant
                    i <= x@.len(),
                    x@.len() == y@.len(),
                    *a == Value::Array(*x),
                    *b == Value::Array(*y),
                    forall|j: int|
                        0 <= j < i ==> value_eq(#[trigger] a@->Array_0[j], b@->Array_0[j]),
                decreases x@.len() - i,
            {
                assert(decreases_to!(*a => x@[i as int]));
                assert(a@->Array_0[i as int] == x@[i as int]@);
                assert(b@->Array_0[i as int] == y@[i as int]@);
                if !values_equal(&x[i], &y[i]) {
                    assert(!value_eq(a@->Array_0[i as int], b@->Array_0[i as int]));
                    return false;
                }
                i = i + 1;
            }
            true
        },
        _ => false,
    }
}

/// Equality of scalar values: as they compare, and where they do not, as values
/// of one kind.
pub open spec fn scalars_equal(a: ValueView, b: ValueView) -> bool {
    match scalar_order(a, b) {
        Some(o) => o == Order::Equal,
        None => value_eq(a, b),
    }
}

/// Whether two scalar values are equal.
pub fn scalar_eq(a: &Value, b: &Value) -> (same: bool)
    ensures
        same == scalars_equal(a@, b@),
{
    match compare_scalars(a, b) {
        Some(Order::Equal) => true,
        Some(_) => false,
        None => values_equal(a, b),
    }
}

/// A vector: single-precision numbers by their bits, or half-precision ones by
/// theirs.
#[derive(Clone, Debug)]
pub enum VectorValue {
    F32(Vec<u32>),
    F16(Vec<u16>),
}

/// What a vector stands for.
pub enum VectorView {
    F32(Seq<u32>),
    F16(Seq<u16>),
}

impl View for VectorValue {
    type V = VectorView;

    open spec fn view(&self) -> VectorView {
        match self {
            VectorValue::F32(v) => VectorView::F32(v@),
            VectorValue::F16(v) => VectorView::F16(v@),
        }
    }
}

/// How many components a vector has.
pub open spec fn vector_dim(v: VectorView) -> nat {
    match v {
        VectorView::F32(s) => s.len(),
        VectorView::F16(s) => s.len(),
    }
}

impl VectorValue {
    /// How many components the vector has.
    pub fn dim(&self) -> (n: usize)
        ensures
            n == vector_dim(self@),
    {
        match self {
            VectorValue::F32(v) => v.len(),
            VectorValue::F16(v) => v.len(),
        }
    }
}

/// A document: its key, its vectors and its attributes.
#[derive(Debug)]
pub struct Document {
    pub id: Id,
    pub vectors: TextMap<VectorValue>,
    pub attributes: TextMap<Value>,
}

/// What a document stands for.
#[verifier::ext_equal]
pub struct DocumentView {
    pub id: IdView,
    pub vectors: Map<Seq<char>, VectorView>,
    pub attributes: Map<Seq<char>, ValueView>,
}

/// What a map of attributes stands for.
pub open spec fn attributes_view(m: TextMap<Value>) -> Map<Seq<char>, ValueView> {
    m.map().map_values(|v: Value| v@)
}

/// What a map of vectors stands for.
pub open spec fn vectors_view(m: TextMap<VectorValue>) -> Map<Seq<char>, VectorView> {
    m.map().map_values(|v: VectorValue| v@)
}

impl View for Document {
    type V = DocumentView;

    open spec fn view(&self) -> DocumentView {
        DocumentView {
            id: self.id@,
            vectors: vectors_view(self.vectors),
            attributes: attributes_view(self.attributes),
        }
    }
}

impl Document {
    /// Both maps are in key order.
    pub open spec fn wf(self) -> bool {
        self.vectors.wf() && self.attributes.wf()
    }

    /// A document with a key and nothing else.
    pub fn new(id: Id) -> (d: Document)
        ensures
            d.wf(),
            d@ == (DocumentView { id: id@, vectors: Map::empty(), attributes: Map::empty() }),
    {
        let d = Document { id, vectors: TextMap::new(), attributes: TextMap::new() };
        assert(d@.vectors =~= Map::empty());
        assert(d@.attributes =~= Map::empty());
        d
    }
}

/// Where in the text form of an identifier the two digits of byte `i` start.
pub open spec fn uuid_digits_at(i: int) -> int {
    2 * i + (if i < 4 {
        0int
    } else if i < 6 {
        1
    } else if i < 8 {
        2
    } else if i < 10 {
        3
    } else {
        4
    })
}

/// The text form of an identifier: 32 hexadecimal digits in groups of 8, 4, 4, 4
/// and 12 with hyphens between.
pub open spec fn is_uuid_text(s: Seq<char>) -> bool {
    &&& s.len() == 36
    &&& s[8] == '-'
    &&& s[13] == '-'
    &&& s[18] == '-'
    &&& s[23] == '-'
    &&& forall|i: int|
        0 <= i < 16 ==> hex_value(s[#[trigger] uuid_digits_at(i)]) is Some && hex_value(
            s[uuid_digits_at(i) + 1],
        ) is Some
}

/// The bytes that the text form of an identifier gives.
pub open spec fn uuid_bytes(s: Seq<char>) -> Seq<u8> {
    Seq::new(
        16,
        |i: int|
            (16 * hex_value(s[uuid_digits_at(i)])->Some_0 + hex_value(
                s[uuid_digits_at(i) + 1],
            )->Some_0) as u8,
    )
}

/// What a hexadecimal digit stands for.
pub open spec fn hex_value(c: char) -> Option<nat> {
    if '0' <= c <= '9' {
        Some((c as int - '0' as int) as nat)
    } else if 'a' <= c <= 'f' {
        Some((c as int - 'a' as int + 10) as nat)
    } else if 'A' <= c <= 'F' {
        Some((c as int - 'A' as int + 10) as nat)
    } else {
        None
    }
}

/// What a hexadecimal digit stands for.
fn hex_digit_value(c: char) -> (r: Option<u8>)
    ensures
        match r {
            Some(v) => hex_value(c) == Some(v as nat) && v < 16,
            None => hex_value(c) is None,
        },
{
    if '0' <= c && c <= '9' {
        Some((c as u32 - '0' as u32) as u8)
    } else if 'a' <= c && c <= 'f' {
        Some((c as u32 - 'a' as u32 + 10) as u8)
    } else if 'A' <= c && c <= 'F' {
        Some((c as u32 - 'A' as u32 + 10) as u8)
    } else {
        None
    }
}

/// The text form of an identifier.
pub open spec fn uuid_text(bytes: Seq<u8>) -> Seq<char> {
    strings::hex_of(bytes.subrange(0, 4)) + "-"@ + strings::hex_of(bytes.subrange(4, 6)) + "-"@ + strings::hex_of(
        bytes.subrange(6, 8),
    ) + "-"@ + strings::hex_of(bytes.subrange(8, 10)) + "-"@ + strings::hex_of(bytes.subrange(10, 16))
}

/// The text form of an identifier.
pub fn uuid_to_hyphenated(bytes: &[u8; 16]) -> (s: String)
    ensures
        s@ == uuid_text(bytes@),
{
    let b = bytes.as_slice();
    let mut s = hex(slice_of(b, 0, 4));
    s.append("-");
    s.append(hex(slice_of(b, 4, 6)).as_str());
    s.append("-");
    s.append(hex(slice_of(b, 6, 8)).as_str());
    s.append("-");
    s.append(hex(slice_of(b, 8, 10)).as_str());
    s.append("-");
    s.append(hex(slice_of(b, 10, 16)).as_str());
    s
}

/// The identifier that a text is the text form of.
pub fn parse_uuid_hyphenated(s: &str) -> (r: Option<[u8; 16]>)
    ensures
        match r {
            Some(bytes) => is_uuid_text(s@) && bytes@ == uuid_bytes(s@),
            None => !is_uuid_text(s@),
        },
{
    let chars = chars_of(s);
    if chars.len() != 36 {
        return None;
    }
    if chars[8] != '-' || chars[13] != '-' || chars[18] != '-' || chars[23] != '-' {
        return None;
    }
    let mut out: [u8; 16] = [0; 16];
    let mut i: usize = 0;
    while i < 16
        invariant
            i <= 16,
            chars@ == s@,
            chars@.len() == 36,
            s@[8] == '-' && s@[13] == '-' && s@[18] == '-' && s@[23] == '-',
            forall|j: int|
                0 <= j < i ==> hex_value(s@[#[trigger] uuid_digits_at(j)]) is Some && hex_value(
                    s@[uuid_digits_at(j) + 1],
                ) is Some,
            forall|j: int| 0 <= j < i ==> #[trigger] out@[j] == uuid_bytes(s@)[j],
        decreases 16 - i,
    {
        let skip: usize = if i < 4 {
            0
        } else if i < 6 {
            1
        } else if i < 8 {
            2
        } else if i < 10 {
            3
        } else {
            4
        };
        let at: usize = 2 * i + skip;
        assert(at == uuid_digits_at(i as int));
        let high = hex_digit_value(chars[at]);
        let low = hex_digit_value(chars[at + 1]);
        match (high, low) {
            (Some(h), Some(l)) => {
                out[i] = 16 * h + l;
            },
            _ => {
                return None;
            },
        }
        i = i + 1;
    }
    assert(out@ =~= uuid_bytes(s@));
    Some(out)
}

/// The key that a text stands for: the identifier it is the text form of, and
/// itself where it is none.
pub open spec fn id_of_text(s: Seq<char>) -> IdView {
    if is_uuid_text(s) {
        IdView::Uuid(uuid_bytes(s))
    } else {
        IdView::String(s)
    }
}

/// The key that a text stands for.
pub fn id_from_text(s: &str) -> (id: Id)
    ensures
        id@ == id_of_text(s@),
{
    match parse_uuid_hyphenated(s) {
        Some(bytes) => Id::Uuid(bytes),
        None => Id::String(s.to_owned()),
    }
}

/// The key that an integer stands for: no negative one stands for any.
pub fn id_from_integer(v: i64) -> (r: Option<Id>)
    ensures
        match r {
            Some(id) => v >= 0 && id@ == IdView::U64(v as u64),
            None => v < 0,
        },
{
    if v >= 0 {
        Some(Id::U64(v as u64))
    } else {
        None
    }
}

/// The integer value of an unsigned number: one above the signed range has none.
pub fn value_from_unsigned(v: u64) -> (r: Option<Value>)
    ensures
        match r {
            Some(value) => v <= i64::MAX && value@ == ValueView::Int(v as i64),
            None => v > i64::MAX,
        },
{
    if v <= 0x7fff_ffff_ffff_ffff {
        Some(Value::Int(v as i64))
    } else {
        None
    }
}

proof fn lemma_hex_of_at(bytes: Seq<u8>, i: int)
    requires
        0 <= i < bytes.len(),
    ensures
        strings::hex_of(bytes).len() == 2 * bytes.len(),
        strings::hex_of(bytes)[2 * i] == strings::hex_digit((bytes[i] / 16) as nat),
        strings::hex_of(bytes)[2 * i + 1] == strings::hex_digit((bytes[i] % 16) as nat),
    decreases bytes.len(),
{
    lemma_hex_of_len(bytes);
    let rest = bytes.drop_last();
    lemma_hex_of_len(rest);
    if i < rest.len() {
        lemma_hex_of_at(rest, i);
        assert(rest[i] == bytes[i]);
    }
}

proof fn lemma_hex_of_len(bytes: Seq<u8>)
    ensures
        strings::hex_of(bytes).len() == 2 * bytes.len(),
    decreases bytes.len(),
{
    if bytes.len() > 0 {
        lemma_hex_of_len(bytes.drop_last());
    }
}

/// Byte `i` of an identifier, where byte `from` starts a group that `text` holds
/// at `at`.
proof fn lemma_uuid_group(bytes: Seq<u8>, text: Seq<char>, from: int, to: int, at: int, i: int)
    requires
        bytes.len() == 16,
        0 <= from <= i < to <= 16,
        0 <= at,
        at + 2 * (to - from) <= text.len(),
        text.subrange(at, at + 2 * (to - from)) == strings::hex_of(bytes.subrange(from, to)),
    ensures
        hex_value(text[at + 2 * (i - from)]) == Some((bytes[i] / 16) as nat),
        hex_value(text[at + 2 * (i - from) + 1]) == Some((bytes[i] % 16) as nat),
{
    let group = bytes.subrange(from, to);
    lemma_hex_of_at(group, i - from);
    assert(group[i - from] == bytes[i]);
    let part = text.subrange(at, at + 2 * (to - from));
    assert(part[2 * (i - from)] == text[at + 2 * (i - from)]);
    assert(part[2 * (i - from) + 1] == text[at + 2 * (i - from) + 1]);
}

/// An identifier read back from its text form is the same identifier, so its
/// text form never stands for a text key.
pub proof fn law_uuid_text_round_trips(bytes: Seq<u8>)
    requires
        bytes.len() == 16,
    ensures
        id_of_text(uuid_text(bytes)) == IdView::Uuid(bytes),
{
    reveal_strlit("-");
    let s = uuid_text(bytes);
    lemma_hex_of_len(bytes.subrange(0, 4));
    lemma_hex_of_len(bytes.subrange(4, 6));
    lemma_hex_of_len(bytes.subrange(6, 8));
    lemma_hex_of_len(bytes.subrange(8, 10));
    lemma_hex_of_len(bytes.subrange(10, 16));
    assert(s.subrange(0, 8) =~= strings::hex_of(bytes.subrange(0, 4)));
    assert(s.subrange(9, 13) =~= strings::hex_of(bytes.subrange(4, 6)));
    assert(s.subrange(14, 18) =~= strings::hex_of(bytes.subrange(6, 8)));
    assert(s.subrange(19, 23) =~= strings::hex_of(bytes.subrange(8, 10)));
    assert(s.subrange(24, 36) =~= strings::hex_of(bytes.subrange(10, 16)));
    assert forall|i: int| 0 <= i < 16 implies hex_value(s[#[trigger] uuid_digits_at(i)]) == Some(
        (bytes[i] / 16) as nat,
    ) && hex_value(s[uuid_digits_at(i) + 1]) == Some((bytes[i] % 16) as nat) by {
        if i < 4 {
            lemma_uuid_group(bytes, s, 0, 4, 0, i);
        } else if i < 6 {
            lemma_uuid_group(bytes, s, 4, 6, 9, i);
        } else if i < 8 {
            lemma_uuid_group(bytes, s, 6, 8, 14, i);
        } else if i < 10 {
            lemma_uuid_group(bytes, s, 8, 10, 19, i);
        } else {
            lemma_uuid_group(bytes, s, 10, 16, 24, i);
        }
    }
    assert forall|i: int| 0 <= i < 16 implies #[trigger] uuid_bytes(s)[i] == bytes[i] by {
        assert(hex_value(s[uuid_digits_at(i)]) is Some);
    }
    assert(uuid_bytes(s) =~= bytes);
}

/// A vector equal to `v`.
pub fn copy_vector_value(v: &VectorValue) -> (r: VectorValue)
    ensures
        r@ == v@,
{
    match v {
        VectorValue::F32(a) => {
            let mut out: Vec<u32> = Vec::new();
            let mut i: usize = 0;
            while i < a.len()
                invariant
                    i <= a@.len(),
                    out@ == a@.take(i as int),
                decreases a@.len() - i,
            {
                out.push(a[i]);
                i = i + 1;
                assert(out@ =~= a@.take(i as int));
            }
            assert(out@ =~= a@);
            VectorValue::F32(out)
        },
        VectorValue::F16(a) => {
            let mut out: Vec<u16> = Vec::new();
            let mut i: usize = 0;
            while i < a.len()
                invariant
                    i <= a@.len(),
                    out@ == a@.take(i as int),
                decreases a@.len() - i,
            {
                out.push(a[i]);
                i = i + 1;
                assert(out@ =~= a@.take(i as int));
            }
            assert(out@ =~= a@);
            VectorValue::F16(out)
        },
    }
}

proof fn lemma_take_has(s: Seq<Seq<char>>, i: int)
    requires
        0 <= i < s.len(),
    ensures
        forall|x: Seq<char>| #[trigger]
            s.take(i + 1).contains(x) == (s.take(i).contains(x) || x == s[i]),
{
    assert forall|x: Seq<char>| #[trigger]
        s.take(i + 1).contains(x) == (s.take(i).contains(x) || x == s[i]) by {
        if s.take(i).contains(x) {
            let j = s.take(i).index_of(x);
            assert(s.take(i + 1)[j] == x);
        }
        if x == s[i] {
            assert(s.take(i + 1)[i] == x);
        }
        if s.take(i + 1).contains(x) {
            let j = s.take(i + 1).index_of(x);
            if j < i {
                assert(s.take(i)[j] == x);
            }
        }
    }
}

/// Attributes equal to those of `m`.
pub fn copy_attributes(m: &TextMap<Value>) -> (r: TextMap<Value>)
    requires
        m.wf(),
    ensures
        r.wf(),
        attributes_view(r) == attributes_view(*m),
{
    let mut r: TextMap<Value> = TextMap::new();
    let ghost keys = m.keys();
    let n = m.len();
    let mut i: usize = 0;
    while i < n
        invariant
            i <= n,
            n == keys.len(),
            keys == m.keys(),
            m.wf(),
            r.wf(),
            forall|x: Seq<char>| #[trigger]
                r.map().dom().contains(x) == keys.take(i as int).contains(x),
            forall|x: Seq<char>|
                r.map().dom().contains(x) ==> (#[trigger] r.map()[x])@ == m.map()[x]@,
        decreases n - i,
    {
        proof {
            m.lemma_position(i as int);
            lemma_take_has(keys, i as int);
        }
        r.insert(m.key_at(i).clone(), copy_value(m.value_at(i)));
        i = i + 1;
    }
    assert(keys.take(n as int) =~= keys);
    assert(attributes_view(r) =~= attributes_view(*m));
    r
}

/// Vectors equal to those of `m`.
pub fn copy_vector_map(m: &TextMap<VectorValue>) -> (r: TextMap<VectorValue>)
    requires
        m.wf(),
    ensures
        r.wf(),
        vectors_view(r) == vectors_view(*m),
{
    let mut r: TextMap<VectorValue> = TextMap::new();
    let ghost keys = m.keys();
    let n = m.len();
    let mut i: usize = 0;
    while i < n
        invariant
            i <= n,
            n == keys.len(),
            keys == m.keys(),
            m.wf(),
            r.wf(),
            forall|x: Seq<char>| #[trigger]
                r.map().dom().contains(x) == keys.take(i as int).contains(x),
            forall|x: Seq<char>|
                r.map().dom().contains(x) ==> (#[trigger] r.map()[x])@ == m.map()[x]@,
        decreases n - i,
    {
        proof {
            m.lemma_position(i as int);
            lemma_take_has(keys, i as int);
        }
        r.insert(m.key_at(i).clone(), copy_vector_value(m.value_at(i)));
        i = i + 1;
    }
    assert(keys.take(n as int) =~= keys);
    assert(vectors_view(r) =~= vectors_view(*m));
    r
}

/// A document equal to `d`.
pub fn copy_document(d: &Document) -> (r: Document)
    requires
        d.wf(),
    ensures
        r.wf(),
        r@ == d@,
{
    Document {
        id: copy_id(&d.id),
        vectors: copy_vector_map(&d.vectors),
        attributes: copy_attributes(&d.attributes),
    }
}

/// Keys that are numbers are in the order of the numbers, keys that are text in the
/// order of the bytes of the text, and identifiers in the order of their bytes. Numbers
/// come first and text last.
pub proof fn law_keys_are_ordered_by_kind(
    x: u64,
    y: u64,
    u: Seq<u8>,
    v: Seq<u8>,
    s: Seq<char>,
    t: Seq<char>,
)
    ensures
        id_order(IdView::U64(x), IdView::U64(y)) == Order::Less <==> x < y,
        id_order(IdView::U64(x), IdView::U64(y)) == Order::Greater <==> x > y,
        id_order(IdView::Uuid(u), IdView::Uuid(v)) == Order::Less <==> order::lex_lt(u, v),
        id_order(IdView::Uuid(u), IdView::Uuid(v)) == Order::Greater <==> order::lex_lt(v, u),
        id_order(IdView::String(s), IdView::String(t)) == Order::Less <==> order::lex_lt(
            encode_utf8(s),
            encode_utf8(t),
        ),
        id_order(IdView::String(s), IdView::String(t)) == Order::Greater <==> order::lex_lt(
            encode_utf8(t),
            encode_utf8(s),
        ),
        id_order(IdView::U64(x), IdView::Uuid(u)) == Order::Less,
        id_order(IdView::U64(x), IdView::String(s)) == Order::Less,
        id_order(IdView::Uuid(u), IdView::String(s)) == Order::Less,
{
    order::lemma_lex_total(u, v);
    textmap::lemma_text_total(s, t);
}

/// Integers compare as integers do, truths with false first, and text by its bytes. What
/// compares equal is equal, except that two zeros of floats are.
pub proof fn law_scalars_compare_by_value(x: i64, y: i64, p: bool, q: bool, s: Seq<char>, t: Seq<char>)
    ensures
        scalar_order(ValueView::Int(x), ValueView::Int(y)) == Some(Order::Less) <==> x < y,
        scalar_order(ValueView::Int(x), ValueView::Int(y)) == Some(Order::Equal) <==> x == y,
        scalar_order(ValueView::Int(x), ValueView::Int(y)) == Some(Order::Greater) <==> x > y,
        scalar_order(ValueView::Bool(p), ValueView::Bool(q)) == Some(Order::Less) <==> !p && q,
        scalar_order(ValueView::Bool(p), ValueView::Bool(q)) == Some(Order::Equal) <==> p == q,
        scalar_order(ValueView::Bool(p), ValueView::Bool(q)) == Some(Order::Greater) <==> p && !q,
        scalar_order(ValueView::String(s), ValueView::String(t)) == Some(Order::Less)
            <==> order::lex_lt(encode_utf8(s), encode_utf8(t)),
        scalar_order(ValueView::String(s), ValueView::String(t)) == Some(Order::Equal) <==> s == t,
        scalar_order(ValueView::String(s), ValueView::String(t)) == Some(Order::Greater)
            <==> order::lex_lt(encode_utf8(t), encode_utf8(s)),
{
    textmap::lemma_text_total(s, t);
}

/// Equality goes both ways, and a value that holds no NaN equals itself; arrays are equal
/// only if they are as long.
pub proof fn law_equality_goes_both_ways(a: ValueView, b: ValueView)
    ensures
        value_eq(a, b) == value_eq(b, a),
        a is Array && b is Array && value_eq(a, b) ==> a->Array_0.len() == b->Array_0.len(),
        value_eq(a, b) ==> (a is Null <==> b is Null) && (a is Bool <==> b is Bool) && (a is Int
            <==> b is Int) && (a is Float <==> b is Float) && (a is String <==> b is String),
    decreases a,
{
    match (a, b) {
        (ValueView::Array(x), ValueView::Array(y)) => {
            if x.len() == y.len() {
                assert forall|i: int| 0 <= i < x.len() implies value_eq(#[trigger] x[i], y[i])
                    == value_eq(y[i], x[i]) by {
                    law_equality_goes_both_ways(x[i], y[i]);
                }
                if value_eq(a, b) {
                    assert forall|i: int| 0 <= i < y.len() implies value_eq(
                        #[trigger] y[i],
                        x[i],
                    ) by {
                        assert(value_eq(x[i], y[i]));
                    }
                }
                if value_eq(b, a) {
                    assert forall|i: int| 0 <= i < x.len() implies value_eq(
                        #[trigger] x[i],
                        y[i],
                    ) by {
                        assert(value_eq(y[i], x[i]));
                    }
                }
            }
        },
        _ => {},
    }
}

/// Rounding goes to the nearest multiple, at most half a unit away, and of two as near to
/// the even one.
pub proof fn law_rounding_goes_to_the_nearest(m: nat, shift: nat)
    ensures
        ({
            let unit = two_to(shift);
            let at = nearest(m, shift) * unit;
            &&& 2 * (at - m) <= unit
            &&& 2 * (m - at) <= unit
            &&& 2 * (at - m) == unit || 2 * (m - at) == unit ==> nearest(m, shift) % 2 == 0 || unit
                == 0
        }),
{
    let unit = two_to(shift);
    let q = m / unit;
    let r = m % unit;
    lemma_two_to_positive(shift);
    vstd::arithmetic::div_mod::lemma_fundamental_div_mod(m as int, unit as int);
    assert(unit * q == q * unit) by (nonlinear_arith);
    assert((q + 1) * unit == q * unit + unit) by (nonlinear_arith);
}

proof fn lemma_two_to_positive(n: nat)
    ensures
        two_to(n) > 0,
    decreases n,
{
    if n > 0 {
        lemma_two_to_positive((n - 1) as nat);
    }
}

} // verus!
