//! The attribute index: for each column and scalar value, which documents have
//! it. Its keys are type-tagged bytes; its values are lists of document keys.

use vstd::prelude::*;
use vstd::string::*;
use vstd::utf8::*;

use crate::value;
use crate::strings;
use crate::sst::writer;
use crate::sst::reader;
use crate::sst::block;
use crate::codec;
use crate::codec::{append, get_u64_be, put_len_be, put_u64_be, slice_of, to_vec};
use crate::error::{corrupt, invalid_schema, Error};
use crate::order;
use crate::order::{same_bytes, Order};
use crate::sorted::{SortedMap, SortedSet};
use crate::sst::block::Entry;
use crate::sst::reader::SstReader;
use crate::sst::writer::write_table;
use crate::strings::text_from_utf8;
use crate::textmap::TextMap;
use crate::value::{compare_scalars, copy_id, is_finite, Document, DocumentView, Id, IdView, Value, ValueView, SIGN};

verus! {

pub const KEY_KIND_ALL_DOCS: u8 = 0;

pub const KEY_KIND_ATTR: u8 = 1;

pub const VALUE_BOOL: u8 = 1;

pub const VALUE_INT: u8 = 2;

pub const VALUE_FLOAT: u8 = 3;

pub const VALUE_STRING: u8 = 4;

/// A value that the index has keys for.
pub open spec fn is_scalar(v: ValueView) -> bool {
    v is Bool || v is Int || v is Float || v is String
}

/// A value that the index can hold: a scalar, and no infinity or NaN.
pub open spec fn is_indexable(v: ValueView) -> bool {
    is_scalar(v) && (v matches ValueView::Float(f) ==> value::float_is_finite(f))
}

/// A signed integer moved into the unsigned range, order kept.
pub open spec fn ordered_int(i: i64) -> nat {
    (i + 0x8000_0000_0000_0000) as nat
}

/// The bits of a double rearranged so that they order as doubles do.
pub open spec fn ordered_float(bits: u64) -> nat {
    if bits >= SIGN {
        (0xffff_ffff_ffff_ffff - bits) as nat
    } else {
        (bits + SIGN) as nat
    }
}

/// A zero byte becomes zero and 255; every other byte stays.
pub open spec fn escaped(s: Seq<u8>) -> Seq<u8>
    decreases s.len(),
{
    if s.len() == 0 {
        Seq::empty()
    } else if s[0] == 0 {
        seq![0u8, 0xffu8] + escaped(s.drop_first())
    } else {
        seq![s[0]] + escaped(s.drop_first())
    }
}

/// What was escaped, up to the two zero bytes that end it.
pub open spec fn unescaped(s: Seq<u8>) -> Option<Seq<u8>>
    decreases s.len(),
{
    if s.len() == 0 {
        None
    } else if s[0] != 0 {
        prepended(seq![s[0]], unescaped(s.drop_first()))
    } else if s.len() == 1 {
        None
    } else if s[1] == 0 {
        Some(Seq::empty())
    } else if s[1] == 0xff {
        prepended(seq![0u8], unescaped(s.skip(2)))
    } else {
        None
    }
}

pub open spec fn prepended(front: Seq<u8>, rest: Option<Seq<u8>>) -> Option<Seq<u8>> {
    match rest {
        None => None,
        Some(s) => Some(front + s),
    }
}

/// The bytes of a scalar value.
pub open spec fn scalar_bytes(v: ValueView) -> Seq<u8> {
    match v {
        ValueView::Bool(b) => seq![VALUE_BOOL, if b {
            1u8
        } else {
            0u8
        }],
        ValueView::Int(i) => seq![VALUE_INT] + codec::be_bytes(ordered_int(i), 8),
        ValueView::Float(f) => seq![VALUE_FLOAT] + codec::be_bytes(ordered_float(f), 8),
        ValueView::String(s) => seq![VALUE_STRING] + ordered_text(s),
        _ => Seq::empty(),
    }
}

/// The scalar that bytes start with. The outer `None` is for bytes that are
/// damaged, the inner one for bytes that end before there is a value.
pub open spec fn scalar_of_bytes(bytes: Seq<u8>) -> Option<Option<ValueView>> {
    if bytes.len() == 0 {
        Some(None)
    } else if bytes[0] == VALUE_BOOL {
        if bytes.len() < 2 {
            Some(None)
        } else {
            Some(Some(ValueView::Bool(bytes[1] != 0)))
        }
    } else if bytes[0] == VALUE_INT {
        if bytes.len() < 9 {
            None
        } else {
            Some(
                Some(
                    ValueView::Int(
                        (codec::be_value(bytes.subrange(1, 9)) - 0x8000_0000_0000_0000) as i64,
                    ),
                ),
            )
        }
    } else if bytes[0] == VALUE_FLOAT {
        if bytes.len() < 9 {
            None
        } else {
            let ordered = codec::be_value(bytes.subrange(1, 9));
            Some(
                Some(
                    ValueView::Float(
                        if ordered >= SIGN {
                            (ordered - SIGN) as u64
                        } else {
                            (0xffff_ffff_ffff_ffff - ordered) as u64
                        },
                    ),
                ),
            )
        }
    } else if bytes[0] == VALUE_STRING {
        match unescaped(bytes.drop_first()) {
            None => None,
            Some(text) => if valid_utf8(text) {
                Some(Some(ValueView::String(decode_utf8(text))))
            } else {
                None
            },
        }
    } else {
        None
    }
}

/// The bytes of a text: they order as texts do, and two zero bytes end them.
pub open spec fn ordered_text(s: Seq<char>) -> Seq<u8> {
    closed(encode_utf8(s))
}

/// Escaped bytes with the two zero bytes that end them.
pub open spec fn closed(s: Seq<u8>) -> Seq<u8> {
    escaped(s) + seq![0u8, 0u8]
}

proof fn lemma_unescape(s: Seq<u8>, tail: Seq<u8>)
    ensures
        unescaped(closed(s) + tail) == Some(s),
    decreases s.len(),
{
    let end = seq![0u8, 0u8];
    let all = closed(s) + tail;
    if s.len() == 0 {
        assert(all =~= end + tail);
        assert(unescaped(all) == Some(Seq::<u8>::empty()));
        assert(s =~= Seq::<u8>::empty());
    } else {
        let rest = s.drop_first();
        lemma_unescape(rest, tail);
        if s[0] == 0 {
            assert(all.skip(2) =~= closed(rest) + tail);
            assert(seq![0u8] + rest =~= s);
        } else {
            assert(all.drop_first() =~= closed(rest) + tail);
            assert(seq![s[0]] + rest =~= s);
        }
    }
}

proof fn lemma_closed_order(a: Seq<u8>, b: Seq<u8>)
    requires
        order::lex_lt(a, b),
    ensures
        order::lex_lt(closed(a), closed(b)),
    decreases a.len(),
{
    let x = closed(a);
    let y = closed(b);
    order::lemma_shared_len(a, b);
    if a.len() == 0 {
        assert(x =~= seq![0u8, 0u8]);
        if b[0] == 0 {
            assert(y[0] == 0 && y[1] == 0xff);
            order::lemma_shared_len_unique(x, y, 1);
        } else {
            assert(y[0] == b[0]);
            order::lemma_shared_len_unique(x, y, 0);
        }
    } else if a[0] == b[0] {
        let ra = a.drop_first();
        let rb = b.drop_first();
        assert(order::lex_lt(seq![a[0]] + ra, seq![a[0]] + rb)) by {
            assert(seq![a[0]] + ra =~= a);
            assert(seq![a[0]] + rb =~= b);
        }
        order::lemma_lex_prefix(seq![a[0]], ra, rb);
        lemma_closed_order(ra, rb);
        let front = if a[0] == 0 {
            seq![0u8, 0xffu8]
        } else {
            seq![a[0]]
        };
        assert(x =~= front + closed(ra));
        assert(y =~= front + closed(rb));
        order::lemma_lex_prefix(front, closed(ra), closed(rb));
    } else {
        assert(order::shared_len(a, b) == 0);
        assert(x[0] == a[0] && y[0] == b[0]);
        order::lemma_shared_len_unique(x, y, 0);
    }
}

/// The bytes of texts order as the texts do.
pub proof fn law_ordered_text_keeps_order(s: Seq<char>, t: Seq<char>)
    ensures
        order::lex_lt(ordered_text(s), ordered_text(t)) <==> strings::text_lt(s, t),
{
    let a = encode_utf8(s);
    let b = encode_utf8(t);
    order::lemma_lex_total(a, b);
    order::lemma_lex_total(closed(a), closed(b));
    if order::lex_lt(a, b) {
        lemma_closed_order(a, b);
    } else if order::lex_lt(b, a) {
        lemma_closed_order(b, a);
    }
}

/// The bytes of a text are no prefix of those of another text.
pub proof fn law_ordered_text_is_prefix_free(s: Seq<char>, t: Seq<char>, tail: Seq<u8>)
    requires
        s != t,
    ensures
        ordered_text(s) + tail != ordered_text(t),
{
    if ordered_text(s) + tail == ordered_text(t) {
        lemma_unescape(encode_utf8(s), tail);
        lemma_unescape(encode_utf8(t), Seq::empty());
        assert(ordered_text(t) + Seq::<u8>::empty() =~= ordered_text(t));
        strings::lemma_encoding_injective(s, t);
    }
}

/// The text that bytes start with, if there is one.
pub open spec fn text_at(bytes: Seq<u8>) -> Option<Seq<char>> {
    match unescaped(bytes) {
        Some(text) => if valid_utf8(text) {
            Some(decode_utf8(text))
        } else {
            None
        },
        None => None,
    }
}

/// A text is read back from its bytes, whatever follows them.
pub proof fn law_ordered_text_round_trips(s: Seq<char>, tail: Seq<u8>)
    ensures
        text_at(ordered_text(s) + tail) == Some(s),
{
    lemma_unescape(encode_utf8(s), tail);
    encode_utf8_valid_utf8(s);
    encode_utf8_decode_utf8(s);
}

/// A value read back from its bytes is the same value.
pub proof fn law_scalar_round_trips(v: ValueView)
    requires
        is_scalar(v),
    ensures
        scalar_of_bytes(scalar_bytes(v)) == Some(Some(v)),
{
    let b = scalar_bytes(v);
    codec::lemma_byte_range();
    match v {
        ValueView::Int(i) => {
            codec::lemma_be_round_trip(ordered_int(i), 8);
            assert(b.subrange(1, 9) =~= codec::be_bytes(ordered_int(i), 8));
        },
        ValueView::Float(f) => {
            codec::lemma_be_round_trip(ordered_float(f), 8);
            assert(b.subrange(1, 9) =~= codec::be_bytes(ordered_float(f), 8));
        },
        ValueView::String(s) => {
            let text = encode_utf8(s);
            lemma_unescape(text, Seq::empty());
            assert(b.drop_first() =~= closed(text) + Seq::<u8>::empty());
            encode_utf8_valid_utf8(s);
            encode_utf8_decode_utf8(s);
        },
        _ => {},
    }
}

/// Different scalars have different bytes.
pub proof fn lemma_scalar_bytes_injective(a: ValueView, b: ValueView)
    requires
        is_scalar(a),
        is_scalar(b),
        scalar_bytes(a) == scalar_bytes(b),
    ensures
        a == b,
{
    law_scalar_round_trips(a);
    law_scalar_round_trips(b);
}

/// What the keys of a column start with.
pub open spec fn column_prefix(column: Seq<char>) -> Seq<u8> {
    seq![KEY_KIND_ATTR] + codec::be_bytes(encode_utf8(column).len(), 4) + encode_utf8(column)
}

/// The key of a value in a column.
pub open spec fn attr_key_bytes(column: Seq<char>, v: ValueView) -> Seq<u8> {
    column_prefix(column) + scalar_bytes(v)
}

/// The key under which all documents are listed.
pub open spec fn all_docs_bytes() -> Seq<u8> {
    seq![KEY_KIND_ALL_DOCS]
}

/// The key under which all documents are listed.
pub fn all_docs_key() -> (key: Vec<u8>)
    ensures
        key@ == all_docs_bytes(),
{
    let mut key: Vec<u8> = Vec::new();
    key.push(KEY_KIND_ALL_DOCS);
    assert(key@ =~= all_docs_bytes());
    key
}

fn attr_column_prefix(column: &str) -> (key: Vec<u8>)
    ensures
        key@ == column_prefix(column@),
{
    let mut key: Vec<u8> = Vec::new();
    let text = column.as_bytes();
    key.push(KEY_KIND_ATTR);
    put_len_be(&mut key, text.len());
    append(&mut key, text);
    assert(key@ =~= column_prefix(column@));
    key
}

/// Whether the index has keys for a value.
pub fn can_encode_scalar(value: &Value) -> (b: bool)
    ensures
        b == is_scalar(value@),
{
    match value {
        Value::Bool(_) => true,
        Value::Int(_) => true,
        Value::Float(_) => true,
        Value::String(_) => true,
        Value::Null => false,
        Value::Array(_) => false,
    }
}

/// Appends the bytes of a text.
pub fn encode_ordered_string(value: &str, out: &mut Vec<u8>)
    ensures
        final(out)@ == old(out)@ + ordered_text(value@),
{
    let text = value.as_bytes();
    let mut i: usize = 0;
    assert(text@.skip(0) =~= text@);
    while i < text.len()
        invariant
            i <= text@.len(),
            out@ + escaped(text@.skip(i as int)) == old(out)@ + escaped(text@),
        decreases text@.len() - i,
    {
        let ghost before = out@;
        let ghost rest = text@.skip(i as int);
        let b = text[i];
        assert(rest.drop_first() =~= text@.skip(i + 1));
        if b == 0 {
            out.push(0);
            out.push(0xff);
            assert(before + escaped(rest) =~= out@ + escaped(text@.skip(i + 1)));
        } else {
            out.push(b);
            assert(before + escaped(rest) =~= out@ + escaped(text@.skip(i + 1)));
        }
        i = i + 1;
    }
    assert(out@ =~= old(out)@ + escaped(text@));
    out.push(0);
    out.push(0);
    assert(out@ =~= old(out)@ + ordered_text(value@));
}

/// Why a value has no bytes in an index.
pub open spec fn scalar_complaint(v: ValueView) -> Seq<char> {
    if v is Float {
        "attribute index cannot encode non-finite float"@
    } else {
        "attribute index can only encode scalar values"@
    }
}

/// Appends the bytes of a scalar value. Infinities, NaNs, nulls and arrays are
/// refused.
fn encode_scalar_value(value: &Value, out: &mut Vec<u8>) -> (r: Result<(), Error>)
    ensures
        is_indexable(value@) ==> r is Ok && final(out)@ == old(out)@ + scalar_bytes(value@),
        !is_indexable(value@) ==> r is Err && r->Err_0 is InvalidSchema && r->Err_0->InvalidSchema_0@
            == scalar_complaint(value@) && final(out)@ == old(out)@,
{
    match value {
        Value::Bool(b) => {
            out.push(VALUE_BOOL);
            if *b {
                out.push(1);
            } else {
                out.push(0);
            }
        },
        Value::Int(i) => {
            out.push(VALUE_INT);
            put_u64_be(out, (*i as i128 + 0x8000_0000_0000_0000) as u64);
        },
        Value::Float(f) => {
            if !is_finite(*f) {
                return Err(invalid_schema("attribute index cannot encode non-finite float"));
            }
            out.push(VALUE_FLOAT);
            let ordered: u64 = if *f >= SIGN {
                0xffff_ffff_ffff_ffff - *f
            } else {
                *f + SIGN
            };
            put_u64_be(out, ordered);
        },
        Value::String(s) => {
            out.push(VALUE_STRING);
            encode_ordered_string(s.as_str(), out);
        },
        Value::Null => {
            return Err(invalid_schema("attribute index can only encode scalar values"));
        },
        Value::Array(_) => {
            return Err(invalid_schema("attribute index can only encode scalar values"));
        },
    }
    assert(out@ =~= old(out)@ + scalar_bytes(value@));
    Ok(())
}

/// The key of a value in a column.
pub fn attr_key(column: &str, value: &Value) -> (r: Result<Vec<u8>, Error>)
    ensures
        is_indexable(value@) ==> r is Ok && r->Ok_0@ == attr_key_bytes(column@, value@),
        !is_indexable(value@) ==> r is Err && r->Err_0 is InvalidSchema && r->Err_0->InvalidSchema_0@
            == scalar_complaint(value@),
{
    let mut key = attr_column_prefix(column);
    match encode_scalar_value(value, &mut key) {
        Ok(_) => Ok(key),
        Err(e) => Err(e),
    }
}

/// The bytes of a scalar value; none for a null or an array.
pub fn scalar_key(value: &Value) -> (r: Result<Option<Vec<u8>>, Error>)
    ensures
        !is_scalar(value@) ==> r is Ok && r->Ok_0 is None,
        is_indexable(value@) ==> r is Ok && r->Ok_0 is Some && r->Ok_0->Some_0@ == scalar_bytes(
            value@,
        ),
        is_scalar(value@) && !is_indexable(value@) ==> r is Err && r->Err_0 is InvalidSchema
            && r->Err_0->InvalidSchema_0@ == scalar_complaint(value@),
{
    if !can_encode_scalar(value) {
        return Ok(None);
    }
    let mut key: Vec<u8> = Vec::new();
    match encode_scalar_value(value, &mut key) {
        Ok(_) => {
            assert(key@ =~= scalar_bytes(value@));
            Ok(Some(key))
        },
        Err(e) => Err(e),
    }
}

/// The text that bytes start with.
pub fn decode_ordered_string(bytes: &[u8]) -> (r: Result<String, Error>)
    ensures
        match text_at(bytes@) {
            Some(s) => r is Ok && r->Ok_0@ == s,
            None => r is Err && r->Err_0 is Corrupt,
        },
{
    let len: usize = bytes.len();
    let mut out: Vec<u8> = Vec::new();
    let mut pos: usize = 0;
    proof {
        assert(bytes@.skip(0) =~= bytes@);
        lemma_prepend_nothing(unescaped(bytes@));
        assert(out@ =~= Seq::<u8>::empty());
    }
    while pos < len
        invariant
            pos <= len,
            len == bytes@.len(),
            unescaped(bytes@) == prepended(out@, unescaped(bytes@.skip(pos as int))),
        decreases len - pos,
    {
        let ghost rest = bytes@.skip(pos as int);
        let ghost before = out@;
        let b = bytes[pos];
        assert(rest[0] == b);
        if b != 0 {
            out.push(b);
            pos = pos + 1;
            proof {
                assert(rest.drop_first() =~= bytes@.skip(pos as int));
                lemma_prepend_twice(before, seq![b], unescaped(bytes@.skip(pos as int)));
                assert(out@ =~= before + seq![b]);
            }
        } else {
            if pos + 1 >= len {
                return Err(corrupt("attribute string terminator truncated"));
            }
            let marker = bytes[pos + 1];
            assert(rest[1] == marker);
            if marker == 0 {
                assert(before + Seq::<u8>::empty() =~= before);
                return match text_from_utf8(out) {
                    Some(s) => Ok(s),
                    None => Err(corrupt("attribute string key not utf-8")),
                };
            }
            if marker != 0xff {
                return Err(corrupt("bad attribute string escape"));
            }
            out.push(0);
            pos = pos + 2;
            proof {
                assert(rest.skip(2) =~= bytes@.skip(pos as int));
                lemma_prepend_twice(before, seq![0u8], unescaped(bytes@.skip(pos as int)));
                assert(out@ =~= before + seq![0u8]);
            }
        }
    }
    Err(corrupt("attribute string missing terminator"))
}

proof fn lemma_prepend_nothing(rest: Option<Seq<u8>>)
    ensures
        prepended(Seq::empty(), rest) == rest,
{
    if rest is Some {
        assert(Seq::<u8>::empty() + rest->Some_0 =~= rest->Some_0);
    }
}

proof fn lemma_prepend_twice(a: Seq<u8>, b: Seq<u8>, rest: Option<Seq<u8>>)
    ensures
        prepended(a, prepended(b, rest)) == prepended(a + b, rest),
{
    if rest is Some {
        assert(a + (b + rest->Some_0) =~= (a + b) + rest->Some_0);
    }
}

/// The value that the part of a key behind the column stands for.
pub fn decode_value_from_key(bytes: &[u8]) -> (r: Result<Option<Value>, Error>)
    ensures
        match scalar_of_bytes(bytes@) {
            None => r is Err && r->Err_0 is Corrupt,
            Some(None) => r is Ok && r->Ok_0 is None,
            Some(Some(v)) => r is Ok && r->Ok_0 is Some && r->Ok_0->Some_0@ == v,
        },
{
    let len: usize = bytes.len();
    if len == 0 {
        return Ok(None);
    }
    let tag = bytes[0];
    if tag == VALUE_BOOL {
        if len < 2 {
            return Ok(None);
        }
        Ok(Some(Value::Bool(bytes[1] != 0)))
    } else if tag == VALUE_INT {
        if len < 9 {
            return Err(corrupt("attribute int key truncated"));
        }
        let ordered: u64 = get_u64_be(bytes, 1);
        Ok(Some(Value::Int((ordered as i128 - 0x8000_0000_0000_0000) as i64)))
    } else if tag == VALUE_FLOAT {
        if len < 9 {
            return Err(corrupt("attribute float key truncated"));
        }
        let ordered: u64 = get_u64_be(bytes, 1);
        let bits: u64 = if ordered >= SIGN {
            ordered - SIGN
        } else {
            0xffff_ffff_ffff_ffff - ordered
        };
        Ok(Some(Value::Float(bits)))
    } else if tag == VALUE_STRING {
        assert(bytes@.subrange(1, len as int) =~= bytes@.drop_first());
        match decode_ordered_string(slice_of(bytes, 1, len)) {
            Ok(s) => Ok(Some(Value::String(s))),
            Err(e) => Err(e),
        }
    } else {
        Err(corrupt("unknown attribute value tag"))
    }
}

// ---------------------------------------------------------------------------
// Building the index
// ---------------------------------------------------------------------------

/// The scalars of an attribute value that are indexed: those of an array, itself
/// if it is a scalar, none of a null.
pub open spec fn indexed_items(v: ValueView) -> Seq<ValueView> {
    match v {
        ValueView::Null => Seq::empty(),
        ValueView::Array(items) => items,
        _ => seq![v],
    }
}

/// Every item of an attribute value can be indexed.
pub open spec fn items_indexable(v: ValueView) -> bool {
    forall|i: int| 0 <= i < indexed_items(v).len() ==> is_indexable(#[trigger] indexed_items(v)[i])
}

/// Everything in a document can be indexed.
pub open spec fn document_indexable(d: DocumentView) -> bool {
    forall|column: Seq<char>|
        d.attributes.dom().contains(column) ==> items_indexable(#[trigger] d.attributes[column])
}

/// `key` is the key of an item of the attribute in that column.
pub open spec fn is_item_key(column: Seq<char>, v: ValueView, i: int, key: Seq<u8>) -> bool {
    0 <= i < indexed_items(v).len() && key == attr_key_bytes(column, indexed_items(v)[i])
}

/// `key` is the key of some item of the document.
pub open spec fn document_has_key(d: DocumentView, key: Seq<u8>) -> bool {
    exists|column: Seq<char>, i: int|
        d.attributes.dom().contains(column) && #[trigger] is_item_key(
            column,
            d.attributes[column],
            i,
            key,
        )
}

/// The documents listed under a key.
pub open spec fn posting(docs: Map<IdView, DocumentView>, key: Seq<u8>) -> Set<IdView> {
    Set::new(
        |id: IdView|
            docs.dom().contains(id) && (key == all_docs_bytes() || document_has_key(docs[id], key)),
    )
}

/// The bytes of each of a list of keys.
pub open spec fn keys_view(keys: Seq<Vec<u8>>) -> Seq<Seq<u8>> {
    Seq::new(keys.len(), |i: int| keys[i]@)
}

/// The items of an attribute value that are indexed. Only a null has none; the
/// items of an array must be scalars.
pub fn indexable_values<'a>(value: &'a Value) -> (r: Result<Vec<&'a Value>, Error>)
    ensures
        match r {
            Ok(items) => {
                &&& items@.len() == indexed_items(value@).len()
                &&& forall|i: int|
                    0 <= i < items@.len() ==> (#[trigger] items@[i])@ == indexed_items(value@)[i]
                        && is_scalar(items@[i]@)
            },
            Err(e) => e is InvalidSchema && e->InvalidSchema_0@
                == "array attributes must contain indexable scalar values"@ && exists|i: int|
                0 <= i < indexed_items(value@).len() && !is_scalar(
                    #[trigger] indexed_items(value@)[i],
                ),
        },
{
    let mut out: Vec<&'a Value> = Vec::new();
    match value {
        Value::Null => {},
        Value::Array(values) => {
            let mut i: usize = 0;
            while i < values.len()
                invariant
                    i <= values@.len(),
                    *value == Value::Array(*values),
                    out@.len() == i,
                    forall|j: int|
                        0 <= j < i ==> (#[trigger] out@[j])@ == indexed_items(value@)[j]
                            && is_scalar(out@[j]@),
                decreases values@.len() - i,
            {
                assert(indexed_items(value@)[i as int] == values@[i as int]@);
                if !can_encode_scalar(&values[i]) {
                    return Err(
                        invalid_schema("array attributes must contain indexable scalar values"),
                    );
                }
                out.push(&values[i]);
                i = i + 1;
            }
        },
        _ => {
            out.push(value);
        },
    }
    Ok(out)
}

/// The keys of the items of one attribute.
fn attribute_keys(column: &str, value: &Value) -> (r: Result<Vec<Vec<u8>>, Error>)
    ensures
        match r {
            Ok(keys) => {
                &&& items_indexable(value@)
                &&& keys@.len() == indexed_items(value@).len()
                &&& forall|i: int|
                    0 <= i < keys@.len() ==> (#[trigger] keys@[i])@ == attr_key_bytes(
                        column@,
                        indexed_items(value@)[i],
                    )
            },
            Err(e) => !items_indexable(value@) && e is InvalidSchema,
        },
{
    let items = match indexable_values(value) {
        Ok(items) => items,
        Err(e) => {
            return Err(e);
        },
    };
    let mut keys: Vec<Vec<u8>> = Vec::new();
    let mut i: usize = 0;
    while i < items.len()
        invariant
            i <= items@.len(),
            items@.len() == indexed_items(value@).len(),
            forall|j: int|
                0 <= j < items@.len() ==> (#[trigger] items@[j])@ == indexed_items(value@)[j],
            keys@.len() == i,
            forall|j: int| 0 <= j < i ==> is_indexable(#[trigger] indexed_items(value@)[j]),
            forall|j: int|
                0 <= j < i ==> (#[trigger] keys@[j])@ == attr_key_bytes(
                    column@,
                    indexed_items(value@)[j],
                ),
        decreases items@.len() - i,
    {
        assert(items@[i as int]@ == indexed_items(value@)[i as int]);
        match attr_key(column, items[i]) {
            Ok(key) => {
                keys.push(key);
            },
            Err(e) => {
                return Err(e);
            },
        }
        i = i + 1;
    }
    Ok(keys)
}

/// `key` is among the keys of the first `n` attributes.
spec fn among_first(m: TextMap<Value>, n: int, key: Seq<u8>) -> bool {
    exists|c: int, i: int|
        0 <= c < n && #[trigger] is_item_key(m.keys()[c], m.values()[c]@, i, key)
}

/// The keys under which a document is listed.
pub fn document_keys(doc: &Document) -> (r: Result<Vec<Vec<u8>>, Error>)
    requires
        doc.wf(),
    ensures
        match r {
            Ok(keys) => {
                &&& document_indexable(doc@)
                &&& forall|key: Seq<u8>|
                    #[trigger] keys_view(keys@).contains(key) <==> document_has_key(doc@, key)
            },
            Err(e) => !document_indexable(doc@) && e is InvalidSchema,
        },
{
    let m = &doc.attributes;
    let mut out: Vec<Vec<u8>> = Vec::new();
    let mut c: usize = 0;
    while c < m.len()
        invariant
            c <= m.keys().len(),
            m.wf(),
            *m == doc.attributes,
            doc.wf(),
            forall|j: int| 0 <= j < c ==> items_indexable((#[trigger] m.values()[j])@),
            forall|key: Seq<u8>|
                #[trigger] keys_view(out@).contains(key) <==> among_first(*m, c as int, key),
        decreases m.keys().len() - c,
    {
        let ghost before = out@;
        let column = m.key_at(c);
        let value = m.value_at(c);
        let mut keys = match attribute_keys(column.as_str(), value) {
            Ok(keys) => keys,
            Err(e) => {
                proof {
                    m.lemma_position(c as int);
                    assert(doc@.attributes.dom().contains(column@));
                    assert(doc@.attributes[column@] == value@);
                }
                return Err(e);
            },
        };
        let ghost added = keys@;
        out.append(&mut keys);
        proof {
            assert(out@ =~= before + added);
            assert forall|key: Seq<u8>| #[trigger]
                keys_view(out@).contains(key) <==> among_first(*m, c + 1, key) by {
                if keys_view(out@).contains(key) {
                    let i = keys_view(out@).index_of(key);
                    if i < before.len() {
                        assert(keys_view(before)[i] == key);
                        assert(keys_view(before).contains(key));
                        let (c0, i0) = choose|c0: int, i0: int|
                            0 <= c0 < c && #[trigger] is_item_key(
                                m.keys()[c0],
                                m.values()[c0]@,
                                i0,
                                key,
                            );
                        assert(is_item_key(m.keys()[c0], m.values()[c0]@, i0, key));
                    } else {
                        let k = i - before.len();
                        assert(added[k]@ == key);
                        assert(is_item_key(m.keys()[c as int], m.values()[c as int]@, k, key));
                    }
                }
                if among_first(*m, c + 1, key) {
                    let (c0, i0) = choose|c0: int, i0: int|
                        0 <= c0 < c + 1 && #[trigger] is_item_key(
                            m.keys()[c0],
                            m.values()[c0]@,
                            i0,
                            key,
                        );
                    if c0 < c {
                        assert(among_first(*m, c as int, key));
                        assert(keys_view(before).contains(key));
                        let i = keys_view(before).index_of(key);
                        assert(keys_view(out@)[i] == key);
                    } else {
                        assert(added[i0]@ == key);
                        assert(keys_view(out@)[before.len() + i0] == key);
                    }
                }
            }
        }
        c = c + 1;
    }
    proof {
        assert forall|column: Seq<char>| doc@.attributes.dom().contains(column) implies
            items_indexable(#[trigger] doc@.attributes[column]) by {
            let j = m.keys().index_of(column);
            assert(m.values()[j]@ == doc@.attributes[column]);
        }
        assert forall|key: Seq<u8>| #[trigger] keys_view(out@).contains(key) <==> document_has_key(
            doc@,
            key,
        ) by {
            if among_first(*m, c as int, key) {
                let (c0, i0) = choose|c0: int, i0: int|
                    0 <= c0 < c && #[trigger] is_item_key(
                        m.keys()[c0],
                        m.values()[c0]@,
                        i0,
                        key,
                    );
                m.lemma_position(c0);
                let column = m.keys()[c0];
                assert(doc@.attributes.dom().contains(column));
                assert(is_item_key(column, doc@.attributes[column], i0, key));
            }
            if document_has_key(doc@, key) {
                let (column, i0) = choose|column: Seq<char>, i0: int|
                    doc@.attributes.dom().contains(column) && #[trigger] is_item_key(
                        column,
                        doc@.attributes[column],
                        i0,
                        key,
                    );
                let c0 = m.keys().index_of(column);
                assert(is_item_key(m.keys()[c0], m.values()[c0]@, i0, key));
            }
        }
    }
    Ok(out)
}

/// Lists of documents by key.
pub type Postings = SortedMap<Vec<u8>, SortedSet<Id>>;

/// The documents that lists have under a key.
pub open spec fn listed(p: Postings, key: Seq<u8>) -> Set<IdView> {
    if p.map().dom().contains(key) {
        p.map()[key].set()
    } else {
        Set::empty()
    }
}

/// Lists are in order, and none is empty.
pub open spec fn postings_wf(p: Postings) -> bool {
    &&& p.wf()
    &&& forall|key: Seq<u8>|
        p.map().dom().contains(key) ==> (#[trigger] p.map()[key]).wf() && exists|id: IdView|
            p.map()[key].set().contains(id)
}

/// Adds a document to the list under a key.
fn list_under(p: &mut Postings, key: Vec<u8>, id: &Id)
    requires
        postings_wf(*old(p)),
    ensures
        postings_wf(*final(p)),
        forall|k: Seq<u8>| #[trigger]
            listed(*final(p), k) == (if k == key@ {
                listed(*old(p), k).insert(id@)
            } else {
                listed(*old(p), k)
            }),
{
    let ghost k0 = key@;
    let mut set = match p.remove(&key) {
        Some(set) => set,
        None => SortedSet::new(),
    };
    set.insert(copy_id(id));
    assert(set.set().contains(id@));
    p.insert(key, set);
    proof {
        assert(p.map() == old(p).map().remove(k0).insert(k0, set));
        assert forall|k: Seq<u8>| p.map().dom().contains(k) implies (#[trigger] p.map()[k]).wf()
            && exists|id: IdView| p.map()[k].set().contains(id) by {
            if k != k0 {
                assert(p.map()[k] == old(p).map()[k]);
            }
        }
    }
}

/// The lists of the index of some documents: every document under the key of
/// each item of its attributes, and all of them together.
pub fn attr_postings(docs: &SortedMap<Id, Document>) -> (r: Result<Postings, Error>)
    requires
        docs.wf(),
        forall|i: int| 0 <= i < docs.values().len() ==> (#[trigger] docs.values()[i]).wf(),
    ensures
        ({
            let model = docs.map().map_values(|d: Document| d@);
            match r {
                Ok(p) => {
                    &&& forall|id: IdView|
                        model.dom().contains(id) ==> document_indexable(#[trigger] model[id])
                    &&& postings_wf(p)
                    &&& forall|key: Seq<u8>| #[trigger] listed(p, key) == posting(model, key)
                },
                Err(e) => e is InvalidSchema && exists|id: IdView|
                    model.dom().contains(id) && !document_indexable(#[trigger] model[id]),
            }
        }),
{
    let ghost model = docs.map().map_values(|d: Document| d@);
    let mut p: Postings = SortedMap::new();
    let mut i: usize = 0;
    assert forall|k: Seq<u8>| #[trigger] listed(p, k) == listed_first(*docs, 0, k) by {
        assert(listed(p, k) =~= listed_first(*docs, 0, k));
    }
    while i < docs.len()
        invariant
            i <= docs.keys().len(),
            docs.wf(),
            model == docs.map().map_values(|d: Document| d@),
            forall|j: int| 0 <= j < docs.values().len() ==> (#[trigger] docs.values()[j]).wf(),
            forall|j: int| 0 <= j < i ==> document_indexable((#[trigger] docs.values()[j])@),
            postings_wf(p),
            forall|k: Seq<u8>| #[trigger] listed(p, k) == listed_first(*docs, i as int, k),
        decreases docs.keys().len() - i,
    {
        let id = docs.key_at(i);
        let doc = docs.value_at(i);
        let ghost before = p;
        let keys = match document_keys(doc) {
            Ok(keys) => keys,
            Err(e) => {
                proof {
                    docs.lemma_position(i as int);
                    assert(!document_indexable(model[id@]));
                }
                return Err(e);
            },
        };
        list_under(&mut p, all_docs_key(), id);
        let ghost views = keys_view(keys@);
        let mut n: usize = 0;
        while n < keys.len()
            invariant
                n <= keys@.len(),
                views == keys_view(keys@),
                postings_wf(p),
                forall|k: Seq<u8>| #[trigger]
                    listed(p, k) == (if k == all_docs_bytes() || views.take(n as int).contains(k) {
                        listed(before, k).insert(id@)
                    } else {
                        listed(before, k)
                    }),
            decreases keys@.len() - n,
        {
            let ghost mid = p;
            let key = to_vec(keys[n].as_slice());
            list_under(&mut p, key, id);
            proof {
                let now = views.take(n + 1);
                let was = views.take(n as int);
                assert(now =~= was.push(key@));
                assert forall|k: Seq<u8>| #[trigger]
                    listed(p, k) == (if k == all_docs_bytes() || now.contains(k) {
                        listed(before, k).insert(id@)
                    } else {
                        listed(before, k)
                    }) by {
                    assert(listed(mid, k) == (if k == all_docs_bytes() || was.contains(k) {
                        listed(before, k).insert(id@)
                    } else {
                        listed(before, k)
                    }));
                    if was.contains(k) {
                        assert(now[was.index_of(k)] == k);
                    }
                    if now.contains(k) && k != key@ {
                        assert(was[now.index_of(k)] == k);
                    }
                    if k == key@ {
                        assert(now[n as int] == k);
                        assert(listed(before, k).insert(id@).insert(id@) =~= listed(
                            before,
                            k,
                        ).insert(id@));
                    }
                }
            }
            n = n + 1;
        }
        proof {
            assert(views.take(n as int) =~= views);
            assert forall|k: Seq<u8>| #[trigger] listed(p, k) == listed_first(
                *docs,
                i + 1,
                k,
            ) by {
                assert(listed(before, k) == listed_first(*docs, i as int, k));
                assert(views.contains(k) == document_has_key(doc@, k));
                assert forall|x: IdView| listed(p, k).contains(x) == listed_first(
                    *docs,
                    i + 1,
                    k,
                ).contains(x) by {
                    if listed_first(*docs, i + 1, k).contains(x) {
                        let j = choose|j: int|
                            0 <= j < i + 1 && #[trigger] docs.keys()[j] == x && (k
                                == all_docs_bytes() || document_has_key(docs.values()[j]@, k));
                        if j < i {
                            assert(listed_first(*docs, i as int, k).contains(x));
                        }
                    }
                    if listed(p, k).contains(x) {
                        if listed(before, k).contains(x) {
                            let j = choose|j: int|
                                0 <= j < i && #[trigger] docs.keys()[j] == x && (k
                                    == all_docs_bytes() || document_has_key(
                                    docs.values()[j]@,
                                    k,
                                ));
                            assert(docs.keys()[j] == x);
                        } else {
                            assert(docs.keys()[i as int] == x);
                        }
                    }
                }
                assert(listed(p, k) =~= listed_first(*docs, i + 1, k));
            }
        }
        i = i + 1;
    }
    proof {
        assert forall|id: IdView| model.dom().contains(id) implies document_indexable(
            #[trigger] model[id],
        ) by {
            let j = docs.keys().index_of(id);
            assert(docs.values()[j]@ == model[id]);
        }
        assert forall|k: Seq<u8>| #[trigger] listed(p, k) == posting(model, k) by {
            assert forall|x: IdView| listed_first(*docs, i as int, k).contains(x) == posting(
                model,
                k,
            ).contains(x) by {
                if listed_first(*docs, i as int, k).contains(x) {
                    let j = choose|j: int|
                        0 <= j < i && #[trigger] docs.keys()[j] == x && (k == all_docs_bytes()
                            || document_has_key(docs.values()[j]@, k));
                    docs.lemma_position(j);
                }
                if posting(model, k).contains(x) {
                    let j = docs.keys().index_of(x);
                    assert(docs.keys()[j] == x);
                    assert(docs.values()[j]@ == model[x]);
                }
            }
            assert(listed(p, k) =~= posting(model, k));
        }
    }
    Ok(p)
}

/// The documents listed under a key, of the first `n` documents.
spec fn listed_first(docs: SortedMap<Id, Document>, n: int, key: Seq<u8>) -> Set<IdView> {
    Set::new(
        |id: IdView|
            exists|j: int|
                0 <= j < n && #[trigger] docs.keys()[j] == id && (key == all_docs_bytes()
                    || document_has_key(docs.values()[j]@, key)),
    )
}

/// A built attribute index.
#[derive(Debug)]
pub struct BuiltAttrSst {
    pub bytes: Vec<u8>,
    pub entry_count: u64,
}

/// Writes the attribute index: one entry per list, in key order, each list in its
/// stored form. Without lists there is no index.
pub fn build_attr_sst(lists: &[Entry]) -> (r: Result<Option<BuiltAttrSst>, Error>)
    ensures
        ({
            let es = block::entries_view(lists@);
            match r {
                Ok(None) => es.len() == 0,
                Ok(Some(built)) => es.len() > 0 && writer::keys_sorted(es) && writer::keys_short(es) && writer::is_table_of(
                    built.bytes@,
                    es,
                ) && built.entry_count == es.len(),
                Err(e) => es.len() > 0 && {
                    ||| !writer::keys_sorted(es) && e is Corrupt
                    ||| !writer::keys_short(es) && e is InvalidWrite
                    ||| es.len() > u32::MAX && e is InvalidWrite
                },
            }
        }),
{
    let count: usize = lists.len();
    if count == 0 {
        return Ok(None);
    }
    match write_table(lists) {
        Ok(bytes) => Ok(Some(BuiltAttrSst { bytes, entry_count: count as u64 })),
        Err(e) => Err(e),
    }
}

// ---------------------------------------------------------------------------
// Reading the index
// ---------------------------------------------------------------------------

/// One end of a range of values.
#[derive(Clone, Copy)]
pub struct AttrBound<'a> {
    pub value: &'a Value,
    pub inclusive: bool,
}

/// What a bound stands for.
pub struct BoundView {
    pub value: ValueView,
    pub inclusive: bool,
}

pub open spec fn bound_view(b: Option<AttrBound<'_>>) -> Option<BoundView> {
    match b {
        None => None,
        Some(b) => Some(BoundView { value: b.value@, inclusive: b.inclusive }),
    }
}

/// A value is at or, unless the bound is inclusive, strictly above a lower bound.
pub open spec fn meets_lower(v: ValueView, bound: Option<BoundView>) -> bool {
    match bound {
        None => true,
        Some(b) => match value::scalar_order(v, b.value) {
            Some(Order::Greater) => true,
            Some(Order::Equal) => b.inclusive,
            _ => false,
        },
    }
}

/// A value is at or, unless the bound is inclusive, strictly below an upper bound.
pub open spec fn meets_upper(v: ValueView, bound: Option<BoundView>) -> bool {
    match bound {
        None => true,
        Some(b) => match value::scalar_order(v, b.value) {
            Some(Order::Less) => true,
            Some(Order::Equal) => b.inclusive,
            _ => false,
        },
    }
}

/// Whether a value lies between two bounds.
pub fn range_bound_matches(
    value: &Value,
    lower: Option<AttrBound<'_>>,
    upper: Option<AttrBound<'_>>,
) -> (b: bool)
    ensures
        b == (meets_lower(value@, bound_view(lower)) && meets_upper(value@, bound_view(upper))),
{
    if let Some(bound) = lower {
        match compare_scalars(value, bound.value) {
            Some(Order::Greater) => {},
            Some(Order::Equal) => {
                if !bound.inclusive {
                    return false;
                }
            },
            _ => {
                return false;
            },
        }
    }
    if let Some(bound) = upper {
        match compare_scalars(value, bound.value) {
            Some(Order::Less) => {},
            Some(Order::Equal) => {
                if !bound.inclusive {
                    return false;
                }
            },
            _ => {
                return false;
            },
        }
    }
    true
}

/// `key` starts with `prefix`.
pub open spec fn starts_with_bytes(key: Seq<u8>, prefix: Seq<u8>) -> bool {
    key.len() >= prefix.len() && key.take(prefix.len() as int) == prefix
}

/// Whether a range takes an entry: `None` if the entry is damaged.
pub open spec fn takes_key(
    key: Seq<u8>,
    prefix: Seq<u8>,
    lower: Option<BoundView>,
    upper: Option<BoundView>,
) -> Option<bool> {
    if !starts_with_bytes(key, prefix) {
        Some(false)
    } else {
        match scalar_of_bytes(key.skip(prefix.len() as int)) {
            None => None,
            Some(None) => Some(false),
            Some(Some(v)) => Some(meets_lower(v, lower) && meets_upper(v, upper)),
        }
    }
}

/// The lists that a range takes, in key order; `None` if an entry on the way is
/// damaged.
pub open spec fn lists_taken(
    es: Seq<(Seq<u8>, Seq<u8>)>,
    prefix: Seq<u8>,
    lower: Option<BoundView>,
    upper: Option<BoundView>,
) -> Option<Seq<Seq<u8>>>
    decreases es.len(),
{
    if es.len() == 0 {
        Some(Seq::empty())
    } else {
        match (
            lists_taken(es.drop_last(), prefix, lower, upper),
            takes_key(es.last().0, prefix, lower, upper),
        ) {
            (Some(lists), Some(true)) => Some(lists.push(es.last().1)),
            (Some(lists), Some(false)) => Some(lists),
            _ => None,
        }
    }
}

proof fn lemma_taken_none(
    es: Seq<(Seq<u8>, Seq<u8>)>,
    n: int,
    prefix: Seq<u8>,
    lower: Option<BoundView>,
    upper: Option<BoundView>,
)
    requires
        0 <= n <= es.len(),
        lists_taken(es.take(n), prefix, lower, upper) is None,
    ensures
        lists_taken(es, prefix, lower, upper) is None,
    decreases es.len() - n,
{
    if n == es.len() {
        assert(es.take(n) =~= es);
    } else {
        assert(es.take(n + 1).drop_last() =~= es.take(n));
        lemma_taken_none(es, n + 1, prefix, lower, upper);
    }
}

/// The stored lists that together hold every document with a value of the column
/// between two bounds. Bounds that are not scalars give no answer.
pub fn ids_for_range(
    reader: &SstReader,
    column: &str,
    lower: Option<AttrBound<'_>>,
    upper: Option<AttrBound<'_>>,
) -> (r: Result<Option<Vec<Vec<u8>>>, Error>)
    ensures
        ({
            let low = bound_view(lower);
            let high = bound_view(upper);
            if (low is Some && !is_scalar(low->Some_0.value)) || (high is Some && !is_scalar(
                high->Some_0.value,
            )) {
                r is Ok && r->Ok_0 is None
            } else {
                match reader::blocks_entries(reader.data(), reader.index()) {
                    None => r is Err && r->Err_0 is Corrupt,
                    Some(es) => match lists_taken(es, column_prefix(column@), low, high) {
                        None => r is Err && r->Err_0 is Corrupt,
                        Some(lists) => r is Ok && r->Ok_0 is Some && keys_view(r->Ok_0->Some_0@)
                            == lists,
                    },
                }
            }
        }),
{
    if let Some(bound) = lower {
        if !can_encode_scalar(bound.value) {
            return Ok(None);
        }
    }
    if let Some(bound) = upper {
        if !can_encode_scalar(bound.value) {
            return Ok(None);
        }
    }
    let prefix = attr_column_prefix(column);
    let entries = match reader.entries() {
        Ok(entries) => entries,
        Err(e) => {
            return Err(e);
        },
    };
    let ghost es = block::entries_view(entries@);
    let ghost low = bound_view(lower);
    let ghost high = bound_view(upper);
    let mut out: Vec<Vec<u8>> = Vec::new();
    let mut i: usize = 0;
    assert(es.take(0) =~= Seq::empty());
    assert(keys_view(out@) =~= Seq::empty());
    while i < entries.len()
        invariant
            i <= entries@.len(),
            es == block::entries_view(entries@),
            low == bound_view(lower),
            high == bound_view(upper),
            prefix@ == column_prefix(column@),
            reader::blocks_entries(reader.data(), reader.index()) == Some(es),
            low is Some ==> is_scalar(low->Some_0.value),
            high is Some ==> is_scalar(high->Some_0.value),
            lists_taken(es.take(i as int), prefix@, low, high) == Some(keys_view(out@)),
        decreases entries@.len() - i,
    {
        let ghost front = es.take(i + 1);
        assert(front.drop_last() =~= es.take(i as int));
        assert(front.last() == es[i as int]);
        let key = &entries[i].0;
        let n: usize = prefix.len();
        let len: usize = key.len();
        assert(es[i as int].0 == key@);
        if len >= n {
            assert(key@.subrange(0, n as int) =~= key@.take(n as int));
            if same_bytes(slice_of(key.as_slice(), 0, n), prefix.as_slice()) {
                assert(key@.subrange(n as int, len as int) =~= key@.skip(n as int));
                match decode_value_from_key(slice_of(key.as_slice(), n, len)) {
                    Err(e) => {
                        proof {
                            lemma_taken_none(es, i + 1, prefix@, low, high);
                        }
                        return Err(e);
                    },
                    Ok(None) => {},
                    Ok(Some(value)) => {
                        if range_bound_matches(&value, lower, upper) {
                            let ghost before = keys_view(out@);
                            let list = to_vec(entries[i].1.as_slice());
                            out.push(list);
                            assert(keys_view(out@) =~= before.push(es[i as int].1));
                        }
                    },
                }
            }
        }
        i = i + 1;
    }
    assert(es.take(i as int) =~= es);
    Ok(Some(out))
}

/// The stored lists that together hold every document whose value in the column
/// equals `value`. A number is looked up as the range of the numbers equal to it,
/// since an integer and a float that are equal have different keys; other scalars
/// have one key. Nulls and arrays give no answer.
pub fn ids_for_eq(reader: &SstReader, column: &str, value: &Value) -> (r: Result<
    Option<Vec<Vec<u8>>>,
    Error,
>)
    ensures
        ({
            let v = value@;
            let bound = Some(BoundView { value: v, inclusive: true });
            if v is Int || v is Float {
                match reader::blocks_entries(reader.data(), reader.index()) {
                    None => r is Err && r->Err_0 is Corrupt,
                    Some(es) => match lists_taken(es, column_prefix(column@), bound, bound) {
                        None => r is Err && r->Err_0 is Corrupt,
                        Some(lists) => r is Ok && r->Ok_0 is Some && keys_view(r->Ok_0->Some_0@)
                            == lists,
                    },
                }
            } else if !is_scalar(v) {
                r is Ok && r->Ok_0 is None
            } else {
                match reader::table_get(reader.data(), reader.index(), attr_key_bytes(column@, v)) {
                    None => r is Err && r->Err_0 is Corrupt,
                    Some(None) => r is Ok && r->Ok_0 is Some && keys_view(r->Ok_0->Some_0@)
                        == Seq::<Seq<u8>>::empty(),
                    Some(Some(list)) => r is Ok && r->Ok_0 is Some && keys_view(r->Ok_0->Some_0@)
                        == seq![list],
                }
            }
        }),
{
    let numeric = match value {
        Value::Int(_) => true,
        Value::Float(_) => true,
        _ => false,
    };
    if numeric {
        let bound = AttrBound { value, inclusive: true };
        return ids_for_range(reader, column, Some(bound), Some(bound));
    }
    if !can_encode_scalar(value) {
        return Ok(None);
    }
    let key = match attr_key(column, value) {
        Ok(key) => key,
        Err(e) => {
            return Err(e);
        },
    };
    match reader.get(key.as_slice()) {
        Err(e) => Err(e),
        Ok(None) => {
            let out: Vec<Vec<u8>> = Vec::new();
            assert(keys_view(out@) =~= Seq::empty());
            Ok(Some(out))
        },
        Ok(Some(list)) => {
            let mut out: Vec<Vec<u8>> = Vec::new();
            let ghost view = list@;
            out.push(list);
            assert(keys_view(out@) =~= seq![view]);
            Ok(Some(out))
        },
    }
}

/// The stored list of all documents, if there is one.
pub fn all_ids(reader: &SstReader) -> (r: Result<Option<Vec<u8>>, Error>)
    ensures
        match reader::table_get(reader.data(), reader.index(), all_docs_bytes()) {
            None => r is Err && r->Err_0 is Corrupt,
            Some(None) => r is Ok && r->Ok_0 is None,
            Some(Some(v)) => r is Ok && r->Ok_0 is Some && r->Ok_0->Some_0@ == v,
        },
{
    reader.get(all_docs_key().as_slice())
}

/// A lookup by equality takes the list under `key`.
pub open spec fn eq_takes(key: Seq<u8>, column: Seq<char>, v: ValueView) -> bool {
    if v is Int || v is Float {
        let bound = Some(BoundView { value: v, inclusive: true });
        takes_key(key, column_prefix(column), bound, bound) == Some(true)
    } else {
        is_scalar(v) && key == attr_key_bytes(column, v)
    }
}

/// A key starts with the prefix of its column, and the bytes of the value follow.
pub proof fn lemma_prefix_of_key(column: Seq<char>, v: ValueView)
    ensures
        starts_with_bytes(attr_key_bytes(column, v), column_prefix(column)),
        attr_key_bytes(column, v).skip(column_prefix(column).len() as int) == scalar_bytes(v),
{
    let key = attr_key_bytes(column, v);
    let p = column_prefix(column);
    assert(key.take(p.len() as int) =~= p);
    assert(key.skip(p.len() as int) =~= scalar_bytes(v));
}

/// Only the keys of a column start with what the keys of that column start with.
pub proof fn lemma_column_prefix_unique(c: Seq<char>, d: Seq<char>, v: ValueView)
    requires
        encode_utf8(c).len() <= u32::MAX,
        encode_utf8(d).len() <= u32::MAX,
        starts_with_bytes(attr_key_bytes(d, v), column_prefix(c)),
    ensures
        c == d,
{
    let key = attr_key_bytes(d, v);
    let x = encode_utf8(c);
    let y = encode_utf8(d);
    codec::lemma_byte_range();
    codec::lemma_be_round_trip(x.len(), 4);
    codec::lemma_be_round_trip(y.len(), 4);
    let p = column_prefix(c);
    assert(key.take(p.len() as int) == p);
    assert forall|i: int| 0 <= i < 4 implies codec::be_bytes(x.len(), 4)[i] == codec::be_bytes(y.len(), 4)[i] by {
        assert(p[1 + i] == codec::be_bytes(x.len(), 4)[i]);
        assert(key[1 + i] == codec::be_bytes(y.len(), 4)[i]);
        assert(key.take(p.len() as int)[1 + i] == key[1 + i]);
    }
    assert(codec::be_bytes(x.len(), 4) =~= codec::be_bytes(y.len(), 4));
    assert(x.len() == y.len());
    assert forall|i: int| 0 <= i < x.len() implies x[i] == y[i] by {
        assert(p[5 + i] == x[i]);
        assert(key[5 + i] == y[i]);
        assert(key.take(p.len() as int)[5 + i] == key[5 + i]);
    }
    assert(x =~= y);
    strings::lemma_encoding_injective(c, d);
}

/// A lookup by equality takes the list of a value exactly if the value is in that
/// column and equal to the one looked for, an integer and a float included. So no
/// document that the comparison would accept is left out.
pub proof fn law_eq_lookup_is_exact(
    column: Seq<char>,
    wanted: ValueView,
    other: Seq<char>,
    stored: ValueView,
)
    requires
        encode_utf8(column).len() <= u32::MAX,
        encode_utf8(other).len() <= u32::MAX,
        is_scalar(wanted),
        is_indexable(stored),
    ensures
        eq_takes(attr_key_bytes(other, stored), column, wanted) <==> other == column
            && value::scalars_equal(stored, wanted),
{
    let key = attr_key_bytes(other, stored);
    let p = column_prefix(column);
    law_scalar_round_trips(stored);
    law_scalar_round_trips(wanted);
    lemma_prefix_of_key(other, stored);
    lemma_prefix_of_key(column, wanted);
    if starts_with_bytes(key, p) {
        lemma_column_prefix_unique(column, other, stored);
    }
    if !(wanted is Int || wanted is Float) {
        if key == attr_key_bytes(column, wanted) {
            assert(starts_with_bytes(key, p));
            assert(scalar_bytes(stored) == scalar_bytes(wanted));
        }
    }
}

/// A document is found under the key of every item of its attributes.
pub proof fn law_documents_are_listed(
    docs: Map<IdView, DocumentView>,
    id: IdView,
    column: Seq<char>,
    i: int,
)
    requires
        docs.dom().contains(id),
        docs[id].attributes.dom().contains(column),
        0 <= i < indexed_items(docs[id].attributes[column]).len(),
    ensures
        posting(docs, attr_key_bytes(column, indexed_items(docs[id].attributes[column])[i])).contains(
            id,
        ),
        posting(docs, all_docs_bytes()).contains(id),
{
    let key = attr_key_bytes(column, indexed_items(docs[id].attributes[column])[i]);
    assert(is_item_key(column, docs[id].attributes[column], i, key));
}

} // verus!
