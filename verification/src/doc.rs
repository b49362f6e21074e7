//! Documents in tables: how a key becomes bytes that sort as keys do, and what a
//! table holds for a key.

use vstd::prelude::*;
use vstd::string::*;
use vstd::utf8::*;

use crate::value;
use crate::strings;
use crate::order;
use crate::codec;
use crate::codec::{append, get_u64_be, put_u64_be, slice_of, to_vec};
use crate::error::{corrupt, Error};
use crate::strings::text_from_utf8;
use crate::value::{Document, DocumentView, Id, IdView};

verus! {

pub const TAG_U64: u8 = 0;

pub const TAG_UUID: u8 = 1;

pub const TAG_STRING: u8 = 2;

/// The bytes of a key: its kind, then the number, most significant byte first,
/// the identifier, or the text.
pub open spec fn id_bytes(id: IdView) -> Seq<u8> {
    match id {
        IdView::U64(v) => seq![TAG_U64] + codec::be_bytes(v as nat, 8),
        IdView::Uuid(u) => seq![TAG_UUID] + u,
        IdView::String(s) => seq![TAG_STRING] + encode_utf8(s),
    }
}

/// The key that bytes stand for. What follows a number or an identifier is not
/// looked at.
pub open spec fn id_of_bytes(bytes: Seq<u8>) -> Option<IdView> {
    if bytes.len() == 0 {
        None
    } else if bytes[0] == TAG_U64 {
        if bytes.len() < 9 {
            None
        } else {
            Some(IdView::U64(codec::be_value(bytes.subrange(1, 9)) as u64))
        }
    } else if bytes[0] == TAG_UUID {
        if bytes.len() < 17 {
            None
        } else {
            Some(IdView::Uuid(bytes.subrange(1, 17)))
        }
    } else if bytes[0] == TAG_STRING {
        let text = bytes.subrange(1, bytes.len() as int);
        if valid_utf8(text) {
            Some(IdView::String(decode_utf8(text)))
        } else {
            None
        }
    } else {
        None
    }
}

/// The bytes of a key.
pub fn encode_id(id: &Id) -> (bytes: Vec<u8>)
    ensures
        bytes@ == id_bytes(id@),
{
    let mut b: Vec<u8> = Vec::new();
    match id {
        Id::U64(v) => {
            b.push(TAG_U64);
            put_u64_be(&mut b, *v);
        },
        Id::Uuid(u) => {
            b.push(TAG_UUID);
            append(&mut b, u.as_slice());
        },
        Id::String(s) => {
            b.push(TAG_STRING);
            append(&mut b, s.as_str().as_bytes());
        },
    }
    assert(b@ =~= id_bytes(id@));
    b
}

/// The key that bytes stand for; bytes that stand for none are corrupt.
pub fn decode_id(bytes: &[u8]) -> (r: Result<Id, Error>)
    ensures
        match r {
            Ok(id) => id_of_bytes(bytes@) == Some(id@),
            Err(e) => id_of_bytes(bytes@) is None && e is Corrupt,
        },
{
    let len: usize = bytes.len();
    if len == 0 {
        return Err(corrupt("unknown doc id tag"));
    }
    let tag = bytes[0];
    if tag == TAG_U64 {
        if len < 9 {
            return Err(corrupt("doc id u64 truncated"));
        }
        Ok(Id::U64(get_u64_be(bytes, 1)))
    } else if tag == TAG_UUID {
        if len < 17 {
            return Err(corrupt("doc id uuid truncated"));
        }
        let mut u: [u8; 16] = [0; 16];
        let mut i: usize = 0;
        while i < 16
            invariant
                i <= 16,
                bytes@.len() >= 17,
                forall|j: int| 0 <= j < i ==> #[trigger] u@[j] == bytes@[j + 1],
            decreases 16 - i,
        {
            u[i] = bytes[i + 1];
            i = i + 1;
        }
        assert(u@ =~= bytes@.subrange(1, 17));
        Ok(Id::Uuid(u))
    } else if tag == TAG_STRING {
        match text_from_utf8(to_vec(slice_of(bytes, 1, len))) {
            Some(s) => Ok(Id::String(s)),
            None => Err(corrupt("doc id string not utf-8")),
        }
    } else {
        Err(corrupt("unknown doc id tag"))
    }
}

/// A key that an exec value can hold: an identifier has sixteen bytes.
pub open spec fn is_id(id: IdView) -> bool {
    id is Uuid ==> id->Uuid_0.len() == 16
}

/// A key read back from its bytes is the same key.
pub proof fn law_id_round_trips(id: IdView)
    requires
        is_id(id),
    ensures
        id_of_bytes(id_bytes(id)) == Some(id),
{
    let b = id_bytes(id);
    match id {
        IdView::U64(v) => {
            codec::lemma_byte_range();
            codec::lemma_be_round_trip(v as nat, 8);
            assert(b.subrange(1, 9) =~= codec::be_bytes(v as nat, 8));
        },
        IdView::Uuid(u) => {
            assert(b.subrange(1, 17) =~= u);
        },
        IdView::String(s) => {
            assert(b.subrange(1, b.len() as int) =~= encode_utf8(s));
            encode_utf8_valid_utf8(s);
            encode_utf8_decode_utf8(s);
        },
    }
}

/// The bytes of two keys sort as the keys do.
pub proof fn law_id_bytes_keep_order(a: IdView, b: IdView)
    requires
        is_id(a),
        is_id(b),
    ensures
        order::lex_order(id_bytes(a), id_bytes(b)) == value::id_order(a, b),
        id_bytes(a) == id_bytes(b) <==> a == b,
{
    let x = id_bytes(a);
    let y = id_bytes(b);
    if a == b {
        order::lemma_lex_irreflexive(x);
        match (a, b) {
            (IdView::Uuid(p), IdView::Uuid(q)) => {
                order::lemma_lex_irreflexive(p);
            },
            _ => {},
        }
    } else {
        law_id_round_trips(a);
        law_id_round_trips(b);
        assert(x != y);
        order::lemma_lex_total(x, y);
        match (a, b) {
            (IdView::U64(p), IdView::U64(q)) => {
                codec::lemma_byte_range();
                if p < q {
                    codec::lemma_be_order(p as nat, q as nat, 8);
                    order::lemma_lex_prefix(seq![TAG_U64], codec::be_bytes(p as nat, 8), codec::be_bytes(q as nat, 8));
                } else {
                    codec::lemma_be_order(q as nat, p as nat, 8);
                    order::lemma_lex_prefix(seq![TAG_U64], codec::be_bytes(q as nat, 8), codec::be_bytes(p as nat, 8));
                }
            },
            (IdView::Uuid(p), IdView::Uuid(q)) => {
                order::lemma_lex_total(p, q);
                order::lemma_lex_prefix(seq![TAG_UUID], p, q);
                order::lemma_lex_prefix(seq![TAG_UUID], q, p);
            },
            (IdView::String(p), IdView::String(q)) => {
                if encode_utf8(p) == encode_utf8(q) {
                    strings::lemma_encoding_injective(p, q);
                }
                order::lemma_lex_total(encode_utf8(p), encode_utf8(q));
                order::lemma_lex_prefix(seq![TAG_STRING], encode_utf8(p), encode_utf8(q));
                order::lemma_lex_prefix(seq![TAG_STRING], encode_utf8(q), encode_utf8(p));
            },
            _ => {
                assert(x[0] != y[0]);
                order::lemma_shared_len(x, y);
                order::lemma_shared_len(y, x);
            },
        }
    }
}

/// What a table holds for a key: a document, or that it was deleted. A deletion
/// stays in newer tables so that it hides older ones.
#[derive(Debug)]
pub enum DocRecord {
    Present(Document),
    Deleted,
}

/// What a record stands for: the document it holds, if it holds one.
pub open spec fn record_view(r: DocRecord) -> Option<DocumentView> {
    match r {
        DocRecord::Present(d) => Some(d@),
        DocRecord::Deleted => None,
    }
}

} // verus!
