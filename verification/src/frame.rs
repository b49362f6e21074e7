//! The envelope around every self-describing object: an eight-byte magic, a
//! format version, the body's length and its checksum, then the body.

use vstd::prelude::*;

use crate::phrase::say;
use crate::codec;
use crate::checksum;
use crate::checksum::crc32;
use crate::codec::{append, get_u32_le, put_u32_le, slice_of};
use crate::error::{invalid_write, Error};
use crate::order::same_bytes;
use crate::strings;
use crate::strings::{text2, text3};

verus! {

pub const HEADER_LEN: usize = 20;

/// The envelope of a body.
pub open spec fn framed(magic: Seq<u8>, version: u32, body: Seq<u8>) -> Seq<u8> {
    magic + codec::le_bytes(version as nat, 4) + codec::le_bytes(body.len(), 4) + codec::le_bytes(
        checksum::crc32_of(body) as nat,
        4,
    ) + body
}

/// `bytes` is the envelope of some body.
pub open spec fn is_framed(bytes: Seq<u8>, magic: Seq<u8>, version: u32) -> bool {
    &&& bytes.len() >= HEADER_LEN
    &&& bytes.len() - HEADER_LEN <= u32::MAX
    &&& bytes == framed(magic, version, frame_body(bytes))
}

/// What follows the header.
pub open spec fn frame_body(bytes: Seq<u8>) -> Seq<u8> {
    bytes.subrange(HEADER_LEN as int, bytes.len() as int)
}

/// Puts a body in its envelope. A body whose length does not fit four bytes is
/// refused.
pub fn encode(magic: &[u8; 8], version: u32, body: &[u8]) -> (r: Result<Vec<u8>, Error>)
    ensures
        match r {
            Ok(bytes) => body@.len() <= u32::MAX && bytes@ == framed(magic@, version, body@),
            Err(e) => body@.len() > u32::MAX && e is InvalidWrite && e->InvalidWrite_0@
                == "framed object body exceeds the u32 format limit: out of range integral type conversion attempted"@,
        },
{
    let len: usize = body.len();
    if len > 0xffff_ffff {
        return Err(
            invalid_write(
                "framed object body exceeds the u32 format limit: out of range integral type conversion attempted",
            ),
        );
    }
    let crc: u32 = crc32(body);
    let mut out: Vec<u8> = Vec::new();
    append(&mut out, magic.as_slice());
    put_u32_le(&mut out, version);
    put_u32_le(&mut out, len as u32);
    put_u32_le(&mut out, crc);
    append(&mut out, body);
    assert(out@ =~= framed(magic@, version, body@));
    Ok(out)
}

proof fn lemma_frame_parts(magic: Seq<u8>, version: u32, body: Seq<u8>)
    requires
        magic.len() == 8,
    ensures
        framed(magic, version, body).len() == 20 + body.len(),
        framed(magic, version, body).subrange(0, 8) == magic,
        framed(magic, version, body).subrange(8, 12) == codec::le_bytes(version as nat, 4),
        framed(magic, version, body).subrange(12, 16) == codec::le_bytes(body.len(), 4),
        framed(magic, version, body).subrange(16, 20) == codec::le_bytes(checksum::crc32_of(body) as nat, 4),
        frame_body(framed(magic, version, body)) == body,
{
    codec::lemma_le_len(version as nat, 4);
    codec::lemma_le_len(body.len(), 4);
    codec::lemma_le_len(checksum::crc32_of(body) as nat, 4);
    let f = framed(magic, version, body);
    assert(f.subrange(0, 8) =~= magic);
    assert(f.subrange(8, 12) =~= codec::le_bytes(version as nat, 4));
    assert(f.subrange(12, 16) =~= codec::le_bytes(body.len(), 4));
    assert(f.subrange(16, 20) =~= codec::le_bytes(checksum::crc32_of(body) as nat, 4));
    assert(frame_body(f) =~= body);
}

/// A header that agrees with its body is the envelope of that body.
proof fn lemma_frame_whole(bytes: Seq<u8>, magic: Seq<u8>, version: u32)
    requires
        bytes.len() >= 20,
        bytes.len() - 20 <= u32::MAX,
        bytes.subrange(0, 8) == magic,
        codec::le_value(bytes.subrange(8, 12)) == version as nat,
        codec::le_value(bytes.subrange(12, 16)) == bytes.len() - 20,
        codec::le_value(bytes.subrange(16, 20)) == checksum::crc32_of(frame_body(bytes)) as nat,
    ensures
        is_framed(bytes, magic, version),
{
    codec::lemma_le_value_bytes(bytes.subrange(8, 12));
    codec::lemma_le_value_bytes(bytes.subrange(12, 16));
    codec::lemma_le_value_bytes(bytes.subrange(16, 20));
    let body = frame_body(bytes);
    assert(body.len() == bytes.len() - 20);
    assert(bytes =~= bytes.subrange(0, 8) + bytes.subrange(8, 12) + bytes.subrange(12, 16)
        + bytes.subrange(16, 20) + body);
}

/// What is wrong with bytes that are not the envelope of a body under this magic and
/// version.
pub open spec fn frame_complaint(bytes: Seq<u8>, magic: Seq<u8>, version: u32, what: Seq<char>) -> Seq<
    char,
> {
    if bytes.len() < HEADER_LEN {
        what + " frame shorter than header"@
    } else if bytes.subrange(0, 8) != magic {
        "bad "@ + what + " magic"@
    } else if codec::le_value(bytes.subrange(8, 12)) != version {
        "unsupported "@ + what + " version "@ + strings::decimal(
            codec::le_value(bytes.subrange(8, 12)),
        )
    } else if codec::le_value(bytes.subrange(12, 16)) != bytes.len() - HEADER_LEN {
        what + " frame length does not match its body length"@
    } else {
        what + " crc mismatch"@
    }
}

/// Takes a body out of its envelope. What is not the envelope of a body under
/// this magic and version is refused as corrupt. `what` names the object in the
/// message.
pub fn decode<'a>(bytes: &'a [u8], magic: &[u8; 8], version: u32, what: &str) -> (r: Result<
    &'a [u8],
    Error,
>)
    ensures
        match r {
            Ok(body) => is_framed(bytes@, magic@, version) && body@ == frame_body(bytes@),
            Err(e) => !is_framed(bytes@, magic@, version) && e is Corrupt && e->Corrupt_0@
                == frame_complaint(bytes@, magic@, version, what@),
        },
{
    let len: usize = bytes.len();
    proof {
        codec::lemma_byte_range();
        if is_framed(bytes@, magic@, version) {
            lemma_frame_parts(magic@, version, frame_body(bytes@));
            codec::lemma_le_round_trip(version as nat, 4);
            codec::lemma_le_round_trip(frame_body(bytes@).len(), 4);
            codec::lemma_le_round_trip(checksum::crc32_of(frame_body(bytes@)) as nat, 4);
        }
    }
    if len < HEADER_LEN {
        return Err(damaged(what, " frame shorter than header"));
    }
    if !same_bytes(slice_of(bytes, 0, 8), magic.as_slice()) {
        return Err(Error::Corrupt(text3("bad ", what, " magic")));
    }
    let got: u32 = get_u32_le(bytes, 8);
    if got != version {
        return Err(
            Error::Corrupt(
                say("unsupported ").and(what).and(" version ").number(got as u64).done(),
            ),
        );
    }
    let body_len: u32 = get_u32_le(bytes, 12);
    let crc: u32 = get_u32_le(bytes, 16);
    if len - HEADER_LEN != body_len as usize {
        return Err(damaged(what, " frame length does not match its body length"));
    }
    let body = slice_of(bytes, HEADER_LEN, len);
    if crc32(body) != crc {
        return Err(damaged(what, " crc mismatch"));
    }
    proof {
        lemma_frame_whole(bytes@, magic@, version);
    }
    Ok(body)
}

fn damaged(what: &str, how: &str) -> (e: Error)
    ensures
        e is Corrupt,
        e->Corrupt_0@ == what@ + how@,
{
    Error::Corrupt(text2(what, how))
}

/// What was put in an envelope comes out of it, and only under the same magic and
/// version.
pub proof fn law_frame_round_trips(magic: Seq<u8>, version: u32, body: Seq<u8>, other_magic: Seq<u8>, other_version: u32)
    requires
        magic.len() == 8,
        other_magic.len() == 8,
        body.len() <= u32::MAX,
    ensures
        is_framed(framed(magic, version, body), magic, version),
        frame_body(framed(magic, version, body)) == body,
        is_framed(framed(magic, version, body), other_magic, other_version) ==> other_magic == magic
            && other_version == version,
{
    lemma_frame_parts(magic, version, body);
    if is_framed(framed(magic, version, body), other_magic, other_version) {
        lemma_frame_parts(other_magic, other_version, body);
        codec::lemma_byte_range();
        codec::lemma_le_round_trip(version as nat, 4);
        codec::lemma_le_round_trip(other_version as nat, 4);
    }
}

/// Bytes added behind an envelope are noticed.
pub proof fn law_frame_rejects_trailing_bytes(magic: Seq<u8>, version: u32, body: Seq<u8>, more: Seq<u8>)
    requires
        magic.len() == 8,
        body.len() <= u32::MAX,
        more.len() > 0,
    ensures
        !is_framed(framed(magic, version, body) + more, magic, version),
{
    let f = framed(magic, version, body);
    let g = f + more;
    lemma_frame_parts(magic, version, body);
    if is_framed(g, magic, version) {
        lemma_frame_parts(magic, version, frame_body(g));
        codec::lemma_byte_range();
        codec::lemma_le_round_trip(body.len(), 4);
        codec::lemma_le_round_trip(frame_body(g).len(), 4);
        assert(g.subrange(12, 16) =~= f.subrange(12, 16));
    }
}

} // verus!
