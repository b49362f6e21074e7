//! Data blocks: prefix-compressed entries followed by a restart array.

use vstd::prelude::*;

use crate::sst::varint;
use crate::codec;
use crate::checksum;
use crate::checksum::crc32;
use crate::codec::{append, get_u32_le, put_u32_le, slice_of, to_vec};
use crate::error::{corrupt, Error};
use crate::order;
use crate::order::common_prefix;
use crate::sst::varint::{get_uvarint, put_uvarint};

verus! {
/// A key and its value.
pub type Entry = (Vec<u8>, Vec<u8>);

/// The bytes of an entry.
pub open spec fn entry_view(e: Entry) -> (Seq<u8>, Seq<u8>) {
    (e.0@, e.1@)
}

/// The bytes of each of a list of entries.
pub open spec fn entries_view(es: Seq<Entry>) -> Seq<(Seq<u8>, Seq<u8>)> {
    Seq::new(es.len(), |i: int| entry_view(es[i]))
}

/// What is said of a length or offset that does not fit the field it is stored in.
pub open spec fn limit_words(field: Seq<char>) -> Seq<char> {
    "sst "@ + field + " exceeds u32 format limit"@
}

/// A length or offset as the four-byte field that the format stores it in.
pub fn checked_u32(value: usize, field: &str) -> (r: Result<u32, Error>)
    ensures
        value <= u32::MAX ==> r is Ok && r->Ok_0 == value,
        value > u32::MAX ==> r is Err && r->Err_0 is InvalidWrite && r->Err_0->InvalidWrite_0@
            == limit_words(field@),
{
    if value <= 0xffff_ffff {
        Ok(value as u32)
    } else {
        let mut text = "sst ".to_owned();
        text.append(field);
        text.append(" exceeds u32 format limit");
        Err(Error::InvalidWrite(text))
    }
}

/// A length as the eight-byte field that the format stores it in.
pub(crate) fn checked_u64(value: usize) -> (r: u64)
    ensures
        r == value,
{
    value as u64
}


/// The entry at `pos` of a block whose entries end at `end`, when the entry
/// before it has the key `last`: key and value, and where the next entry
/// starts. `None` if the bytes hold no entry.
pub open spec fn entry_at(c: Seq<u8>, pos: int, end: int, last: Seq<u8>) -> Option<
    ((Seq<u8>, Seq<u8>), int),
> {
    match varint::uvarint_at(c, pos, 0) {
        None => None,
        Some((shared, p1)) => match varint::uvarint_at(c, p1, 0) {
            None => None,
            Some((non_shared, p2)) => match varint::uvarint_at(c, p2, 0) {
                None => None,
                Some((value_len, p3)) => {
                    let key_end = p3 + non_shared;
                    let value_end = key_end + value_len;
                    if shared > last.len() || value_end > end {
                        None
                    } else {
                        Some(
                            (
                                (
                                    last.subrange(0, shared as int) + c.subrange(p3, key_end),
                                    c.subrange(key_end, value_end),
                                ),
                                value_end,
                            ),
                        )
                    }
                },
            },
        },
    }
}

pub proof fn lemma_entry_advances(c: Seq<u8>, pos: int, end: int, last: Seq<u8>)
    ensures
        entry_at(c, pos, end, last) matches Some((e, next)) ==> pos + 3 <= next <= end,
{
    varint::lemma_uvarint_advances(c, pos, 0);
    if let Some((_, p1)) = varint::uvarint_at(c, pos, 0) {
        varint::lemma_uvarint_advances(c, p1, 0);
        if let Some((_, p2)) = varint::uvarint_at(c, p1, 0) {
            varint::lemma_uvarint_advances(c, p2, 0);
        }
    }
}

/// The entries from `pos` up to `end`, when the entry before them has the key
/// `last`.
pub open spec fn entries_at(c: Seq<u8>, pos: int, end: int, last: Seq<u8>) -> Option<
    Seq<(Seq<u8>, Seq<u8>)>,
>
    decreases end - pos,
{
    if pos >= end {
        Some(Seq::empty())
    } else {
        match entry_at(c, pos, end, last) {
            None => None,
            Some((e, next)) => {
                proof {
                    lemma_entry_advances(c, pos, end, last);
                }
                match entries_at(c, next, end, e.0) {
                    None => None,
                    Some(rest) => Some(seq![e] + rest),
                }
            },
        }
    }
}

/// How many restart points a block says it has.
pub open spec fn restart_count(c: Seq<u8>) -> nat {
    codec::le_value(c.subrange(c.len() - 4, c.len() as int))
}

/// Where the entries of a block end and its restart array starts.
pub open spec fn entries_end(c: Seq<u8>) -> int {
    c.len() - 4 - 4 * restart_count(c)
}

/// The offset of restart point `i`.
pub open spec fn restart_at(c: Seq<u8>, i: int) -> nat {
    codec::le_value(c.subrange(entries_end(c) + 4 * i, entries_end(c) + 4 * i + 4))
}

/// The restart array lies inside the block, starts at zero, strictly increases
/// and stays inside the entries.
pub open spec fn restarts_valid(c: Seq<u8>) -> bool {
    &&& c.len() >= 4
    &&& restart_count(c) > 0
    &&& entries_end(c) >= 0
    &&& restart_at(c, 0) == 0
    &&& forall|i: int|
        0 <= i < restart_count(c) ==> #[trigger] restart_at(c, i) < entries_end(c)
    &&& forall|i: int|
        0 < i < restart_count(c) ==> restart_at(c, i - 1) < #[trigger] restart_at(c, i)
}

/// The entries of a block's content, or `None` if it is not a block.
pub open spec fn block_entries(c: Seq<u8>) -> Option<Seq<(Seq<u8>, Seq<u8>)>> {
    if restarts_valid(c) {
        entries_at(c, 0, entries_end(c), Seq::empty())
    } else {
        None
    }
}

/// The content of a stored block `content | crc32`, if the checksum holds.
pub open spec fn block_content(b: Seq<u8>) -> Option<Seq<u8>> {
    if b.len() < 4 {
        None
    } else {
        let content = b.subrange(0, b.len() - 4);
        if checksum::crc32_of(content) as nat == codec::le_value(b.subrange(b.len() - 4, b.len() as int)) {
            Some(content)
        } else {
            None
        }
    }
}

/// The entries of a stored block, or `None` if it is damaged.
pub open spec fn stored_block_entries(b: Seq<u8>) -> Option<Seq<(Seq<u8>, Seq<u8>)>> {
    match block_content(b) {
        None => None,
        Some(c) => block_entries(c),
    }
}

#[verifier::spinoff_prover]
fn check_restarts(content: &[u8], count: usize, end: usize) -> (ok: bool)
    requires
        content@.len() >= 4,
        count == restart_count(content@),
        count > 0,
        end == entries_end(content@),
    ensures
        ok == restarts_valid(content@),
{
    let len: usize = content.len();
    let mut i: usize = 0;
    let mut previous: u32 = 0;
    while i < count
        invariant
            i <= count,
            len == content@.len(),
            len >= 4,
            count == restart_count(content@),
            count > 0,
            end == entries_end(content@),
            i > 0 ==> restart_at(content@, 0) == 0,
            i > 0 ==> previous as nat == restart_at(content@, i - 1),
            forall|j: int| 0 <= j < i ==> #[trigger] restart_at(content@, j) < end,
            forall|j: int|
                0 < j < i ==> restart_at(content@, j - 1) < #[trigger] restart_at(content@, j),
        decreases count - i,
    {
        let restart = get_u32_le(content, end + 4 * i);
        assert(restart as nat == restart_at(content@, i as int));
        if (i == 0 && restart != 0) || restart as u64 >= end as u64 || (i > 0 && restart
            <= previous) {
            return false;
        }
        previous = restart;
        i = i + 1;
    }
    true
}

/// Decodes every entry of a block's content.
fn decode_block_entries(content: &[u8]) -> (r: Result<Vec<Entry>, Error>)
    ensures
        match block_entries(content@) {
            Some(es) => r is Ok && entries_view(r->Ok_0@) == es,
            None => r is Err && r->Err_0 is Corrupt,
        },
{
    let len: usize = content.len();
    if len < 4 {
        return Err(corrupt("sst block too small"));
    }
    let stored = get_u32_le(content, len - 4);
    let count: u64 = stored as u64;
    if count * 4 > (len - 4) as u64 {
        return Err(corrupt("sst block restart array out of bounds"));
    }
    if count == 0 {
        return Err(corrupt("sst block has no restart points"));
    }
    let num_restarts: usize = stored as usize;
    let end: usize = len - 4 - 4 * num_restarts;
    if !check_restarts(content, num_restarts, end) {
        return Err(corrupt("invalid sst restart offsets"));
    }
    let mut out: Vec<Entry> = Vec::new();
    let mut last_key: Vec<u8> = Vec::new();
    let mut pos: usize = 0;
    assert(entries_view(out@) =~= Seq::empty());
    assert(last_key@ =~= Seq::empty());
    proof {
        if let Some(rest) = entries_at(content@, 0, end as int, Seq::empty()) {
            assert(Seq::<(Seq<u8>, Seq<u8>)>::empty() + rest =~= rest);
        }
    }
    while pos < end
        invariant
            len == content@.len(),
            end <= len,
            restarts_valid(content@),
            end == entries_end(content@),
            pos <= end,
            block_entries(content@) == (match entries_at(
                content@,
                pos as int,
                end as int,
                last_key@,
            ) {
                None => None,
                Some(rest) => Some(entries_view(out@) + rest),
            }),
        decreases end - pos,
    {
        let ghost start = pos as int;
        let ghost before = out@;
        proof {
            lemma_entry_advances(content@, start, end as int, last_key@);
        }
        let shared: u64 = match get_uvarint(content, &mut pos) {
            Ok(v) => v,
            Err(e) => {
                return Err(e);
            },
        };
        let non_shared: u64 = match get_uvarint(content, &mut pos) {
            Ok(v) => v,
            Err(e) => {
                return Err(e);
            },
        };
        let value_len: u64 = match get_uvarint(content, &mut pos) {
            Ok(v) => v,
            Err(e) => {
                return Err(e);
            },
        };
        if shared > last_key.len() as u64 || pos > end || non_shared > (end - pos) as u64 {
            return Err(corrupt("sst entry key out of bounds"));
        }
        let key_end: usize = pos + non_shared as usize;
        if value_len > (end - key_end) as u64 {
            return Err(corrupt("sst entry value out of bounds"));
        }
        let value_end: usize = key_end + value_len as usize;
        let mut key: Vec<u8> = to_vec(slice_of(last_key.as_slice(), 0, shared as usize));
        append(&mut key, slice_of(content, pos, key_end));
        let value = to_vec(slice_of(content, key_end, value_end));
        let ghost e = (key@, value@);
        assert(entry_at(content@, start, end as int, last_key@) == Some((e, value_end as int)));
        proof {
            if let Some(rest) = entries_at(content@, value_end as int, end as int, key@) {
                assert(entries_view(before) + (seq![e] + rest) =~= entries_view(before).push(e)
                    + rest);
            }
        }
        pos = value_end;
        last_key = to_vec(key.as_slice());
        out.push((key, value));
        assert(entries_view(out@) =~= entries_view(before).push(e));
    }
    assert(entries_view(out@) + Seq::<(Seq<u8>, Seq<u8>)>::empty() =~= entries_view(out@));
    Ok(out)
}

/// Splits a stored block `content | crc32`, verifies the checksum, and decodes
/// the entries.
pub(crate) fn decode_stored_block(block: &[u8]) -> (r: Result<Vec<Entry>, Error>)
    ensures
        match stored_block_entries(block@) {
            Some(es) => r is Ok && entries_view(r->Ok_0@) == es,
            None => r is Err && r->Err_0 is Corrupt,
        },
{
    let len: usize = block.len();
    if len < 4 {
        return Err(corrupt("sst block crc out of bounds"));
    }
    let content = slice_of(block, 0, len - 4);
    if crc32(content) != get_u32_le(block, len - 4) {
        return Err(corrupt("sst block crc mismatch"));
    }
    decode_block_entries(content)
}


/// The bytes of an entry that shares its first `shared` key bytes with the
/// entry before it.
pub open spec fn entry_bytes(shared: nat, key: Seq<u8>, value: Seq<u8>) -> Seq<u8> {
    varint::uvarint_bytes(shared) + varint::uvarint_bytes((key.len() - shared) as nat) + varint::uvarint_bytes(value.len())
        + key.subrange(shared as int, key.len() as int) + value
}

proof fn lemma_uvarint_plain(v: nat, pre: Seq<u8>, post: Seq<u8>)
    requires
        v <= u64::MAX,
    ensures
        varint::uvarint_at(pre + varint::uvarint_bytes(v) + post, pre.len() as int, 0) == Some(
            (v, (pre.len() + varint::uvarint_bytes(v).len()) as int),
        ),
        varint::uvarint_bytes(v).len() >= 1,
{
    assert(varint::group_range(0) == 1);
    assert(v * varint::group_range(0) == v) by (nonlinear_arith)
        requires
            varint::group_range(0) == 1,
    ;
    varint::lemma_uvarint_round_trip(v, pre, post, 0);
}

/// Three written integers read back one after the other.
proof fn lemma_three_uvarints(pre: Seq<u8>, x: nat, y: nat, z: nat, rest: Seq<u8>)
    requires
        x <= u64::MAX,
        y <= u64::MAX,
        z <= u64::MAX,
    ensures
        ({
            let c = pre + varint::uvarint_bytes(x) + varint::uvarint_bytes(y) + varint::uvarint_bytes(z) + rest;
            let p1 = (pre.len() + varint::uvarint_bytes(x).len()) as int;
            let p2 = (p1 + varint::uvarint_bytes(y).len()) as int;
            let p3 = (p2 + varint::uvarint_bytes(z).len()) as int;
            &&& varint::uvarint_at(c, pre.len() as int, 0) == Some((x, p1))
            &&& varint::uvarint_at(c, p1, 0) == Some((y, p2))
            &&& varint::uvarint_at(c, p2, 0) == Some((z, p3))
            &&& p3 >= pre.len() + 3
        }),
{
    let b1 = varint::uvarint_bytes(x);
    let b2 = varint::uvarint_bytes(y);
    let b3 = varint::uvarint_bytes(z);
    let c = pre + b1 + b2 + b3 + rest;
    lemma_uvarint_plain(x, pre, b2 + b3 + rest);
    assert(c =~= pre + b1 + (b2 + b3 + rest));
    lemma_uvarint_plain(y, pre + b1, b3 + rest);
    assert(c =~= (pre + b1) + b2 + (b3 + rest));
    lemma_uvarint_plain(z, pre + b1 + b2, rest);
}

/// A written entry reads back, wherever it stands.
proof fn lemma_entry_round_trip(
    pre: Seq<u8>,
    shared: nat,
    key: Seq<u8>,
    value: Seq<u8>,
    last: Seq<u8>,
    post: Seq<u8>,
)
    requires
        shared <= last.len(),
        shared <= key.len() <= u64::MAX,
        value.len() <= u64::MAX,
        last.subrange(0, shared as int) == key.subrange(0, shared as int),
    ensures
        entry_at(
            pre + entry_bytes(shared, key, value) + post,
            pre.len() as int,
            (pre.len() + entry_bytes(shared, key, value).len()) as int,
            last,
        ) == Some(((key, value), (pre.len() + entry_bytes(shared, key, value).len()) as int)),
        entry_bytes(shared, key, value).len() >= 3,
{
    let c = pre + entry_bytes(shared, key, value) + post;
    let non_shared = (key.len() - shared) as nat;
    let tail = key.subrange(shared as int, key.len() as int);
    let head = pre + varint::uvarint_bytes(shared) + varint::uvarint_bytes(non_shared) + varint::uvarint_bytes(value.len());
    lemma_three_uvarints(pre, shared, non_shared, value.len(), tail + value + post);
    assert(c =~= head + (tail + value + post));
    let p3 = head.len() as int;
    let key_end = p3 + non_shared;
    let value_end = key_end + value.len();
    assert(c.subrange(p3, key_end) =~= tail);
    assert(c.subrange(key_end, value_end) =~= value);
    assert(last.subrange(0, shared as int) + tail =~= key) by {
        assert(key =~= key.subrange(0, shared as int) + tail);
    }
}

/// Entries that read back up to `mid`, followed by entries that read back from
/// `mid` up to `end`, read back up to `end`.
proof fn lemma_entries_join(
    c: Seq<u8>,
    pos: int,
    mid: int,
    end: int,
    last: Seq<u8>,
    es: Seq<(Seq<u8>, Seq<u8>)>,
    rest: Seq<(Seq<u8>, Seq<u8>)>,
)
    requires
        pos <= mid <= end,
        entries_at(c, pos, mid, last) == Some(es),
        entries_at(
            c,
            mid,
            end,
            if es.len() == 0 {
                last
            } else {
                es.last().0
            },
        ) == Some(rest),
    ensures
        entries_at(c, pos, end, last) == Some(es + rest),
    decreases mid - pos,
{
    if pos >= mid {
        assert(es + rest =~= rest);
    } else {
        lemma_entry_advances(c, pos, mid, last);
        let (e, next) = entry_at(c, pos, mid, last)->Some_0;
        assert(entry_at(c, pos, end, last) == Some((e, next)));
        let tail = entries_at(c, next, mid, e.0)->Some_0;
        assert(es =~= seq![e] + tail);
        assert(es.drop_first() =~= tail);
        if tail.len() > 0 {
            assert(es.last() == tail.last());
        } else {
            assert(es.last() == e);
        }
        lemma_entries_join(c, next, mid, end, e.0, tail, rest);
        assert(seq![e] + (tail + rest) =~= es + rest);
    }
}

/// The bytes of a restart array.
pub open spec fn restart_bytes(rs: Seq<u32>) -> Seq<u8>
    decreases rs.len(),
{
    if rs.len() == 0 {
        Seq::empty()
    } else {
        restart_bytes(rs.drop_last()) + codec::le_bytes(rs.last() as nat, 4)
    }
}

proof fn lemma_restart_bytes(rs: Seq<u32>, i: int)
    ensures
        restart_bytes(rs).len() == 4 * rs.len(),
        0 <= i < rs.len() ==> restart_bytes(rs).subrange(4 * i, 4 * i + 4) == codec::le_bytes(
            rs[i] as nat,
            4,
        ),
    decreases rs.len(),
{
    if rs.len() > 0 {
        codec::lemma_le_len(rs.last() as nat, 4);
        lemma_restart_bytes(rs.drop_last(), i);
        let front = restart_bytes(rs.drop_last());
        if 0 <= i < rs.len() - 1 {
            assert(restart_bytes(rs).subrange(4 * i, 4 * i + 4) =~= front.subrange(
                4 * i,
                4 * i + 4,
            ));
        } else if i == rs.len() - 1 {
            assert(restart_bytes(rs).subrange(4 * i, 4 * i + 4) =~= codec::le_bytes(rs[i] as nat, 4));
        }
    }
}

/// How many key bytes the last of some entries shares with the one before it; every
/// `interval`-th key is stored whole.
pub open spec fn last_shared(es: Seq<(Seq<u8>, Seq<u8>)>, interval: nat) -> nat {
    if (es.len() - 1) % (interval as int) == 0 {
        0
    } else {
        order::shared_len(es[es.len() - 2].0, es.last().0) as nat
    }
}

/// The bytes of the entries of a block.
pub open spec fn entries_bytes(es: Seq<(Seq<u8>, Seq<u8>)>, interval: nat) -> Seq<u8>
    decreases es.len(),
{
    if es.len() == 0 {
        Seq::empty()
    } else {
        entries_bytes(es.drop_last(), interval) + entry_bytes(
            last_shared(es, interval),
            es.last().0,
            es.last().1,
        )
    }
}

/// Where the entries start whose keys are stored whole.
pub open spec fn restarts_of(es: Seq<(Seq<u8>, Seq<u8>)>, interval: nat) -> Seq<u32>
    decreases es.len(),
{
    if es.len() == 0 {
        Seq::empty()
    } else {
        let front = restarts_of(es.drop_last(), interval);
        if (es.len() - 1) % (interval as int) == 0 {
            front.push(entries_bytes(es.drop_last(), interval).len() as u32)
        } else {
            front
        }
    }
}

/// The content of a block.
pub open spec fn block_bytes(es: Seq<(Seq<u8>, Seq<u8>)>, interval: nat) -> Seq<u8> {
    let restarts = restarts_of(es, interval);
    entries_bytes(es, interval) + restart_bytes(restarts) + codec::le_bytes(restarts.len(), 4)
}

/// The size of a block of some entries, as it is compared with the target.
pub open spec fn block_estimate(es: Seq<(Seq<u8>, Seq<u8>)>, interval: nat) -> nat {
    block_size_estimate(entries_bytes(es, interval).len(), restarts_of(es, interval).len())
}

/// Whatever follows them, the bytes read back as `es`.
#[verifier::opaque]
pub(crate) closed spec fn reads_as(buf: Seq<u8>, es: Seq<(Seq<u8>, Seq<u8>)>) -> bool {
    forall|post: Seq<u8>|
        entries_at(#[trigger] (buf + post), 0, buf.len() as int, Seq::empty()) == Some(es)
}

/// A finished block reads back as its entries.
proof fn lemma_block_round_trip(
    buf: Seq<u8>,
    restarts: Seq<u32>,
    es: Seq<(Seq<u8>, Seq<u8>)>,
    c: Seq<u8>,
)
    requires
        reads_as(buf, es),
        0 < restarts.len() <= u32::MAX,
        restarts[0] == 0,
        forall|i: int| 0 <= i < restarts.len() ==> #[trigger] restarts[i] < buf.len(),
        forall|i: int, j: int|
            0 <= i < j < restarts.len() ==> #[trigger] restarts[i] < #[trigger] restarts[j],
        c == buf + restart_bytes(restarts) + codec::le_bytes(restarts.len(), 4),
    ensures
        block_entries(c) == Some(es),
{
    let n = restarts.len();
    codec::lemma_byte_range();
    codec::lemma_le_round_trip(n, 4);
    lemma_restart_bytes(restarts, 0);
    assert(c.subrange(c.len() - 4, c.len() as int) =~= codec::le_bytes(n, 4));
    assert(restart_count(c) == n);
    assert(entries_end(c) == buf.len());
    assert forall|i: int| 0 <= i < n implies #[trigger] restart_at(c, i) == restarts[i] by {
        lemma_restart_bytes(restarts, i);
        let s = buf.len() + 4 * i;
        assert(c.subrange(s, s + 4) =~= restart_bytes(restarts).subrange(4 * i, 4 * i + 4));
        codec::lemma_le_round_trip(restarts[i] as nat, 4);
    }
    assert(restarts_valid(c)) by {
        assert(restart_at(c, 0) == restarts[0]);
        assert forall|i: int| 0 < i < n implies restart_at(c, i - 1) < #[trigger] restart_at(
            c,
            i,
        ) by {
            assert(restart_at(c, i - 1) == restarts[i - 1]);
            assert(restart_at(c, i) == restarts[i]);
        }
    }
    let post = restart_bytes(restarts) + codec::le_bytes(n, 4);
    assert(c =~= buf + post);
    reveal(reads_as);
}

/// An entry added behind bytes that read back reads back with them.
proof fn lemma_reads_one_more(
    buf: Seq<u8>,
    es: Seq<(Seq<u8>, Seq<u8>)>,
    last: Seq<u8>,
    shared: nat,
    key: Seq<u8>,
    value: Seq<u8>,
)
    requires
        reads_as(buf, es),
        last == (if es.len() == 0 {
            Seq::<u8>::empty()
        } else {
            es.last().0
        }),
        shared <= last.len(),
        shared <= key.len() <= u64::MAX,
        value.len() <= u64::MAX,
        last.subrange(0, shared as int) == key.subrange(0, shared as int),
    ensures
        reads_as(buf + entry_bytes(shared, key, value), es.push((key, value))),
        entry_bytes(shared, key, value).len() >= 3,
{
    reveal(reads_as);
    let e = entry_bytes(shared, key, value);
    let grown = buf + e;
    let one = seq![(key, value)];
    lemma_entry_round_trip(buf, shared, key, value, last, Seq::empty());
    assert forall|post: Seq<u8>| entries_at(
        #[trigger] (grown + post),
        0,
        grown.len() as int,
        Seq::empty(),
    ) == Some(es.push((key, value))) by {
        let c = grown + post;
        let n = buf.len() as int;
        let m = grown.len() as int;
        assert(c =~= buf + (e + post));
        assert(entries_at(buf + (e + post), 0, n, Seq::empty()) == Some(es));
        lemma_entry_round_trip(buf, shared, key, value, last, post);
        assert(c =~= buf + e + post);
        assert(entries_at(c, m, m, key) == Some(Seq::<(Seq<u8>, Seq<u8>)>::empty()));
        assert(one + Seq::<(Seq<u8>, Seq<u8>)>::empty() =~= one);
        assert(entries_at(c, n, m, last) == Some(one));
        lemma_entries_join(c, 0, n, m, Seq::empty(), es, one);
        assert(es + one =~= es.push((key, value)));
    }
}

/// A block under construction.
pub(crate) struct BlockBuilder {
    pub(crate) buf: Vec<u8>,
    pub(crate) restarts: Vec<u32>,
    pub(crate) counter: usize,
    pub(crate) restart_interval: usize,
    pub(crate) last_key: Vec<u8>,
    pub(crate) entries: Ghost<Seq<(Seq<u8>, Seq<u8>)>>,
}

impl BlockBuilder {
    pub(crate) closed spec fn wf(self) -> bool {
        let es = self.entries@;
        &&& self.restart_interval >= 1
        &&& self.buf@ == entries_bytes(es, self.restart_interval as nat)
        &&& self.restarts@ == restarts_of(es, self.restart_interval as nat)
        &&& reads_as(self.buf@, es)
        &&& self.counter == es.len()
        &&& self.buf@.len() >= 3 * self.counter
        &&& self.counter == 0 ==> self.buf@.len() == 0
        &&& self.last_key@ == (if es.len() == 0 {
            Seq::<u8>::empty()
        } else {
            es.last().0
        })
        &&& self.restarts@.len() <= self.counter
        &&& self.counter > 0 ==> self.restarts@.len() > 0 && self.restarts@[0] == 0
        &&& forall|i: int|
            0 <= i < self.restarts@.len() ==> 3 * i <= #[trigger] self.restarts@[i]
                < self.buf@.len()
        &&& forall|i: int, j: int|
            0 <= i < j < self.restarts@.len() ==> #[trigger] self.restarts@[i]
                < #[trigger] self.restarts@[j]
    }

    /// The last key is that of the last entry.
    pub(crate) proof fn lemma_last_key(self)
        requires
            self.wf(),
            self.entries@.len() > 0,
        ensures
            self.last_key@ == self.entries@.last().0,
    {
    }

    /// What the builder holds is given by its entries.
    pub(crate) proof fn lemma_bytes(self)
        requires
            self.wf(),
        ensures
            self.buf@ == entries_bytes(self.entries@, self.restart_interval as nat),
            self.restarts@ == restarts_of(self.entries@, self.restart_interval as nat),
            self.counter == self.entries@.len(),
            self.full() == (self.entries@.len() % (self.restart_interval as nat) == 0
                && self.buf@.len() > u32::MAX),
    {
    }

    /// A block can only be full once it holds more than four gigabytes.
    pub(crate) proof fn lemma_full(self)
        requires
            self.full(),
        ensures
            self.buf@.len() > u32::MAX,
    {
    }

    /// The next entry is a restart point whose offset does not fit the format.
    pub(crate) closed spec fn full(self) -> bool {
        self.counter % self.restart_interval == 0 && self.buf@.len() > u32::MAX
    }

    pub(crate) fn new(restart_interval: usize) -> (b: BlockBuilder)
        requires
            restart_interval >= 1,
        ensures
            b.wf(),
            b.entries@ == Seq::<(Seq<u8>, Seq<u8>)>::empty(),
            b.restart_interval == restart_interval,
            b.buf@.len() == 0,
            b.restarts@.len() == 0,
    {
        let b = BlockBuilder {
            buf: Vec::new(),
            restarts: Vec::new(),
            counter: 0,
            restart_interval,
            last_key: Vec::new(),
            entries: Ghost(Seq::empty()),
        };
        assert(b.last_key@ =~= Seq::<u8>::empty());
        proof {
            reveal(reads_as);
        }
        b
    }

    #[verifier::spinoff_prover]
    #[verifier::rlimit(40)]
    pub(crate) fn add(&mut self, key: &[u8], value: &[u8]) -> (r: Result<(), Error>)
        requires
            old(self).wf(),
        ensures
            final(self).wf(),
            final(self).restart_interval == old(self).restart_interval,
            old(self).full() ==> r is Err && r->Err_0 is InvalidWrite && r->Err_0->InvalidWrite_0@
                == limit_words("block restart offset"@) && *final(self) == *old(self),
            !old(self).full() ==> r is Ok && final(self).entries@ == old(self).entries@.push(
                (key@, value@),
            ),
    {
        let ghost es = self.entries@;
        proof {
            vstd::arithmetic::div_mod::lemma_small_mod(0, self.restart_interval as nat);
        }
        let key_len: usize = key.len();
        let value_len: usize = value.len();
        let mut shared: usize = 0;
        if self.counter % self.restart_interval == 0 {
            let offset = match checked_u32(self.buf.len(), "block restart offset") {
                Ok(offset) => offset,
                Err(e) => {
                    return Err(e);
                },
            };
            self.restarts.push(offset);
        } else {
            shared = common_prefix(self.last_key.as_slice(), key);
        }
        let ghost last = old(self).last_key@;
        let ghost before = self.buf@;
        assert(last.subrange(0, shared as int) =~= key@.subrange(0, shared as int));
        put_uvarint(&mut self.buf, checked_u64(shared));
        put_uvarint(&mut self.buf, checked_u64(key_len - shared));
        put_uvarint(&mut self.buf, checked_u64(value_len));
        append(&mut self.buf, slice_of(key, shared, key_len));
        append(&mut self.buf, value);
        let ghost e = entry_bytes(shared as nat, key@, value@);
        assert(self.buf@ =~= before + e);
        proof {
            let all = es.push((key@, value@));
            assert(all.drop_last() =~= es);
            assert(all.len() - 1 == self.counter);
            assert(shared == last_shared(all, self.restart_interval as nat));
            assert(self.buf@ == entries_bytes(all, self.restart_interval as nat));
            assert(self.restarts@ == restarts_of(all, self.restart_interval as nat));
            lemma_reads_one_more(before, es, last, shared as nat, key@, value@);
        }
        self.last_key = to_vec(key);
        let size: usize = self.buf.len();
        assert(size >= 3 * (self.counter + 1));
        self.counter = self.counter + 1;
        self.entries = Ghost(es.push((key@, value@)));
        Ok(())
    }

    pub(crate) fn is_empty(&self) -> (b: bool)
        requires
            self.wf(),
        ensures
            b == (self.entries@.len() == 0),
    {
        self.counter == 0
    }

    /// The size of the block if it were finished now, up to `usize::MAX`.
    pub(crate) fn estimated_size(&self) -> (n: usize)
        ensures
            n == block_size_estimate(self.buf@.len(), self.restarts@.len()),
    {
        let restarts: usize = if self.restarts.len() > usize::MAX / 4 {
            usize::MAX
        } else {
            self.restarts.len() * 4
        };
        self.buf.len().saturating_add(restarts).saturating_add(4)
    }

    /// Appends the restart array and returns the content of the block.
    pub(crate) fn finish(self) -> (c: Vec<u8>)
        requires
            self.wf(),
            self.entries@.len() > 0,
        ensures
            block_entries(c@) == Some(self.entries@),
            c@ == block_bytes(self.entries@, self.restart_interval as nat),
    {
        let mut buf = self.buf;
        let count: usize = self.restarts.len();
        let ghost restarts = self.restarts@;
        let mut i: usize = 0;
        assert(restarts.take(0) =~= Seq::empty());
        assert(buf@ =~= self.buf@ + restart_bytes(restarts.take(0)));
        while i < count
            invariant
                i <= count,
                count == restarts.len(),
                restarts == self.restarts@,
                buf@ == self.buf@ + restart_bytes(restarts.take(i as int)),
            decreases count - i,
        {
            let ghost front = restarts.take(i + 1);
            assert(front.drop_last() =~= restarts.take(i as int));
            put_u32_le(&mut buf, self.restarts[i]);
            assert(buf@ =~= self.buf@ + restart_bytes(front));
            i = i + 1;
        }
        assert(restarts.take(i as int) =~= restarts);
        proof {
            assert(3 * (count - 1) <= restarts[count - 1]);
        }
        put_u32_le(&mut buf, count as u32);
        proof {
            lemma_block_round_trip(self.buf@, restarts, self.entries@, buf@);
        }
        buf
    }
}

/// The size of a block with `bytes` of entries and `restarts` restart points,
/// up to the largest `usize`.
pub open spec fn block_size_estimate(bytes: nat, restarts: nat) -> nat {
    if bytes + 4 * restarts + 4 <= usize::MAX {
        bytes + 4 * restarts + 4
    } else {
        usize::MAX as nat
    }
}

} // verus!
