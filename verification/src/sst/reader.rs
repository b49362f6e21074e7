//! The index, the footer, and reading a table.

use vstd::prelude::*;

use crate::phrase::say;
use crate::sst::block;
use crate::order;
use crate::codec;
use crate::strings;
use crate::checksum;
use crate::checksum::crc32;
use crate::codec::{append, get_u32_le, get_u64_le, slice_of, to_vec};
use crate::error::{corrupt, Error};
use crate::order::{compare_bytes, same_bytes, Order};
use crate::sst::block::{decode_stored_block, Entry};

verus! {

pub const FORMAT_VERSION_V1: u32 = 1;

pub const FORMAT_VERSION: u32 = 2;

pub const FOOTER_V1_LEN: usize = 32;

pub const FOOTER_LEN: usize = 36;

/// The eight bytes at the end of every table, `SANASST1`.
pub open spec fn magic() -> Seq<u8> {
    seq![83u8, 65u8, 78u8, 65u8, 83u8, 83u8, 84u8, 49u8]
}

pub(crate) fn magic_bytes() -> (m: Vec<u8>)
    ensures
        m@ == magic(),
{
    let m: Vec<u8> = vec![83u8, 65u8, 78u8, 65u8, 83u8, 83u8, 84u8, 49u8];
    assert(m@ =~= magic());
    m
}


/// Where a block lies in the file, and the last key it holds.
pub struct IndexEntry {
    pub last_key: Vec<u8>,
    pub offset: u64,
    pub size: u64,
}

/// An index entry as a mathematical value.
pub struct HandleView {
    pub last_key: Seq<u8>,
    pub offset: nat,
    pub size: nat,
}

impl View for IndexEntry {
    type V = HandleView;

    open spec fn view(&self) -> HandleView {
        HandleView { last_key: self.last_key@, offset: self.offset as nat, size: self.size as nat }
    }
}

/// The views of a list of index entries.
pub open spec fn index_view(index: Seq<IndexEntry>) -> Seq<HandleView> {
    Seq::new(index.len(), |i: int| index[i]@)
}

/// The end of a block in the file, its checksum included.
pub open spec fn handle_end(h: HandleView) -> nat {
    h.offset + h.size + 4
}

/// One index entry at `pos`, and where the next one starts. The block has to
/// start at `expected` and end at or before `data_end`, and its key has to be
/// above `prev`.
pub open spec fn handle_at(
    idx: Seq<u8>,
    pos: int,
    expected: nat,
    data_end: nat,
    prev: Option<Seq<u8>>,
) -> Option<(HandleView, int)> {
    if pos + 4 > idx.len() {
        None
    } else {
        let key_end = pos + 4 + codec::le_value(idx.subrange(pos, pos + 4));
        if key_end + 16 > idx.len() {
            None
        } else {
            let h = HandleView {
                last_key: idx.subrange(pos + 4, key_end),
                offset: codec::le_value(idx.subrange(key_end, key_end + 8)),
                size: codec::le_value(idx.subrange(key_end + 8, key_end + 16)),
            };
            if h.offset != expected || handle_end(h) > data_end || (prev matches Some(p)
                && !order::lex_lt(p, h.last_key)) {
                None
            } else {
                Some((h, key_end + 16))
            }
        }
    }
}

/// `left` index entries from `pos` on: the entries, where they end, and where
/// the last of their blocks ends.
pub open spec fn handles_at(
    idx: Seq<u8>,
    pos: int,
    left: nat,
    expected: nat,
    data_end: nat,
    prev: Option<Seq<u8>>,
) -> Option<(Seq<HandleView>, int, nat)>
    decreases left,
{
    if left == 0 {
        Some((Seq::empty(), pos, expected))
    } else {
        match handle_at(idx, pos, expected, data_end, prev) {
            None => None,
            Some((h, next)) => match handles_at(
                idx,
                next,
                (left - 1) as nat,
                handle_end(h),
                data_end,
                Some(h.last_key),
            ) {
                None => None,
                Some((rest, end, covered)) => Some((seq![h] + rest, end, covered)),
            },
        }
    }
}

/// The index that the bytes of an index region stand for. The blocks cover the
/// data region `0..data_end` without a gap, in strictly increasing key order.
pub open spec fn index_of(idx: Seq<u8>, crc: nat, data_end: nat) -> Option<Seq<HandleView>> {
    if checksum::crc32_of(idx) as nat != crc || idx.len() < 4 {
        None
    } else {
        let count = codec::le_value(idx.subrange(0, 4));
        match handles_at(idx, 4, count, 0, data_end, None) {
            None => None,
            Some((handles, end, covered)) => if end == idx.len() && covered == data_end {
                Some(handles)
            } else {
                None
            },
        }
    }
}

/// What the end of a table says: where the index lies, its checksum, and how
/// long the footer is.
pub struct Footer {
    pub index_offset: u64,
    pub index_size: u64,
    pub index_crc: u32,
    pub len: usize,
}

/// The length of a footer of a format version, if the version is known.
pub open spec fn footer_len(version: nat) -> Option<nat> {
    if version == FORMAT_VERSION_V1 {
        Some(FOOTER_V1_LEN as nat)
    } else if version == FORMAT_VERSION {
        Some(FOOTER_LEN as nat)
    } else {
        None
    }
}

/// The footer that the last bytes of a table hold. The first format version has
/// no footer checksum; the second one checksums everything else in the footer.
pub open spec fn footer_of(tail: Seq<u8>) -> Option<Footer> {
    let n = tail.len() as int;
    if n < FOOTER_V1_LEN || tail.subrange(n - 8, n) != magic() {
        None
    } else {
        let version = codec::le_value(tail.subrange(n - 12, n - 8));
        match footer_len(version) {
            None => None,
            Some(len) => {
                let f = tail.subrange(n - len, n);
                if n < len || (version == FORMAT_VERSION && checksum::crc32_of(
                    f.subrange(0, 20) + f.subrange(24, 36),
                ) as nat != codec::le_value(f.subrange(20, 24))) {
                    None
                } else {
                    Some(
                        Footer {
                            index_offset: codec::le_value(f.subrange(0, 8)) as u64,
                            index_size: codec::le_value(f.subrange(8, 16)) as u64,
                            index_crc: codec::le_value(f.subrange(16, 20)) as u32,
                            len: len as usize,
                        },
                    )
                }
            },
        }
    }
}

/// The index region ends where the footer of a table of `size` bytes starts.
pub open spec fn footer_fits(f: Footer, size: nat) -> bool {
    f.index_offset + f.index_size + f.len == size
}

/// What is wrong with the trailing window of a table that holds no footer.
pub open spec fn footer_complaint(tail: Seq<u8>) -> Seq<char> {
    let n = tail.len() as int;
    if n < FOOTER_V1_LEN {
        "sst footer truncated"@
    } else if tail.subrange(n - 8, n) != magic() {
        "bad sst magic"@
    } else {
        let version = codec::le_value(tail.subrange(n - 12, n - 8));
        if version != FORMAT_VERSION_V1 && version != FORMAT_VERSION {
            "unsupported sst version "@ + strings::decimal(version)
        } else if version == FORMAT_VERSION && n < FOOTER_LEN {
            "sst footer truncated"@
        } else {
            "sst footer crc mismatch"@
        }
    }
}

/// Parses the trailing window of a table.
pub fn parse_footer(tail: &[u8]) -> (r: Result<Footer, Error>)
    ensures
        match footer_of(tail@) {
            Some(f) => r is Ok && r->Ok_0 == f,
            None => r is Err && r->Err_0 is Corrupt && r->Err_0->Corrupt_0@ == footer_complaint(
                tail@,
            ),
        },
{
    let n: usize = tail.len();
    if n < FOOTER_V1_LEN {
        return Err(corrupt("sst footer truncated"));
    }
    let expected = magic_bytes();
    if !same_bytes(slice_of(tail, n - 8, n), expected.as_slice()) {
        return Err(corrupt("bad sst magic"));
    }
    let version = get_u32_le(tail, n - 12);
    let len: usize = if version == FORMAT_VERSION_V1 {
        FOOTER_V1_LEN
    } else if version == FORMAT_VERSION {
        FOOTER_LEN
    } else {
        return Err(Error::Corrupt(
                say("unsupported sst version ").number(version as u64).done(),
            ));
    };
    if n < len {
        return Err(corrupt("sst footer truncated"));
    }
    let footer = slice_of(tail, n - len, n);
    if version == FORMAT_VERSION {
        let mut covered = to_vec(slice_of(footer, 0, 20));
        append(&mut covered, slice_of(footer, 24, 36));
        if crc32(covered.as_slice()) != get_u32_le(footer, 20) {
            return Err(corrupt("sst footer crc mismatch"));
        }
    }
    Ok(
        Footer {
            index_offset: get_u64_le(footer, 0),
            index_size: get_u64_le(footer, 8),
            index_crc: get_u32_le(footer, 16),
            len,
        },
    )
}

/// Why the index region of a table of `size` bytes does not end at the footer.
pub open spec fn layout_complaint(f: Footer, size: nat) -> Seq<char> {
    if size < f.len {
        "sst footer outside object"@
    } else if f.index_offset + f.index_size > u64::MAX {
        "sst index region overflow"@
    } else {
        "sst index region does not end at footer"@
    }
}

/// Checks that the index region of a table of `size` bytes ends at the footer.
pub fn validate_footer_layout(footer: &Footer, size: u64) -> (r: Result<(), Error>)
    ensures
        footer_fits(*footer, size as nat) ==> r is Ok,
        !footer_fits(*footer, size as nat) ==> r is Err && r->Err_0 is Corrupt && r->Err_0->Corrupt_0@
            == layout_complaint(*footer, size as nat),
{
    let len: u64 = footer.len as u64;
    if size < len {
        return Err(corrupt("sst footer outside object"));
    }
    match footer.index_offset.checked_add(footer.index_size) {
        None => Err(corrupt("sst index region overflow")),
        Some(end) => if end != size - len {
            Err(corrupt("sst index region does not end at footer"))
        } else {
            Ok(())
        },
    }
}

proof fn lemma_handles_len(
    idx: Seq<u8>,
    pos: int,
    left: nat,
    expected: nat,
    data_end: nat,
    prev: Option<Seq<u8>>,
)
    requires
        0 <= pos <= idx.len(),
    ensures
        handles_at(idx, pos, left, expected, data_end, prev) matches Some((hs, end, covered)) ==> {
            &&& hs.len() == left
            &&& pos + 20 * left <= end <= idx.len()
        },
    decreases left,
{
    if left > 0 {
        if let Some((h, next)) = handle_at(idx, pos, expected, data_end, prev) {
            lemma_handles_len(
                idx,
                next,
                (left - 1) as nat,
                handle_end(h),
                data_end,
                Some(h.last_key),
            );
        }
    }
}

/// The blocks of an index follow each other from `start` on and end at or
/// before `data_end`, in strictly increasing order of their keys, all above
/// `prev`.
pub open spec fn handles_ordered(
    hs: Seq<HandleView>,
    start: nat,
    data_end: nat,
    prev: Option<Seq<u8>>,
) -> bool {
    &&& forall|i: int| 0 <= i < hs.len() ==> handle_end(#[trigger] hs[i]) <= data_end
    &&& forall|i: int, j: int|
        0 <= i < j < hs.len() ==> order::lex_lt(#[trigger] hs[i].last_key, #[trigger] hs[j].last_key)
    &&& prev matches Some(p) ==> forall|i: int|
        0 <= i < hs.len() ==> order::lex_lt(p, #[trigger] hs[i].last_key)
}

/// A parsed index is ordered and stays inside the data region.
pub proof fn lemma_handles_ordered(
    idx: Seq<u8>,
    pos: int,
    left: nat,
    expected: nat,
    data_end: nat,
    prev: Option<Seq<u8>>,
)
    ensures
        handles_at(idx, pos, left, expected, data_end, prev) matches Some((hs, end, covered))
            ==> handles_ordered(hs, expected, data_end, prev),
    decreases left,
{
    if left > 0 {
        if let Some((h, next)) = handle_at(idx, pos, expected, data_end, prev) {
            lemma_handles_ordered(
                idx,
                next,
                (left - 1) as nat,
                handle_end(h),
                data_end,
                Some(h.last_key),
            );
            if let Some((rest, _, _)) = handles_at(
                idx,
                next,
                (left - 1) as nat,
                handle_end(h),
                data_end,
                Some(h.last_key),
            ) {
                let hs = seq![h] + rest;
                assert forall|i: int, j: int| 0 <= i < j < hs.len() implies order::lex_lt(
                    #[trigger] hs[i].last_key,
                    #[trigger] hs[j].last_key,
                ) by {
                    assert(hs[j] == rest[j - 1]);
                    if i > 0 {
                        assert(hs[i] == rest[i - 1]);
                    }
                }
                assert forall|i: int| 0 <= i < hs.len() implies handle_end(#[trigger] hs[i])
                    <= data_end by {
                    if i > 0 {
                        assert(hs[i] == rest[i - 1]);
                    }
                }
                if let Some(p) = prev {
                    assert forall|i: int| 0 <= i < hs.len() implies order::lex_lt(
                        p,
                        #[trigger] hs[i].last_key,
                    ) by {
                        if i > 0 {
                            assert(hs[i] == rest[i - 1]);
                            order::lemma_lex_transitive(p, h.last_key, hs[i].last_key);
                        }
                    }
                }
            }
        }
    }
}

/// Verifies the checksum of an index region and decodes it.
pub fn parse_index(idx: &[u8], index_crc: u32, data_end: u64) -> (r: Result<Vec<IndexEntry>, Error>)
    ensures
        match index_of(idx@, index_crc as nat, data_end as nat) {
            Some(hs) => r is Ok && index_view(r->Ok_0@) == hs,
            None => r is Err && r->Err_0 is Corrupt,
        },
{
    let len: usize = idx.len();
    if crc32(idx) != index_crc {
        return Err(corrupt("sst index crc mismatch"));
    }
    if len < 4 {
        return Err(corrupt("sst u32 out of bounds"));
    }
    let stored = get_u32_le(idx, 0);
    let count: u64 = stored as u64;
    proof {
        lemma_handles_len(idx@, 4, count as nat, 0, data_end as nat, None);
    }
    if count > ((len - 4) / 20) as u64 {
        return Err(corrupt("sst index entry count out of bounds"));
    }
    let mut index: Vec<IndexEntry> = Vec::new();
    let mut expected: u64 = 0;
    let mut pos: usize = 4;
    let mut left: u64 = count;
    let ghost mut prev: Option<Seq<u8>> = None;
    let ghost whole = handles_at(idx@, 4, count as nat, 0, data_end as nat, None);
    assert(index_view(index@) =~= Seq::empty());
    proof {
        if let Some((rest, end, covered)) = whole {
            assert(Seq::<HandleView>::empty() + rest =~= rest);
        }
    }
    while left > 0
        invariant
            len == idx@.len(),
            4 <= pos <= len,
            whole == handles_at(idx@, 4, count as nat, 0, data_end as nat, None),
            prev == (if index@.len() == 0 {
                None::<Seq<u8>>
            } else {
                Some(index@.last().last_key@)
            }),
            whole == (match handles_at(
                idx@,
                pos as int,
                left as nat,
                expected as nat,
                data_end as nat,
                prev,
            ) {
                None => None,
                Some((rest, end, covered)) => Some((index_view(index@) + rest, end, covered)),
            }),
            whole is None ==> index_of(idx@, index_crc as nat, data_end as nat) is None,
        decreases left,
    {
        let ghost start = pos as int;
        let ghost before = index@;
        if len - pos < 4 {
            return Err(corrupt("sst u32 out of bounds"));
        }
        let klen: u64 = get_u32_le(idx, pos) as u64;
        pos = pos + 4;
        if klen > (len - pos) as u64 {
            return Err(corrupt("sst index key out of bounds"));
        }
        let key_end: usize = pos + klen as usize;
        let key = to_vec(slice_of(idx, pos, key_end));
        if len - key_end < 16 {
            return Err(corrupt("sst u64 out of bounds"));
        }
        let offset = get_u64_le(idx, key_end);
        let size = get_u64_le(idx, key_end + 8);
        pos = key_end + 16;
        let block_end: u64 = match offset.checked_add(size) {
            None => {
                return Err(corrupt("sst block region overflow"));
            },
            Some(end) => match end.checked_add(4) {
                None => {
                    return Err(corrupt("sst block region overflow"));
                },
                Some(end) => end,
            },
        };
        if offset != expected || block_end > data_end {
            return Err(corrupt("sst block handle out of bounds"));
        }
        if index.len() > 0 {
            let previous = &index[index.len() - 1];
            proof {
                order::lemma_lex_total(previous.last_key@, key@);
            }
            if !matches!(compare_bytes(previous.last_key.as_slice(), key.as_slice()), Order::Less) {
                return Err(corrupt("sst index keys are not strictly increasing"));
            }
        }
        let entry = IndexEntry { last_key: key, offset, size };
        let ghost h = entry@;
        assert(handle_at(idx@, start, expected as nat, data_end as nat, prev) == Some(
            (h, pos as int),
        ));
        expected = block_end;
        index.push(entry);
        assert(index_view(index@) =~= index_view(before).push(h));
        proof {
            prev = Some(h.last_key);
            if let Some((rest, end, covered)) = handles_at(
                idx@,
                pos as int,
                (left - 1) as nat,
                expected as nat,
                data_end as nat,
                prev,
            ) {
                assert(index_view(before) + (seq![h] + rest) =~= index_view(index@) + rest);
            }
        }
        left = left - 1;
    }
    assert(index_view(index@) + Seq::<HandleView>::empty() =~= index_view(index@));
    if pos != len {
        return Err(corrupt("sst index has trailing bytes"));
    }
    if expected != data_end {
        return Err(corrupt("sst index does not cover the data region"));
    }
    Ok(index)
}


/// The index of a whole table, or `None` if the bytes are not a table.
pub open spec fn table_index(data: Seq<u8>) -> Option<Seq<HandleView>> {
    let n = data.len() as int;
    if n < FOOTER_V1_LEN {
        None
    } else {
        let start = if n < FOOTER_LEN { 0 } else { n - FOOTER_LEN };
        match footer_of(data.subrange(start, n)) {
            None => None,
            Some(f) => if footer_fits(f, n as nat) {
                index_of(
                    data.subrange(f.index_offset as int, f.index_offset + f.index_size),
                    f.index_crc as nat,
                    f.index_offset as nat,
                )
            } else {
                None
            },
        }
    }
}

/// The stored bytes of the block that a handle points at.
pub open spec fn stored_block(data: Seq<u8>, h: HandleView) -> Seq<u8> {
    data.subrange(h.offset as int, handle_end(h) as int)
}

/// The entries of the blocks of an index, one block after the other; `None` if
/// one of them is damaged.
pub open spec fn blocks_entries(data: Seq<u8>, index: Seq<HandleView>) -> Option<
    Seq<(Seq<u8>, Seq<u8>)>,
>
    decreases index.len(),
{
    if index.len() == 0 {
        Some(Seq::empty())
    } else {
        match (
            blocks_entries(data, index.drop_last()),
            block::stored_block_entries(stored_block(data, index.last())),
        ) {
            (Some(front), Some(es)) => Some(front + es),
            _ => None,
        }
    }
}

/// The first block, from `i` on, whose last key is not below `key`; the number
/// of blocks if there is none.
pub open spec fn block_for(index: Seq<HandleView>, key: Seq<u8>, i: int) -> int
    decreases index.len() - i,
{
    if i >= index.len() {
        index.len() as int
    } else if order::lex_lt(index[i].last_key, key) {
        block_for(index, key, i + 1)
    } else {
        i
    }
}

/// The value of `key` among sorted entries.
pub open spec fn value_in(es: Seq<(Seq<u8>, Seq<u8>)>, key: Seq<u8>) -> Option<Seq<u8>>
    decreases es.len(),
{
    if es.len() == 0 || order::lex_lt(key, es[0].0) {
        None
    } else if es[0].0 == key {
        Some(es[0].1)
    } else {
        value_in(es.drop_first(), key)
    }
}

/// What a point lookup in a table answers: `None` if the block that could hold
/// the key is damaged, otherwise the value of the key if it has one.
pub open spec fn table_get(data: Seq<u8>, index: Seq<HandleView>, key: Seq<u8>) -> Option<
    Option<Seq<u8>>,
> {
    let b = block_for(index, key, 0);
    if b >= index.len() {
        Some(None)
    } else {
        match block::stored_block_entries(stored_block(data, index[b])) {
            None => None,
            Some(es) => Some(value_in(es, key)),
        }
    }
}

pub proof fn lemma_block_for(index: Seq<HandleView>, key: Seq<u8>, i: int, b: int)
    requires
        0 <= i <= b <= index.len(),
        forall|j: int| 0 <= j < b ==> order::lex_lt(#[trigger] index[j].last_key, key),
        b < index.len() ==> !order::lex_lt(index[b].last_key, key),
    ensures
        block_for(index, key, i) == b,
    decreases b - i,
{
    if i < b {
        assert(order::lex_lt(index[i].last_key, key));
        lemma_block_for(index, key, i + 1, b);
    }
}

/// The position of the first block whose last key is not below `key`.
pub fn find_block(index: &Vec<IndexEntry>, key: &[u8]) -> (b: usize)
    requires
        forall|i: int, j: int|
            0 <= i < j < index@.len() ==> order::lex_lt(
                #[trigger] index@[i].last_key@,
                #[trigger] index@[j].last_key@,
            ),
    ensures
        b == block_for(index_view(index@), key@, 0),
        b <= index@.len(),
{
    let mut low: usize = 0;
    let mut high: usize = index.len();
    while low < high
        invariant
            low <= high <= index@.len(),
            forall|j: int| 0 <= j < low ==> order::lex_lt(#[trigger] index@[j].last_key@, key@),
            high < index@.len() ==> !order::lex_lt(index@[high as int].last_key@, key@),
            forall|i: int, j: int|
                0 <= i < j < index@.len() ==> order::lex_lt(
                    #[trigger] index@[i].last_key@,
                    #[trigger] index@[j].last_key@,
                ),
        decreases high - low,
    {
        let mid: usize = low + (high - low) / 2;
        proof {
            order::lemma_lex_total(index@[mid as int].last_key@, key@);
        }
        if matches!(compare_bytes(index[mid].last_key.as_slice(), key), Order::Less) {
            assert forall|j: int| 0 <= j < mid + 1 implies order::lex_lt(
                #[trigger] index@[j].last_key@,
                key@,
            ) by {
                if j < mid {
                    order::lemma_lex_transitive(index@[j].last_key@, index@[mid as int].last_key@, key@);
                }
            }
            low = mid + 1;
        } else {
            high = mid;
        }
    }
    proof {
        let view = index_view(index@);
        assert forall|j: int| 0 <= j < low implies order::lex_lt(#[trigger] view[j].last_key, key@) by {
            assert(order::lex_lt(index@[j].last_key@, key@));
        }
        lemma_block_for(view, key@, 0, low as int);
    }
    low
}

/// The value of `key` among sorted entries.
fn find_value(entries: Vec<Entry>, key: &[u8]) -> (r: Option<Vec<u8>>)
    ensures
        match value_in(block::entries_view(entries@), key@) {
            Some(v) => r is Some && r->Some_0@ == v,
            None => r is None,
        },
{
    let ghost all = block::entries_view(entries@);
    let mut i: usize = 0;
    assert(all.subrange(0, all.len() as int) =~= all);
    while i < entries.len()
        invariant
            i <= entries@.len(),
            all == block::entries_view(entries@),
            value_in(all, key@) == value_in(all.subrange(i as int, all.len() as int), key@),
        decreases entries@.len() - i,
    {
        let ghost rest = all.subrange(i as int, all.len() as int);
        assert(rest[0] == block::entry_view(entries@[i as int]));
        proof {
            order::lemma_lex_total(entries@[i as int].0@, key@);
        }
        match compare_bytes(entries[i].0.as_slice(), key) {
            Order::Equal => {
                return Some(to_vec(entries[i].1.as_slice()));
            },
            Order::Greater => {
                return None;
            },
            Order::Less => {},
        }
        assert(rest.drop_first() =~= all.subrange(i + 1, all.len() as int));
        i = i + 1;
    }
    None
}

/// A table held in memory.
pub struct SstReader {
    data: Vec<u8>,
    index: Vec<IndexEntry>,
}

impl SstReader {
    /// The bytes of the table.
    pub closed spec fn data(self) -> Seq<u8> {
        self.data@
    }

    /// The index of the table.
    pub closed spec fn index(self) -> Seq<HandleView> {
        index_view(self.index@)
    }

    #[verifier::type_invariant]
    closed spec fn wf(self) -> bool {
        handles_ordered(index_view(self.index@), 0, self.data@.len(), None)
    }

    /// Reads the footer and the index of a table.
    pub fn open(data: Vec<u8>) -> (r: Result<SstReader, Error>)
        ensures
            match table_index(data@) {
                Some(index) => r is Ok && r->Ok_0.data() == data@ && r->Ok_0.index() == index,
                None => r is Err && r->Err_0 is Corrupt,
            },
    {
        let n: usize = data.len();
        if n < FOOTER_V1_LEN {
            return Err(corrupt("sst shorter than footer"));
        }
        let tail_start: usize = if n < FOOTER_LEN {
            0
        } else {
            n - FOOTER_LEN
        };
        let footer = match parse_footer(slice_of(data.as_slice(), tail_start, n)) {
            Ok(f) => f,
            Err(e) => {
                return Err(e);
            },
        };
        match validate_footer_layout(&footer, n as u64) {
            Ok(_) => {},
            Err(e) => {
                return Err(e);
            },
        }
        let start: usize = footer.index_offset as usize;
        let end: usize = start + footer.index_size as usize;
        let index = match parse_index(
            slice_of(data.as_slice(), start, end),
            footer.index_crc,
            footer.index_offset,
        ) {
            Ok(index) => index,
            Err(e) => {
                return Err(e);
            },
        };
        proof {
            let idx = data@.subrange(start as int, end as int);
            lemma_handles_ordered(
                idx,
                4,
                codec::le_value(idx.subrange(0, 4)),
                0,
                footer.index_offset as nat,
                None,
            );
        }
        Ok(SstReader { data, index })
    }

    /// Looks up a key.
    pub fn get(&self, key: &[u8]) -> (r: Result<Option<Vec<u8>>, Error>)
        ensures
            match table_get(self.data(), self.index(), key@) {
                None => r is Err && r->Err_0 is Corrupt,
                Some(None) => r is Ok && r->Ok_0 is None,
                Some(Some(v)) => r is Ok && r->Ok_0 is Some && r->Ok_0->Some_0@ == v,
            },
    {
        proof {
            use_type_invariant(self);
            let view = index_view(self.index@);
            assert forall|i: int, j: int| 0 <= i < j < self.index@.len() implies order::lex_lt(
                #[trigger] self.index@[i].last_key@,
                #[trigger] self.index@[j].last_key@,
            ) by {
                assert(order::lex_lt(view[i].last_key, view[j].last_key));
            }
        }
        let b = find_block(&self.index, key);
        if b >= self.index.len() {
            return Ok(None);
        }
        match self.decode_block(b) {
            Ok(entries) => Ok(find_value(entries, key)),
            Err(e) => Err(e),
        }
    }

    /// All entries, in the order of the file.
    pub fn entries(&self) -> (r: Result<Vec<Entry>, Error>)
        ensures
            match blocks_entries(self.data(), self.index()) {
                None => r is Err && r->Err_0 is Corrupt,
                Some(es) => r is Ok && block::entries_view(r->Ok_0@) == es,
            },
    {
        let mut out: Vec<Entry> = Vec::new();
        let mut b: usize = 0;
        let ghost index = self.index();
        assert(index.take(0) =~= Seq::empty());
        assert(block::entries_view(out@) =~= Seq::empty());
        while b < self.index.len()
            invariant
                b <= self.index@.len(),
                index == index_view(self.index@),
                blocks_entries(self.data@, index.take(b as int)) == Some(block::entries_view(out@)),
            decreases self.index@.len() - b,
        {
            let ghost front = index.take(b + 1);
            assert(front.drop_last() =~= index.take(b as int));
            assert(front.last() == index[b as int]);
            let mut block = match self.decode_block(b) {
                Ok(entries) => entries,
                Err(e) => {
                    proof {
                        lemma_damaged_block(self.data@, index, b as int);
                    }
                    return Err(e);
                },
            };
            let ghost before = out@;
            let ghost added = block@;
            out.append(&mut block);
            assert(block::entries_view(out@) =~= block::entries_view(before) + block::entries_view(added));
            b = b + 1;
        }
        assert(index.take(b as int) =~= index);
        Ok(out)
    }

    fn decode_block(&self, b: usize) -> (r: Result<Vec<Entry>, Error>)
        requires
            b < self.index@.len(),
        ensures
            match block::stored_block_entries(stored_block(self.data@, index_view(self.index@)[b as int])) {
                Some(es) => r is Ok && block::entries_view(r->Ok_0@) == es,
                None => r is Err && r->Err_0 is Corrupt,
            },
    {
        proof {
            use_type_invariant(self);
            let h = index_view(self.index@)[b as int];
            assert(handle_end(h) <= self.data@.len());
        }
        let total: usize = self.data.len();
        let entry = &self.index[b];
        let start: usize = entry.offset as usize;
        let end: usize = start + entry.size as usize + 4;
        decode_stored_block(slice_of(self.data.as_slice(), start, end))
    }
}

proof fn lemma_damaged_block(data: Seq<u8>, index: Seq<HandleView>, b: int)
    requires
        0 <= b < index.len(),
        block::stored_block_entries(stored_block(data, index[b])) is None,
    ensures
        blocks_entries(data, index) is None,
    decreases index.len(),
{
    if b < index.len() - 1 {
        assert(index.drop_last()[b] == index[b]);
        lemma_damaged_block(data, index.drop_last(), b);
    }
}


/// The range of bytes that holds the footer of a table of `size` bytes.
pub fn footer_range(size: u64) -> (r: Result<(u64, u64), Error>)
    ensures
        size < FOOTER_V1_LEN ==> r is Err && r->Err_0 is Corrupt && r->Err_0->Corrupt_0@
            == "sst shorter than footer"@,
        size >= FOOTER_V1_LEN ==> r is Ok && r->Ok_0.1 == size && r->Ok_0.0 == (if size
            < FOOTER_LEN {
            0
        } else {
            size - FOOTER_LEN
        }),
{
    if size < FOOTER_V1_LEN as u64 {
        return Err(corrupt("sst shorter than footer"));
    }
    let tail_len: u64 = if size < FOOTER_LEN as u64 {
        size
    } else {
        FOOTER_LEN as u64
    };
    Ok((size - tail_len, size))
}

/// The footer in the trailing bytes of a table of `size` bytes, and the range of
/// bytes that holds the index.
pub fn index_range(size: u64, tail: &[u8]) -> (r: Result<(Footer, u64, u64), Error>)
    ensures
        match footer_of(tail@) {
            Some(f) => if footer_fits(f, size as nat) {
                r is Ok && r->Ok_0 == (
                    f,
                    f.index_offset,
                    (f.index_offset + f.index_size) as u64,
                ) && f.index_offset + f.index_size <= u64::MAX
            } else {
                r is Err && r->Err_0 is Corrupt && r->Err_0->Corrupt_0@ == layout_complaint(
                    f,
                    size as nat,
                )
            },
            None => r is Err && r->Err_0 is Corrupt && r->Err_0->Corrupt_0@ == footer_complaint(
                tail@,
            ),
        },
{
    let footer = match parse_footer(tail) {
        Ok(f) => f,
        Err(e) => {
            return Err(e);
        },
    };
    match validate_footer_layout(&footer, size) {
        Ok(_) => {},
        Err(e) => {
            return Err(e);
        },
    }
    let start: u64 = footer.index_offset;
    let end: u64 = footer.index_offset + footer.index_size;
    Ok((footer, start, end))
}

/// The range of bytes of the one block that can hold `key`, read off the index
/// region; `None` if no block can hold it.
pub fn block_range(footer: &Footer, idx: &[u8], key: &[u8]) -> (r: Result<Option<(u64, u64)>, Error>)
    ensures
        match index_of(idx@, footer.index_crc as nat, footer.index_offset as nat) {
            None => r is Err && r->Err_0 is Corrupt,
            Some(index) => r is Ok && {
                let b = block_for(index, key@, 0);
                if b >= index.len() {
                    r->Ok_0 is None
                } else {
                    &&& r->Ok_0 is Some
                    &&& r->Ok_0->Some_0.0 as nat == index[b].offset
                    &&& r->Ok_0->Some_0.1 as nat == handle_end(index[b])
                }
            },
        },
{
    let index = match parse_index(idx, footer.index_crc, footer.index_offset) {
        Ok(index) => index,
        Err(e) => {
            return Err(e);
        },
    };
    proof {
        lemma_handles_ordered(
            idx@,
            4,
            codec::le_value(idx@.subrange(0, 4)),
            0,
            footer.index_offset as nat,
            None,
        );
        let view = index_view(index@);
        assert forall|i: int, j: int| 0 <= i < j < index@.len() implies order::lex_lt(
            #[trigger] index@[i].last_key@,
            #[trigger] index@[j].last_key@,
        ) by {
            assert(order::lex_lt(view[i].last_key, view[j].last_key));
        }
    }
    let b = find_block(&index, key);
    if b >= index.len() {
        return Ok(None);
    }
    proof {
        let h = index_view(index@)[b as int];
        assert(handle_end(h) <= footer.index_offset);
    }
    let start: u64 = index[b].offset;
    let end: u64 = start + index[b].size + 4;
    Ok(Some((start, end)))
}

/// Looks up `key` in the stored bytes of the block that can hold it.
pub fn find_in_block(block: &[u8], key: &[u8]) -> (r: Result<Option<Vec<u8>>, Error>)
    ensures
        match block::stored_block_entries(block@) {
            None => r is Err && r->Err_0 is Corrupt,
            Some(es) => r is Ok && match value_in(es, key@) {
                Some(v) => r->Ok_0 is Some && r->Ok_0->Some_0@ == v,
                None => r->Ok_0 is None,
            },
        },
{
    match decode_stored_block(block) {
        Ok(entries) => Ok(find_value(entries, key)),
        Err(e) => Err(e),
    }
}

} // verus!
