//! Writing a table, and what reading it back gives.

use vstd::prelude::*;

use crate::sst::reader;
use crate::sst::block;
use crate::order;
use crate::codec;
use crate::checksum;
use crate::checksum::crc32;
use crate::codec::{append, put_u32_le, put_u64_le, to_vec};
use crate::error::{corrupt, Error};
use crate::order::{compare_bytes, Order};
use crate::sst::block::{checked_u32, BlockBuilder, Entry};
use crate::sst::reader::{magic_bytes, Footer, HandleView, IndexEntry, FOOTER_LEN, FORMAT_VERSION};

verus! {

/// The block size, in bytes, from which a block is closed.
pub const DEFAULT_BLOCK_TARGET: usize = 4096;

/// Every how many entries a key is stored whole.
pub const DEFAULT_RESTART_INTERVAL: usize = 16;

/// Keys strictly increase.
pub open spec fn keys_sorted(es: Seq<(Seq<u8>, Seq<u8>)>) -> bool {
    forall|i: int, j: int| 0 <= i < j < es.len() ==> order::lex_lt(#[trigger] es[i].0, #[trigger] es[j].0)
}

/// The entries of a list of blocks, one block after the other.
pub open spec fn joined(blocks: Seq<Seq<(Seq<u8>, Seq<u8>)>>) -> Seq<(Seq<u8>, Seq<u8>)>
    decreases blocks.len(),
{
    if blocks.len() == 0 {
        Seq::empty()
    } else {
        joined(blocks.drop_last()) + blocks.last()
    }
}

/// The blocks that an index points at, read back.
pub open spec fn block_list(data: Seq<u8>, index: Seq<HandleView>) -> Seq<
    Seq<(Seq<u8>, Seq<u8>)>,
> {
    Seq::new(
        index.len(),
        |i: int| block::stored_block_entries(reader::stored_block(data, index[i]))->Some_0,
    )
}

/// Every block of the index reads back, is not empty, and ends with the key
/// that the index says.
pub open spec fn blocks_keyed(data: Seq<u8>, index: Seq<HandleView>) -> bool {
    forall|i: int|
        0 <= i < index.len() ==> {
            let block = block::stored_block_entries(reader::stored_block(data, #[trigger] index[i]));
            block is Some && block->Some_0.len() > 0 && block->Some_0.last().0
                == index[i].last_key
        }
}

/// The bytes are a table that holds exactly the entries `es`.
pub open spec fn is_table_of(data: Seq<u8>, es: Seq<(Seq<u8>, Seq<u8>)>) -> bool {
    match reader::table_index(data) {
        None => false,
        Some(index) => reader::blocks_entries(data, index) == Some(es) && blocks_keyed(data, index),
    }
}

/// The bytes of an index entry.
pub open spec fn handle_bytes(h: HandleView) -> Seq<u8> {
    codec::le_bytes(h.last_key.len(), 4) + h.last_key + codec::le_bytes(h.offset, 8) + codec::le_bytes(h.size, 8)
}

/// The bytes of a list of index entries.
pub open spec fn handles_bytes(hs: Seq<HandleView>) -> Seq<u8>
    decreases hs.len(),
{
    if hs.len() == 0 {
        Seq::empty()
    } else {
        handle_bytes(hs[0]) + handles_bytes(hs.drop_first())
    }
}

/// Each block starts where the one before it ends, the first one at `start`.
pub open spec fn chained(hs: Seq<HandleView>, start: nat) -> bool {
    forall|i: int| 0 <= i < hs.len() ==> #[trigger] follows(hs, start, i)
}

/// Block `i` starts where the one before it ends, or at `start`.
pub open spec fn follows(hs: Seq<HandleView>, start: nat, i: int) -> bool {
    hs[i].offset == (if i == 0 {
        start
    } else {
        reader::handle_end(hs[i - 1])
    })
}

/// Where the blocks end.
pub open spec fn chain_end(hs: Seq<HandleView>, start: nat) -> nat {
    if hs.len() == 0 {
        start
    } else {
        reader::handle_end(hs.last())
    }
}

proof fn lemma_chain_bound(hs: Seq<HandleView>, start: nat, i: int)
    requires
        chained(hs, start),
        0 <= i < hs.len(),
    ensures
        reader::handle_end(hs[i]) <= chain_end(hs, start),
    decreases hs.len() - i,
{
    if i < hs.len() - 1 {
        lemma_chain_bound(hs, start, i + 1);
        assert(follows(hs, start, i + 1));
    }
}

/// A written index entry reads back.
proof fn lemma_handle_round_trip(
    h: HandleView,
    pre: Seq<u8>,
    post: Seq<u8>,
    expected: nat,
    data_end: nat,
    prev: Option<Seq<u8>>,
)
    requires
        h.last_key.len() <= u32::MAX,
        h.offset == expected,
        reader::handle_end(h) <= data_end <= u64::MAX,
        prev matches Some(p) ==> order::lex_lt(p, h.last_key),
    ensures
        reader::handle_at(pre + handle_bytes(h) + post, pre.len() as int, expected, data_end, prev) == Some(
            (h, (pre.len() + handle_bytes(h).len()) as int),
        ),
{
    let idx = pre + handle_bytes(h) + post;
    let pos = pre.len() as int;
    codec::lemma_byte_range();
    codec::lemma_le_round_trip(h.last_key.len(), 4);
    codec::lemma_le_round_trip(h.offset, 8);
    codec::lemma_le_round_trip(h.size, 8);
    let key_end = pos + 4 + h.last_key.len();
    assert(idx.subrange(pos, pos + 4) =~= codec::le_bytes(h.last_key.len(), 4));
    assert(idx.subrange(pos + 4, key_end) =~= h.last_key);
    assert(idx.subrange(key_end, key_end + 8) =~= codec::le_bytes(h.offset, 8));
    assert(idx.subrange(key_end + 8, key_end + 16) =~= codec::le_bytes(h.size, 8));
}

/// A written list of index entries reads back.
proof fn lemma_handles_round_trip(
    hs: Seq<HandleView>,
    pre: Seq<u8>,
    expected: nat,
    data_end: nat,
    prev: Option<Seq<u8>>,
)
    requires
        chained(hs, expected),
        chain_end(hs, expected) <= data_end <= u64::MAX,
        forall|i: int| 0 <= i < hs.len() ==> #[trigger] hs[i].last_key.len() <= u32::MAX,
        forall|i: int, j: int|
            0 <= i < j < hs.len() ==> order::lex_lt(#[trigger] hs[i].last_key, #[trigger] hs[j].last_key),
        prev matches Some(p) ==> hs.len() > 0 ==> order::lex_lt(p, hs[0].last_key),
    ensures
        reader::handles_at(
            pre + handles_bytes(hs),
            pre.len() as int,
            hs.len(),
            expected,
            data_end,
            prev,
        ) == Some((hs, (pre.len() + handles_bytes(hs).len()) as int, chain_end(hs, expected))),
    decreases hs.len(),
{
    if hs.len() == 0 {
        assert(hs =~= Seq::empty());
    } else {
        let h = hs[0];
        let rest = hs.drop_first();
        let next = reader::handle_end(h);
        assert(follows(hs, expected, 0));
        lemma_chain_bound(hs, expected, 0);
        lemma_handle_round_trip(h, pre, handles_bytes(rest), expected, data_end, prev);
        assert(pre + handles_bytes(hs) =~= pre + handle_bytes(h) + handles_bytes(rest));
        assert(chained(rest, next)) by {
            assert forall|i: int| 0 <= i < rest.len() implies #[trigger] follows(rest, next, i) by {
                assert(rest[i] == hs[i + 1]);
                assert(follows(hs, expected, i + 1));
            }
        }
        assert(chain_end(rest, next) == chain_end(hs, expected));
        assert forall|i: int, j: int| 0 <= i < j < rest.len() implies order::lex_lt(
            #[trigger] rest[i].last_key,
            #[trigger] rest[j].last_key,
        ) by {
            assert(rest[i] == hs[i + 1] && rest[j] == hs[j + 1]);
        }
        assert forall|i: int| 0 <= i < rest.len() implies #[trigger] rest[i].last_key.len()
            <= u32::MAX by {
            assert(rest[i] == hs[i + 1]);
        }
        if rest.len() > 0 {
            assert(order::lex_lt(hs[0].last_key, hs[1].last_key));
        }
        let pre2 = pre + handle_bytes(h);
        lemma_handles_round_trip(rest, pre2, next, data_end, Some(h.last_key));
        assert(pre2 + handles_bytes(rest) =~= pre + handles_bytes(hs));
        assert(seq![h] + rest =~= hs);
    }
}

/// The bytes of an index region.
pub open spec fn index_bytes(hs: Seq<HandleView>) -> Seq<u8> {
    codec::le_bytes(hs.len(), 4) + handles_bytes(hs)
}

/// The bytes of a footer.
pub open spec fn footer_bytes(offset: nat, size: nat, crc: u32) -> Seq<u8> {
    let handle = codec::le_bytes(offset, 8) + codec::le_bytes(size, 8) + codec::le_bytes(crc as nat, 4);
    let tail = codec::le_bytes(FORMAT_VERSION as nat, 4) + reader::magic();
    handle + codec::le_bytes(checksum::crc32_of(handle + tail) as nat, 4) + tail
}

/// A written footer reads back.
proof fn lemma_footer_round_trip(offset: nat, size: nat, crc: u32)
    requires
        offset <= u64::MAX,
        size <= u64::MAX,
    ensures
        footer_bytes(offset, size, crc).len() == FOOTER_LEN,
        reader::footer_of(footer_bytes(offset, size, crc)) == Some(
            Footer {
                index_offset: offset as u64,
                index_size: size as u64,
                index_crc: crc,
                len: FOOTER_LEN,
            },
        ),
{
    codec::lemma_byte_range();
    codec::lemma_le_round_trip(offset, 8);
    codec::lemma_le_round_trip(size, 8);
    codec::lemma_le_round_trip(crc as nat, 4);
    codec::lemma_le_round_trip(FORMAT_VERSION as nat, 4);
    let handle = codec::le_bytes(offset, 8) + codec::le_bytes(size, 8) + codec::le_bytes(crc as nat, 4);
    let tail = codec::le_bytes(FORMAT_VERSION as nat, 4) + reader::magic();
    let sum = checksum::crc32_of(handle + tail);
    codec::lemma_le_round_trip(sum as nat, 4);
    let f = footer_bytes(offset, size, crc);
    assert(f.subrange(28, 36) =~= reader::magic());
    assert(f.subrange(24, 28) =~= codec::le_bytes(FORMAT_VERSION as nat, 4));
    assert(f.subrange(0, 36) =~= f);
    assert(f.subrange(0, 20) =~= handle);
    assert(f.subrange(24, 36) =~= tail);
    assert(f.subrange(20, 24) =~= codec::le_bytes(sum as nat, 4));
    assert(f.subrange(0, 8) =~= codec::le_bytes(offset, 8));
    assert(f.subrange(8, 16) =~= codec::le_bytes(size, 8));
    assert(f.subrange(16, 20) =~= codec::le_bytes(crc as nat, 4));
}

/// Data, an index of it and a footer make a table with that index.
proof fn lemma_table_round_trip(data: Seq<u8>, hs: Seq<HandleView>, table: Seq<u8>)
    requires
        hs.len() <= u32::MAX,
        chained(hs, 0),
        chain_end(hs, 0) == data.len(),
        table.len() <= u64::MAX,
        forall|i: int| 0 <= i < hs.len() ==> #[trigger] hs[i].last_key.len() <= u32::MAX,
        forall|i: int, j: int|
            0 <= i < j < hs.len() ==> order::lex_lt(#[trigger] hs[i].last_key, #[trigger] hs[j].last_key),
        table == data + index_bytes(hs) + footer_bytes(
            data.len(),
            index_bytes(hs).len(),
            checksum::crc32_of(index_bytes(hs)),
        ),
    ensures
        reader::table_index(table) == Some(hs),
{
    let idx = index_bytes(hs);
    let footer = footer_bytes(data.len(), idx.len(), checksum::crc32_of(idx));
    lemma_footer_round_trip(data.len(), idx.len(), checksum::crc32_of(idx));
    let n = table.len() as int;
    assert(table.subrange(n - 36, n) =~= footer);
    assert(table.subrange(data.len() as int, (data.len() + idx.len()) as int) =~= idx);
    codec::lemma_byte_range();
    codec::lemma_le_round_trip(hs.len(), 4);
    assert(idx.subrange(0, 4) =~= codec::le_bytes(hs.len(), 4));
    lemma_handles_round_trip(hs, codec::le_bytes(hs.len(), 4), 0, data.len(), None);
}

/// What a block holds does not depend on what follows the data.
proof fn lemma_blocks_in_prefix(data: Seq<u8>, table: Seq<u8>, hs: Seq<HandleView>)
    requires
        chained(hs, 0),
        chain_end(hs, 0) == data.len(),
        data.len() <= table.len(),
        table.subrange(0, data.len() as int) == data,
    ensures
        forall|i: int|
            0 <= i < hs.len() ==> reader::stored_block(table, #[trigger] hs[i]) == reader::stored_block(
                data,
                hs[i],
            ),
{
    assert forall|i: int| 0 <= i < hs.len() implies reader::stored_block(table, #[trigger] hs[i])
        == reader::stored_block(data, hs[i]) by {
        lemma_chain_bound(hs, 0, i);
        assert(reader::stored_block(table, hs[i]) =~= reader::stored_block(
            table.subrange(0, data.len() as int),
            hs[i],
        ));
    }
}

proof fn lemma_blocks_joined(
    data: Seq<u8>,
    hs: Seq<HandleView>,
    blocks: Seq<Seq<(Seq<u8>, Seq<u8>)>>,
)
    requires
        hs.len() == blocks.len(),
        forall|i: int|
            0 <= i < hs.len() ==> block::stored_block_entries(reader::stored_block(data, #[trigger] hs[i]))
                == Some(blocks[i]),
    ensures
        reader::blocks_entries(data, hs) == Some(joined(blocks)),
    decreases hs.len(),
{
    if hs.len() > 0 {
        let front = hs.drop_last();
        assert forall|i: int| 0 <= i < front.len() implies block::stored_block_entries(
            reader::stored_block(data, #[trigger] front[i]),
        ) == Some(blocks.drop_last()[i]) by {
            assert(front[i] == hs[i]);
        }
        lemma_blocks_joined(data, front, blocks.drop_last());
        assert(hs.last() == hs[hs.len() - 1]);
    }
}

/// The restart interval that is used: one at least.
pub open spec fn interval_used(restart_interval: usize) -> nat {
    if restart_interval == 0 {
        1
    } else {
        restart_interval as nat
    }
}

/// How entries are cut into blocks: a block is closed once it has reached the target.
/// The second part is the block that is still open.
pub open spec fn cut(es: Seq<(Seq<u8>, Seq<u8>)>, target: nat, interval: nat) -> (
    Seq<Seq<(Seq<u8>, Seq<u8>)>>,
    Seq<(Seq<u8>, Seq<u8>)>,
)
    decreases es.len(),
{
    if es.len() == 0 {
        (Seq::empty(), Seq::empty())
    } else {
        let (closed, last) = cut(es.drop_last(), target, interval);
        let block = last.push(es.last());
        if block::block_estimate(block, interval) >= target {
            (closed.push(block), Seq::empty())
        } else {
            (closed, block)
        }
    }
}

proof fn lemma_cut_push(
    es: Seq<(Seq<u8>, Seq<u8>)>,
    e: (Seq<u8>, Seq<u8>),
    target: nat,
    interval: nat,
)
    ensures
        ({
            let (closed, last) = cut(es, target, interval);
            let block = last.push(e);
            cut(es.push(e), target, interval) == (if block::block_estimate(block, interval)
                >= target {
                (closed.push(block), Seq::<(Seq<u8>, Seq<u8>)>::empty())
            } else {
                (closed, block)
            })
        }),
{
    assert(es.push(e).drop_last() =~= es);
}

/// All the blocks of a table, the open one closed at the end.
pub open spec fn blocks_of(es: Seq<(Seq<u8>, Seq<u8>)>, target: nat, interval: nat) -> Seq<
    Seq<(Seq<u8>, Seq<u8>)>,
> {
    let (closed, last) = cut(es, target, interval);
    if last.len() == 0 {
        closed
    } else {
        closed.push(last)
    }
}

/// The bytes of some blocks, each with its checksum.
pub open spec fn blocks_bytes(blocks: Seq<Seq<(Seq<u8>, Seq<u8>)>>, interval: nat) -> Seq<u8>
    decreases blocks.len(),
{
    if blocks.len() == 0 {
        Seq::empty()
    } else {
        let content = block::block_bytes(blocks.last(), interval);
        blocks_bytes(blocks.drop_last(), interval) + content + codec::le_bytes(
            checksum::crc32_of(content) as nat,
            4,
        )
    }
}

/// The index entries of some blocks.
pub open spec fn handles_of(blocks: Seq<Seq<(Seq<u8>, Seq<u8>)>>, interval: nat) -> Seq<HandleView>
    decreases blocks.len(),
{
    if blocks.len() == 0 {
        Seq::empty()
    } else {
        handles_of(blocks.drop_last(), interval).push(
            HandleView {
                last_key: blocks.last().last().0,
                offset: blocks_bytes(blocks.drop_last(), interval).len(),
                size: block::block_bytes(blocks.last(), interval).len(),
            },
        )
    }
}

/// The bytes of a table: its blocks, their index and the footer.
pub open spec fn table_bytes(es: Seq<(Seq<u8>, Seq<u8>)>, target: nat, interval: nat) -> Seq<u8> {
    let blocks = blocks_of(es, target, interval);
    let data = blocks_bytes(blocks, interval);
    let index = index_bytes(handles_of(blocks, interval));
    data + index + footer_bytes(data.len(), index.len(), checksum::crc32_of(index))
}

/// Collects sorted entries into a table.
pub struct SstWriter {
    file: Vec<u8>,
    block: BlockBuilder,
    index: Vec<IndexEntry>,
    last_added: Option<Vec<u8>>,
    block_target: usize,
    restart_interval: usize,
    blocks: Ghost<Seq<Seq<(Seq<u8>, Seq<u8>)>>>,
}

/// The closed blocks in the file, as the index has them.
spec fn stored_blocks(
    file: Seq<u8>,
    hs: Seq<HandleView>,
    blocks: Seq<Seq<(Seq<u8>, Seq<u8>)>>,
) -> bool {
    &&& hs.len() == blocks.len()
    &&& chained(hs, 0)
    &&& chain_end(hs, 0) == file.len()
    &&& forall|i: int|
        0 <= i < hs.len() ==> {
            &&& block::stored_block_entries(reader::stored_block(file, #[trigger] hs[i])) == Some(blocks[i])
            &&& blocks[i].len() > 0
            &&& blocks[i].last().0 == hs[i].last_key
        }
}

impl SstWriter {
    /// The entries added so far.
    pub closed spec fn entries(self) -> Seq<(Seq<u8>, Seq<u8>)> {
        joined(self.blocks@) + self.block.entries@
    }

    /// The size from which a block is closed.
    pub closed spec fn block_target(self) -> nat {
        self.block_target as nat
    }

    /// Every how many entries of a block a key is stored whole.
    pub closed spec fn restart_interval(self) -> nat {
        self.restart_interval as nat
    }

    /// How many blocks the table has when it is finished.
    pub closed spec fn block_count(self) -> nat {
        self.index@.len() + (if self.block.entries@.len() > 0 {
            1nat
        } else {
            0nat
        })
    }

    /// The open block holds more bytes than the format can point into, and the
    /// next entry would have to be pointed at. It takes a block target above
    /// four gigabytes to get there.
    pub closed spec fn block_full(self) -> bool {
        self.block.full()
    }

    /// Keys are sorted and fit the format, and the file holds the closed blocks.
    pub closed spec fn wf(self) -> bool {
        let es = self.entries();
        &&& self.block.wf()
        &&& self.restart_interval >= 1
        &&& self.block.restart_interval == self.restart_interval
        &&& self.block.entries@.len() > 0 ==> self.block.buf@.len() < self.block_target
        &&& self.block.entries@.len() == 0 ==> self.block.buf@.len() == 0
        &&& stored_blocks(self.file@, reader::index_view(self.index@), self.blocks@)
        &&& self.file@ == blocks_bytes(self.blocks@, self.restart_interval as nat)
        &&& reader::index_view(self.index@) == handles_of(
            self.blocks@,
            self.restart_interval as nat,
        )
        &&& cut(es, self.block_target as nat, self.restart_interval as nat) == (
            self.blocks@,
            self.block.entries@,
        )
        &&& keys_sorted(es)
        &&& forall|i: int| 0 <= i < es.len() ==> #[trigger] es[i].0.len() <= u32::MAX
        &&& match self.last_added {
            None => es.len() == 0,
            Some(k) => es.len() > 0 && k@ == es.last().0,
        }
    }

    pub fn new() -> (w: SstWriter)
        ensures
            w.wf(),
            w.entries() == Seq::<(Seq<u8>, Seq<u8>)>::empty(),
            w.block_target() == DEFAULT_BLOCK_TARGET,
            w.restart_interval() == DEFAULT_RESTART_INTERVAL,
            w.block_count() == 0,
    {
        SstWriter::with_params(DEFAULT_BLOCK_TARGET, DEFAULT_RESTART_INTERVAL)
    }

    /// A writer that closes a block once it reaches `block_target` bytes and
    /// stores every `restart_interval`-th key whole (every key, for zero).
    pub fn with_params(block_target: usize, restart_interval: usize) -> (w: SstWriter)
        ensures
            w.wf(),
            w.entries() == Seq::<(Seq<u8>, Seq<u8>)>::empty(),
            w.block_target() == block_target,
            w.restart_interval() == interval_used(restart_interval),
            w.block_count() == 0,
    {
        let interval: usize = if restart_interval == 0 {
            1
        } else {
            restart_interval
        };
        let index: Vec<IndexEntry> = Vec::new();
        let block = BlockBuilder::new(interval);
        assert(reader::index_view(index@) =~= Seq::empty());
        let blocks: Ghost<Seq<Seq<(Seq<u8>, Seq<u8>)>>> = Ghost(Seq::empty());
        assert(joined(blocks@) + block.entries@ =~= Seq::empty());
        SstWriter {
            file: Vec::new(),
            block,
            index,
            last_added: None,
            block_target,
            restart_interval: interval,
            blocks,
        }
    }

    /// Adds an entry. Keys have to be added in strictly increasing order.
    pub fn add(&mut self, key: &[u8], value: &[u8]) -> (r: Result<(), Error>)
        requires
            old(self).wf(),
        ensures
            final(self).wf(),
            final(self).block_target() == old(self).block_target(),
            final(self).restart_interval() == old(self).restart_interval(),
            ({
                let es = old(self).entries();
                if key@.len() > u32::MAX {
                    &&& r is Err
                    &&& r->Err_0 is InvalidWrite
                    &&& r->Err_0->InvalidWrite_0@ == block::limit_words("index key length"@)
                    &&& *final(self) == *old(self)
                } else if es.len() > 0 && !order::lex_lt(es.last().0, key@) {
                    &&& r is Err
                    &&& r->Err_0 is Corrupt
                    &&& r->Err_0->Corrupt_0@
                        == "sst keys must be added in strictly increasing order"@
                    &&& *final(self) == *old(self)
                } else if old(self).block_full() {
                    &&& r is Err
                    &&& r->Err_0 is InvalidWrite
                    &&& r->Err_0->InvalidWrite_0@ == block::limit_words("block restart offset"@)
                    &&& *final(self) == *old(self)
                } else {
                    r is Ok && final(self).entries() == es.push((key@, value@))
                }
            }),
    {
        let ghost es = self.entries();
        match checked_u32(key.len(), "index key length") {
            Ok(_) => {},
            Err(e) => {
                return Err(e);
            },
        }
        if let Some(last) = &self.last_added {
            proof {
                order::lemma_lex_total(last@, key@);
            }
            if !matches!(compare_bytes(last.as_slice(), key), Order::Less) {
                return Err(corrupt("sst keys must be added in strictly increasing order"));
            }
        }
        match self.block.add(key, value) {
            Ok(_) => {},
            Err(e) => {
                return Err(e);
            },
        }
        self.last_added = Some(to_vec(key));
        let ghost e = (key@, value@);
        proof {
            assert(self.entries() =~= es.push(e));
            lemma_sorted_push(es, e);
            lemma_cut_push(es, e, self.block_target as nat, self.restart_interval as nat);
            self.block.lemma_bytes();
            assert(forall|i: int|
                0 <= i < es.push(e).len() ==> #[trigger] es.push(e)[i].0.len() <= u32::MAX);
        }
        if self.block.estimated_size() >= self.block_target {
            self.flush_block();
            assert(self.block.entries@ =~= Seq::empty());
        }
        assert(self.entries() == es.push(e));
        Ok(())
    }

    /// Closes the open block.
    fn flush_block(&mut self)
        requires
            old(self).block.wf(),
            old(self).block.entries@.len() > 0,
            old(self).restart_interval >= 1,
            stored_blocks(
                old(self).file@,
                reader::index_view(old(self).index@),
                old(self).blocks@,
            ),
            old(self).block.restart_interval == old(self).restart_interval,
            old(self).file@ == blocks_bytes(
                old(self).blocks@,
                old(self).restart_interval as nat,
            ),
            reader::index_view(old(self).index@) == handles_of(
                old(self).blocks@,
                old(self).restart_interval as nat,
            ),
        ensures
            final(self).blocks@ == old(self).blocks@.push(old(self).block.entries@),
            final(self).file@ == blocks_bytes(
                final(self).blocks@,
                final(self).restart_interval as nat,
            ),
            reader::index_view(final(self).index@) == handles_of(
                final(self).blocks@,
                final(self).restart_interval as nat,
            ),
            final(self).block.wf(),
            final(self).block.entries@.len() == 0,
            final(self).block.buf@.len() == 0,
            final(self).block.restart_interval == final(self).restart_interval,
            final(self).entries() == old(self).entries(),
            final(self).last_added == old(self).last_added,
            final(self).block_target == old(self).block_target,
            final(self).restart_interval == old(self).restart_interval,
            final(self).index@.len() == old(self).index@.len() + 1,
            stored_blocks(
                final(self).file@,
                reader::index_view(final(self).index@),
                final(self).blocks@,
            ),
    {
        let ghost file = self.file@;
        let ghost hs = reader::index_view(self.index@);
        let ghost blocks = self.blocks@;
        let ghost es = self.block.entries@;
        let mut block = BlockBuilder::new(self.restart_interval);
        std::mem::swap(&mut block, &mut self.block);
        let last_key = to_vec(block.last_key.as_slice());
        proof {
            block.lemma_last_key();
        }
        let content = block.finish();
        let offset: u64 = self.file.len() as u64;
        let size: u64 = content.len() as u64;
        let crc = crc32(content.as_slice());
        append(&mut self.file, content.as_slice());
        put_u32_le(&mut self.file, crc);
        let entry = IndexEntry { last_key, offset, size };
        let ghost h = entry@;
        self.index.push(entry);
        self.blocks = Ghost(blocks.push(es));
        proof {
            let hs2 = reader::index_view(self.index@);
            assert(hs2 =~= hs.push(h));
            assert(blocks.push(es).drop_last() =~= blocks);
            assert(self.entries() =~= old(self).entries());
            assert(self.file@ =~= blocks_bytes(blocks.push(es), self.restart_interval as nat));
            lemma_store_content(file, h, content@, es, self.file@);
            assert(self.file@.subrange(0, file.len() as int) =~= file);
            lemma_store_block(file, hs, blocks, h, es, self.file@);
        }
    }

    /// The bytes of the table. This fails only for a table of more blocks than
    /// the format can count.
    pub fn finish(self) -> (r: Result<Vec<u8>, Error>)
        requires
            self.wf(),
        ensures
            self.block_count() > u32::MAX ==> r is Err && r->Err_0 is InvalidWrite
                && r->Err_0->InvalidWrite_0@ == block::limit_words("index entry count"@),
            self.block_count() <= u32::MAX ==> r is Ok && is_table_of(r->Ok_0@, self.entries())
                && r->Ok_0@ == table_bytes(
                self.entries(),
                self.block_target(),
                self.restart_interval(),
            ),
    {
        let mut writer = self;
        let ghost es = self.entries();
        if !writer.block.is_empty() {
            writer.flush_block();
        }
        let ghost hs = reader::index_view(writer.index@);
        let ghost data = writer.file@;
        let count: usize = writer.index.len();
        let stored_count = match checked_u32(count, "index entry count") {
            Ok(n) => n,
            Err(e) => {
                return Err(e);
            },
        };
        assert(joined(writer.blocks@) + writer.block.entries@ =~= joined(writer.blocks@));
        proof {
            let blocks = writer.blocks@;
            assert forall|i: int| 0 <= i < hs.len() implies (#[trigger] blocks[i]).len() > 0
                && blocks[i].last().0 == hs[i].last_key by {
                assert(hs[i].last_key == hs[i].last_key);
            }
            lemma_handles_sorted(hs, blocks, es);
        }
        let idx = encode_index(&writer.index, stored_count);
        let footer = encode_footer(
            writer.file.len() as u64,
            idx.len() as u64,
            crc32(idx.as_slice()),
        );
        let mut file = writer.file;
        append(&mut file, idx.as_slice());
        append(&mut file, footer.as_slice());
        let total: usize = file.len();
        proof {
            lemma_finished(data, hs, writer.blocks@, file@);
        }
        Ok(file)
    }
}

/// The bytes of the index region.
fn encode_index(index: &Vec<IndexEntry>, count: u32) -> (idx: Vec<u8>)
    requires
        count == index@.len(),
        forall|j: int|
            0 <= j < index@.len() ==> #[trigger] reader::index_view(index@)[j].last_key.len()
                <= u32::MAX,
    ensures
        idx@ == index_bytes(reader::index_view(index@)),
{
    let ghost hs = reader::index_view(index@);
    let mut idx: Vec<u8> = Vec::new();
    put_u32_le(&mut idx, count);
    let ghost head = idx@;
    let mut i: usize = 0;
    assert(head =~= codec::le_bytes(hs.len(), 4));
    assert(hs.skip(0) =~= hs);
    while i < index.len()
        invariant
            i <= index@.len(),
            hs == reader::index_view(index@),
            idx@ + handles_bytes(hs.skip(i as int)) == head + handles_bytes(hs),
            forall|j: int| 0 <= j < hs.len() ==> #[trigger] hs[j].last_key.len() <= u32::MAX,
        decreases index@.len() - i,
    {
        let ghost before = idx@;
        let entry = &index[i];
        let ghost h = hs[i as int];
        assert(h == entry@);
        assert(h.last_key.len() <= u32::MAX);
        put_u32_le(&mut idx, entry.last_key.len() as u32);
        append(&mut idx, entry.last_key.as_slice());
        put_u64_le(&mut idx, entry.offset);
        put_u64_le(&mut idx, entry.size);
        assert(idx@ =~= before + handle_bytes(h));
        assert(hs.skip(i as int)[0] == h);
        assert(hs.skip(i as int).drop_first() =~= hs.skip(i + 1));
        assert(idx@ + handles_bytes(hs.skip(i + 1)) =~= before + handles_bytes(hs.skip(i as int)));
        i = i + 1;
    }
    assert(hs.skip(i as int) =~= Seq::empty());
    assert(idx@ =~= index_bytes(hs));
    idx
}

/// The bytes of the footer.
fn encode_footer(index_offset: u64, index_size: u64, index_crc: u32) -> (footer: Vec<u8>)
    ensures
        footer@ == footer_bytes(index_offset as nat, index_size as nat, index_crc),
{
    let mut footer: Vec<u8> = Vec::new();
    put_u64_le(&mut footer, index_offset);
    put_u64_le(&mut footer, index_size);
    put_u32_le(&mut footer, index_crc);
    let mut tail: Vec<u8> = Vec::new();
    put_u32_le(&mut tail, FORMAT_VERSION);
    let mark = magic_bytes();
    append(&mut tail, mark.as_slice());
    let mut covered = to_vec(footer.as_slice());
    append(&mut covered, tail.as_slice());
    let ghost handle = codec::le_bytes(index_offset as nat, 8) + codec::le_bytes(
        index_size as nat,
        8,
    ) + codec::le_bytes(index_crc as nat, 4);
    assert(footer@ =~= handle);
    assert(tail@ =~= codec::le_bytes(FORMAT_VERSION as nat, 4) + reader::magic());
    put_u32_le(&mut footer, crc32(covered.as_slice()));
    append(&mut footer, tail.as_slice());
    footer
}

impl Default for SstWriter {
    fn default() -> (w: SstWriter)
        ensures
            w.wf(),
            w.entries() == Seq::<(Seq<u8>, Seq<u8>)>::empty(),
            w.block_target() == DEFAULT_BLOCK_TARGET,
            w.restart_interval() == DEFAULT_RESTART_INTERVAL,
            w.block_count() == 0,
    {
        SstWriter::new()
    }
}

/// With a block target that the format can point into, no block ever gets too
/// large to add to.
pub proof fn law_block_full_needs_large_target(w: SstWriter)
    requires
        w.wf(),
        w.block_full(),
    ensures
        w.block_target() > u32::MAX,
{
    w.block.lemma_full();
}

proof fn lemma_sorted_push(es: Seq<(Seq<u8>, Seq<u8>)>, e: (Seq<u8>, Seq<u8>))
    requires
        keys_sorted(es),
        es.len() > 0 ==> order::lex_lt(es.last().0, e.0),
    ensures
        keys_sorted(es.push(e)),
{
    let all = es.push(e);
    assert forall|i: int, j: int| 0 <= i < j < all.len() implies order::lex_lt(
        #[trigger] all[i].0,
        #[trigger] all[j].0,
    ) by {
        if j == es.len() {
            if i < es.len() - 1 {
                assert(order::lex_lt(es[i].0, es[es.len() - 1].0));
                order::lemma_lex_transitive(es[i].0, es.last().0, e.0);
            }
        }
    }
}

/// The content of a block with its checksum reads back.
proof fn lemma_store_content(
    file: Seq<u8>,
    h: HandleView,
    content: Seq<u8>,
    es: Seq<(Seq<u8>, Seq<u8>)>,
    grown: Seq<u8>,
)
    requires
        block::block_entries(content) == Some(es),
        h.offset == file.len(),
        h.size == content.len(),
        grown == file + content + codec::le_bytes(checksum::crc32_of(content) as nat, 4),
    ensures
        block::stored_block_entries(reader::stored_block(grown, h)) == Some(es),
        reader::handle_end(h) == grown.len(),
{
    let crc = checksum::crc32_of(content);
    codec::lemma_byte_range();
    codec::lemma_le_round_trip(crc as nat, 4);
    let b = reader::stored_block(grown, h);
    assert(b =~= content + codec::le_bytes(crc as nat, 4));
    assert(b.subrange(0, b.len() - 4) =~= content);
    assert(b.subrange(b.len() - 4, b.len() as int) =~= codec::le_bytes(crc as nat, 4));
}

/// A block appended to the file is stored, and the blocks before it stay.
proof fn lemma_store_block(
    file: Seq<u8>,
    hs: Seq<HandleView>,
    blocks: Seq<Seq<(Seq<u8>, Seq<u8>)>>,
    h: HandleView,
    es: Seq<(Seq<u8>, Seq<u8>)>,
    grown: Seq<u8>,
)
    requires
        stored_blocks(file, hs, blocks),
        block::stored_block_entries(reader::stored_block(grown, h)) == Some(es),
        es.len() > 0,
        h.last_key == es.last().0,
        h.offset == file.len(),
        reader::handle_end(h) == grown.len(),
        grown.subrange(0, file.len() as int) == file,
    ensures
        stored_blocks(grown, hs.push(h), blocks.push(es)),
{
    lemma_blocks_in_prefix(file, grown, hs);
    let hs2 = hs.push(h);
    let blocks2 = blocks.push(es);
    assert forall|i: int| 0 <= i < hs2.len() implies #[trigger] follows(hs2, 0, i) by {
        if i < hs.len() {
            assert(follows(hs, 0, i));
        } else if i > 0 {
            assert(hs2[i - 1] == hs.last());
        }
    }
    assert forall|i: int| 0 <= i < hs2.len() implies {
        &&& block::stored_block_entries(reader::stored_block(grown, #[trigger] hs2[i])) == Some(
            blocks2[i],
        )
        &&& blocks2[i].len() > 0
        &&& blocks2[i].last().0 == hs2[i].last_key
    } by {
        if i < hs.len() {
            assert(hs2[i] == hs[i]);
        }
    }
}

/// Where block `j` starts among the joined entries.
spec fn block_start(blocks: Seq<Seq<(Seq<u8>, Seq<u8>)>>, j: int) -> nat {
    joined(blocks.take(j)).len()
}

proof fn lemma_joined_at(blocks: Seq<Seq<(Seq<u8>, Seq<u8>)>>, j: int, p: int)
    requires
        0 <= j < blocks.len(),
        0 <= p < blocks[j].len(),
    ensures
        block_start(blocks, j) + p < joined(blocks).len(),
        joined(blocks)[block_start(blocks, j) + p] == blocks[j][p],
        block_start(blocks, j + 1) == block_start(blocks, j) + blocks[j].len(),
    decreases blocks.len(),
{
    let front = blocks.drop_last();
    assert(blocks.take(j + 1).drop_last() =~= blocks.take(j));
    assert(blocks.take(j + 1).last() == blocks[j]);
    if j == blocks.len() - 1 {
        assert(blocks.take(j) =~= front);
    } else {
        assert(front.take(j) =~= blocks.take(j));
        lemma_joined_at(front, j, p);
    }
}

proof fn lemma_block_start_grows(blocks: Seq<Seq<(Seq<u8>, Seq<u8>)>>, i: int, j: int)
    requires
        0 <= i < j <= blocks.len(),
    ensures
        block_start(blocks, i) + blocks[i].len() <= block_start(blocks, j),
    decreases j - i,
{
    assert(blocks.take(j).drop_last() =~= blocks.take(j - 1));
    assert(blocks.take(j).last() == blocks[j - 1]);
    if i < j - 1 {
        lemma_block_start_grows(blocks, i, j - 1);
    }
}

/// Entries of an earlier block sort before those of a later one, and earlier
/// entries of a block before later ones.
proof fn lemma_blocks_sorted(
    blocks: Seq<Seq<(Seq<u8>, Seq<u8>)>>,
    i: int,
    p: int,
    j: int,
    q: int,
)
    requires
        keys_sorted(joined(blocks)),
        0 <= i <= j < blocks.len(),
        0 <= p < blocks[i].len(),
        0 <= q < blocks[j].len(),
        i < j || p < q,
    ensures
        order::lex_lt(blocks[i][p].0, blocks[j][q].0),
{
    lemma_joined_at(blocks, i, p);
    lemma_joined_at(blocks, j, q);
    if i < j {
        lemma_block_start_grows(blocks, i, j);
    }
    let all = joined(blocks);
    assert(order::lex_lt(
        all[block_start(blocks, i) + p].0,
        all[block_start(blocks, j) + q].0,
    ));
}

/// The keys of the index are sorted and fit the format.
proof fn lemma_handles_sorted(
    hs: Seq<HandleView>,
    blocks: Seq<Seq<(Seq<u8>, Seq<u8>)>>,
    es: Seq<(Seq<u8>, Seq<u8>)>,
)
    requires
        hs.len() == blocks.len(),
        forall|i: int|
            0 <= i < hs.len() ==> (#[trigger] blocks[i]).len() > 0 && blocks[i].last().0
                == hs[i].last_key,
        es == joined(blocks),
        keys_sorted(es),
        forall|i: int| 0 <= i < es.len() ==> #[trigger] es[i].0.len() <= u32::MAX,
    ensures
        forall|i: int| 0 <= i < hs.len() ==> #[trigger] hs[i].last_key.len() <= u32::MAX,
        forall|i: int, j: int|
            0 <= i < j < hs.len() ==> order::lex_lt(
                #[trigger] hs[i].last_key,
                #[trigger] hs[j].last_key,
            ),
{
    assert forall|i: int| 0 <= i < hs.len() implies #[trigger] hs[i].last_key.len()
        <= u32::MAX by {
        lemma_joined_at(blocks, i, blocks[i].len() - 1);
        assert(es[block_start(blocks, i) + blocks[i].len() - 1].0.len() <= u32::MAX);
    }
    assert forall|i: int, j: int| 0 <= i < j < hs.len() implies order::lex_lt(
        #[trigger] hs[i].last_key,
        #[trigger] hs[j].last_key,
    ) by {
        lemma_blocks_sorted(blocks, i, blocks[i].len() - 1, j, blocks[j].len() - 1);
    }
}

/// A finished file is a table of the entries of its blocks.
proof fn lemma_finished(
    data: Seq<u8>,
    hs: Seq<HandleView>,
    blocks: Seq<Seq<(Seq<u8>, Seq<u8>)>>,
    table: Seq<u8>,
)
    requires
        stored_blocks(data, hs, blocks),
        hs.len() <= u32::MAX,
        table.len() <= u64::MAX,
        forall|i: int| 0 <= i < hs.len() ==> #[trigger] hs[i].last_key.len() <= u32::MAX,
        forall|i: int, j: int|
            0 <= i < j < hs.len() ==> order::lex_lt(
                #[trigger] hs[i].last_key,
                #[trigger] hs[j].last_key,
            ),
        table == data + index_bytes(hs) + footer_bytes(
            data.len(),
            index_bytes(hs).len(),
            checksum::crc32_of(index_bytes(hs)),
        ),
    ensures
        is_table_of(table, joined(blocks)),
{
    lemma_table_round_trip(data, hs, table);
    assert(table.subrange(0, data.len() as int) =~= data);
    lemma_blocks_in_prefix(data, table, hs);
    assert forall|i: int| 0 <= i < hs.len() implies block::stored_block_entries(
        reader::stored_block(table, #[trigger] hs[i]),
    ) == Some(blocks[i]) by {}
    lemma_blocks_joined(table, hs, blocks);
}

// ---------------------------------------------------------------------------
// What a written table answers
// ---------------------------------------------------------------------------

/// The value of a key among sorted entries is the value of the entry that has it.
proof fn lemma_value_found(es: Seq<(Seq<u8>, Seq<u8>)>, i: int)
    requires
        keys_sorted(es),
        0 <= i < es.len(),
    ensures
        reader::value_in(es, es[i].0) == Some(es[i].1),
    decreases es.len(),
{
    order::lemma_lex_irreflexive(es[i].0);
    if i > 0 {
        assert(order::lex_lt(es[0].0, es[i].0));
        order::lemma_lex_total(es[0].0, es[i].0);
        let rest = es.drop_first();
        assert(rest[i - 1] == es[i]);
        assert(keys_sorted(rest)) by {
            assert forall|x: int, y: int| 0 <= x < y < rest.len() implies order::lex_lt(
                #[trigger] rest[x].0,
                #[trigger] rest[y].0,
            ) by {
                assert(rest[x] == es[x + 1] && rest[y] == es[y + 1]);
            }
        }
        lemma_value_found(rest, i - 1);
    }
}

/// A key that no entry has, has no value.
proof fn lemma_value_missing(es: Seq<(Seq<u8>, Seq<u8>)>, key: Seq<u8>)
    requires
        forall|i: int| 0 <= i < es.len() ==> #[trigger] es[i].0 != key,
    ensures
        reader::value_in(es, key) is None,
    decreases es.len(),
{
    if es.len() > 0 {
        let rest = es.drop_first();
        assert forall|i: int| 0 <= i < rest.len() implies #[trigger] rest[i].0 != key by {
            assert(rest[i] == es[i + 1]);
        }
        assert(es[0].0 != key);
        lemma_value_missing(rest, key);
    }
}

proof fn lemma_joined_from(data: Seq<u8>, index: Seq<HandleView>, es: Seq<(Seq<u8>, Seq<u8>)>)
    requires
        blocks_keyed(data, index),
        reader::blocks_entries(data, index) == Some(es),
    ensures
        es == joined(block_list(data, index)),
{
    let blocks = block_list(data, index);
    assert forall|i: int| 0 <= i < index.len() implies block::stored_block_entries(
        reader::stored_block(data, #[trigger] index[i]),
    ) == Some(blocks[i]) by {}
    lemma_blocks_joined(data, index, blocks);
}

proof fn lemma_locate(blocks: Seq<Seq<(Seq<u8>, Seq<u8>)>>, i: int) -> (at: (int, int))
    requires
        0 <= i < joined(blocks).len(),
    ensures
        0 <= at.0 < blocks.len(),
        0 <= at.1 < blocks[at.0].len(),
        joined(blocks)[i] == blocks[at.0][at.1],
    decreases blocks.len(),
{
    let front = joined(blocks.drop_last());
    if i < front.len() {
        let at = lemma_locate(blocks.drop_last(), i);
        at
    } else {
        (blocks.len() - 1, i - front.len())
    }
}

/// Looking up a key that was written gives the value that was written with it.
pub proof fn law_get_finds_what_was_written(
    data: Seq<u8>,
    es: Seq<(Seq<u8>, Seq<u8>)>,
    index: Seq<HandleView>,
    i: int,
)
    requires
        is_table_of(data, es),
        keys_sorted(es),
        reader::table_index(data) == Some(index),
        0 <= i < es.len(),
    ensures
        reader::table_get(data, index, es[i].0) == Some(Some(es[i].1)),
{
    lemma_joined_from(data, index, es);
    let blocks = block_list(data, index);
    let (j, p) = lemma_locate(blocks, i);
    let key = es[i].0;
    assert forall|b: int| 0 <= b < j implies order::lex_lt(#[trigger] index[b].last_key, key) by {
        lemma_blocks_sorted(blocks, b, blocks[b].len() - 1, j, p);
    }
    let last = blocks[j].len() - 1;
    assert(index[j].last_key == blocks[j][last].0);
    order::lemma_lex_irreflexive(key);
    if p < last {
        lemma_blocks_sorted(blocks, j, p, j, last);
        order::lemma_lex_total(key, index[j].last_key);
    }
    reader::lemma_block_for(index, key, 0, j);
    lemma_block_sorted(blocks, j);
    lemma_value_found(blocks[j], p);
}

proof fn lemma_block_sorted(blocks: Seq<Seq<(Seq<u8>, Seq<u8>)>>, j: int)
    requires
        keys_sorted(joined(blocks)),
        0 <= j < blocks.len(),
    ensures
        keys_sorted(blocks[j]),
{
    let b = blocks[j];
    assert forall|x: int, y: int| 0 <= x < y < b.len() implies order::lex_lt(
        #[trigger] b[x].0,
        #[trigger] b[y].0,
    ) by {
        lemma_blocks_sorted(blocks, j, x, j, y);
    }
}

/// Looking up a key that was not written finds nothing.
pub proof fn law_get_misses_what_was_not_written(
    data: Seq<u8>,
    es: Seq<(Seq<u8>, Seq<u8>)>,
    index: Seq<HandleView>,
    key: Seq<u8>,
)
    requires
        is_table_of(data, es),
        reader::table_index(data) == Some(index),
        forall|i: int| 0 <= i < es.len() ==> #[trigger] es[i].0 != key,
    ensures
        reader::table_get(data, index, key) == Some(None::<Seq<u8>>),
{
    lemma_joined_from(data, index, es);
    let blocks = block_list(data, index);
    let b = reader::block_for(index, key, 0);
    lemma_block_for_bound(index, key, 0);
    if b < index.len() {
        assert forall|p: int| 0 <= p < blocks[b].len() implies #[trigger] blocks[b][p].0 != key by {
            lemma_joined_at(blocks, b, p);
            assert(es[block_start(blocks, b) + p].0 != key);
        }
        lemma_value_missing(blocks[b], key);
        assert(index[b].last_key == index[b].last_key);
    }
}

proof fn lemma_block_for_bound(index: Seq<HandleView>, key: Seq<u8>, i: int)
    requires
        0 <= i <= index.len(),
    ensures
        i <= reader::block_for(index, key, i) <= index.len(),
    decreases index.len() - i,
{
    if i < index.len() {
        lemma_block_for_bound(index, key, i + 1);
    }
}

/// A lookup that reads only the footer, the index and one block answers as a
/// lookup in the whole table.
pub proof fn law_ranged_lookup_agrees(
    data: Seq<u8>,
    index: Seq<HandleView>,
    key: Seq<u8>,
    footer: Footer,
)
    requires
        reader::table_index(data) == Some(index),
        reader::footer_of(
            data.subrange(
                if data.len() < FOOTER_LEN {
                    0
                } else {
                    data.len() - FOOTER_LEN
                },
                data.len() as int,
            ),
        ) == Some(footer),
    ensures
        reader::footer_fits(footer, data.len()),
        reader::index_of(
            data.subrange(footer.index_offset as int, footer.index_offset + footer.index_size),
            footer.index_crc as nat,
            footer.index_offset as nat,
        ) == Some(index),
        reader::table_get(data, index, key) == ({
            let b = reader::block_for(index, key, 0);
            if b >= index.len() {
                Some(None)
            } else {
                let block = data.subrange(
                    index[b].offset as int,
                    reader::handle_end(index[b]) as int,
                );
                match block::stored_block_entries(block) {
                    None => None,
                    Some(es) => Some(reader::value_in(es, key)),
                }
            }
        }),
{
}

proof fn lemma_joined_len(blocks: Seq<Seq<(Seq<u8>, Seq<u8>)>>)
    requires
        forall|i: int| 0 <= i < blocks.len() ==> (#[trigger] blocks[i]).len() > 0,
    ensures
        joined(blocks).len() >= blocks.len(),
    decreases blocks.len(),
{
    if blocks.len() > 0 {
        lemma_joined_len(blocks.drop_last());
    }
}

/// No block is empty, so there are no more blocks than entries.
pub proof fn law_no_more_blocks_than_entries(w: SstWriter)
    requires
        w.wf(),
    ensures
        w.block_count() <= w.entries().len(),
{
    let hs = reader::index_view(w.index@);
    assert forall|i: int| 0 <= i < w.blocks@.len() implies (#[trigger] w.blocks@[i]).len() > 0 by {
        assert(hs[i].last_key == hs[i].last_key);
    }
    lemma_joined_len(w.blocks@);
}

/// Two writers that were made with the same block target, one with a restart interval
/// of zero and one with an interval of one, and were given the same entries, go on
/// alike: they take or refuse the same entry next, and finish with the same bytes.
pub proof fn law_zero_interval_acts_as_one(a: SstWriter, b: SstWriter)
    requires
        a.wf(),
        b.wf(),
        a.entries() == b.entries(),
        a.block_target() == b.block_target(),
        a.restart_interval() == interval_used(0),
        b.restart_interval() == interval_used(1),
    ensures
        a.block_full() == b.block_full(),
        a.block_count() == b.block_count(),
        table_bytes(a.entries(), a.block_target(), a.restart_interval()) == table_bytes(
            b.entries(),
            b.block_target(),
            b.restart_interval(),
        ),
{
    a.block.lemma_bytes();
    b.block.lemma_bytes();
    assert(reader::index_view(a.index@).len() == a.index@.len());
    assert(reader::index_view(b.index@).len() == b.index@.len());
}

/// The blocks of a finished table are those that its entries are cut into.
pub proof fn law_blocks_follow_from_entries(w: SstWriter)
    requires
        w.wf(),
    ensures
        w.block_count() == blocks_of(w.entries(), w.block_target(), w.restart_interval()).len(),
{
    assert(reader::index_view(w.index@).len() == w.index@.len());
}

/// Every key's length fits the format's four-byte field.
pub open spec fn keys_short(es: Seq<(Seq<u8>, Seq<u8>)>) -> bool {
    forall|i: int| 0 <= i < es.len() ==> #[trigger] es[i].0.len() <= u32::MAX
}

/// Writes a table with the given entries. Keys that are not strictly increasing
/// are corrupt; a key too long for the format is refused, and so is a table of
/// more blocks than the format can count.
pub fn write_table(entries: &[Entry]) -> (r: Result<Vec<u8>, Error>)
    ensures
        ({
            let es = block::entries_view(entries@);
            match r {
                Ok(bytes) => keys_sorted(es) && keys_short(es) && is_table_of(bytes@, es)
                    && bytes@ == table_bytes(
                    es,
                    DEFAULT_BLOCK_TARGET as nat,
                    DEFAULT_RESTART_INTERVAL as nat,
                ),
                Err(e) => {
                    ||| !keys_sorted(es) && e is Corrupt
                    ||| !keys_short(es) && e is InvalidWrite
                    ||| es.len() > u32::MAX && e is InvalidWrite
                },
            }
        }),
{
    let ghost es = block::entries_view(entries@);
    let mut writer = SstWriter::new();
    let mut i: usize = 0;
    assert(es.take(0) =~= Seq::empty());
    while i < entries.len()
        invariant
            i <= entries@.len(),
            es == block::entries_view(entries@),
            writer.wf(),
            writer.block_target() == DEFAULT_BLOCK_TARGET,
            writer.restart_interval() == DEFAULT_RESTART_INTERVAL,
            writer.entries() == es.take(i as int),
            keys_sorted(es.take(i as int)),
            keys_short(es.take(i as int)),
        decreases entries@.len() - i,
    {
        let ghost front = es.take(i as int);
        let ghost entry = es[i as int];
        proof {
            if writer.block_full() {
                law_block_full_needs_large_target(writer);
            }
        }
        match writer.add(entries[i].0.as_slice(), entries[i].1.as_slice()) {
            Ok(_) => {},
            Err(e) => {
                proof {
                    if entry.0.len() <= u32::MAX {
                        assert(front.last() == es[i - 1]);
                        assert(!order::lex_lt(es[i - 1].0, es[i as int].0));
                        assert(!keys_sorted(es));
                    } else {
                        assert(es[i as int].0.len() > u32::MAX);
                    }
                }
                return Err(e);
            },
        }
        proof {
            assert(es.take(i + 1) =~= front.push(entry));
            assert(keys_short(es.take(i + 1)));
            if i > 0 {
                assert(front.last() == es[i - 1]);
            }
            lemma_sorted_push(front, entry);
        }
        i = i + 1;
    }
    assert(es.take(i as int) =~= es);
    proof {
        law_no_more_blocks_than_entries(writer);
    }
    writer.finish()
}

} // verus!
