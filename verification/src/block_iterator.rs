//! A stateful cursor over one block: seek to the first entry, seek to the
//! first key at least a probe key, and step forward.

use std::sync::Arc;

use vstd::prelude::*;

use crate::block::Block;
use crate::order::{lex_le, lex_lt};

verus! {

/// Iterates over the entries of a shared, immutable block. An exhausted
/// cursor is marked by `idx == num_entries` and an empty cached key.
pub struct BlockIterator {
    /// The block under the cursor, shared so that several iterators (and a
    /// future cache) may alias it.
    pub block: Arc<Block>,
    /// The current entry's key; empty when the cursor is invalid.
    pub key: Vec<u8>,
    /// The current entry's value; may be legitimately empty.
    pub value: Vec<u8>,
    /// The current entry index, in `[0, num_entries]`.
    pub idx: usize,
}

impl BlockIterator {
    /// The block under the cursor.
    pub open spec fn blk(&self) -> Block {
        *self.block
    }

    /// The block is fit for iteration: structurally well-formed with no
    /// empty key (an empty cached key is the exhaustion mark).
    pub open spec fn blk_ok(&self) -> bool {
        self.blk().wf() && self.blk().keys_nonempty()
    }

    /// Cursor invariant: the index is in range and the cached key and value
    /// are those of the current entry, or empty past the end.
    pub open spec fn inv(&self) -> bool {
        &&& self.blk_ok()
        &&& self.idx <= self.blk().num_entries()
        &&& (self.idx < self.blk().num_entries() ==> self.key@ == self.blk().key_at(
            self.idx as int,
        ) && self.value@ == self.blk().value_at(self.idx as int))
        &&& (self.idx == self.blk().num_entries() ==> self.key@.len() == 0)
    }

    /// An unpositioned cursor over `block`; seek before use.
    pub fn new(block: Arc<Block>) -> (r: BlockIterator)
        ensures
            r.blk() == *block,
            r.idx == 0,
            r.key@.len() == 0,
            r.value@.len() == 0,
    {
        BlockIterator { block, key: Vec::new(), value: Vec::new(), idx: 0 }
    }

    /// Creates a cursor positioned on the first entry.
    pub fn create_and_seek_to_first(block: Arc<Block>) -> (r: BlockIterator)
        requires
            block.wf(),
            block.keys_nonempty(),
            block.num_entries() > 0,
        ensures
            r.inv(),
            r.blk() == *block,
            r.idx == 0,
    {
        let mut iter = BlockIterator::new(block);
        iter.seek_to_first();
        iter
    }

    /// Creates a cursor positioned on the first entry whose key is at least
    /// `key`, invalid when every key is smaller.
    pub fn create_and_seek_to_key(block: Arc<Block>, key: &[u8]) -> (r: BlockIterator)
        requires
            block.wf(),
            block.keys_nonempty(),
            block.keys_sorted(),
        ensures
            r.inv(),
            r.blk() == *block,
            forall|j: int| 0 <= j < r.idx ==> lex_lt(#[trigger] block.key_at(j), key@),
            r.idx < block.num_entries() ==> lex_le(key@, block.key_at(r.idx as int)),
    {
        let mut iter = BlockIterator::new(block);
        iter.seek_to_key(key);
        iter
    }

    /// The current entry's key.
    pub fn key(&self) -> (r: &[u8])
        requires
            self.inv(),
            self.idx < self.blk().num_entries(),
        ensures
            r@ == self.blk().key_at(self.idx as int),
    {
        self.key.as_slice()
    }

    /// The current entry's value.
    pub fn value(&self) -> (r: &[u8])
        requires
            self.inv(),
            self.idx < self.blk().num_entries(),
        ensures
            r@ == self.blk().value_at(self.idx as int),
    {
        self.value.as_slice()
    }

    /// True while the cursor rests on an entry.
    pub fn is_valid(&self) -> (r: bool)
        requires
            self.inv(),
        ensures
            r == (self.idx < self.blk().num_entries()),
    {
        self.key.len() != 0
    }

    /// Moves the cursor to the first entry.
    pub fn seek_to_first(&mut self)
        requires
            old(self).blk_ok(),
            old(self).blk().num_entries() > 0,
        ensures
            final(self).inv(),
            final(self).blk() == old(self).blk(),
            final(self).idx == 0,
    {
        let (k, v) = self.block.read_entry(0);
        self.key = k;
        self.value = v;
        self.idx = 0;
    }

    /// Steps to the next entry; stepping off the last entry leaves the
    /// cursor invalid.
    pub fn next(&mut self)
        requires
            old(self).inv(),
            old(self).idx < old(self).blk().num_entries(),
        ensures
            final(self).inv(),
            final(self).blk() == old(self).blk(),
            final(self).idx == old(self).idx + 1,
    {
        self.idx = self.idx + 1;
        if self.idx == self.block.offsets.len() {
            self.key = Vec::new();
            self.value = Vec::new();
            return ;
        }
        let (k, v) = self.block.read_entry(self.idx);
        self.key = k;
        self.value = v;
    }

    /// Positions the cursor on the first entry whose key is at least `key`;
    /// when every key is smaller the cursor becomes invalid.
    pub fn seek_to_key(&mut self, key: &[u8])
        requires
            old(self).blk_ok(),
            old(self).blk().keys_sorted(),
        ensures
            final(self).inv(),
            final(self).blk() == old(self).blk(),
            forall|j: int|
                0 <= j < final(self).idx ==> lex_lt(#[trigger] old(self).blk().key_at(j), key@),
            final(self).idx < old(self).blk().num_entries() ==> lex_le(
                key@,
                old(self).blk().key_at(final(self).idx as int),
            ),
    {
        let idx = self.block.lower_bound(key);
        self.idx = idx;
        if idx == self.block.offsets.len() {
            self.key = Vec::new();
            self.value = Vec::new();
            return ;
        }
        let (k, v) = self.block.read_entry(idx);
        self.key = k;
        self.value = v;
    }
}

} // verus!
