//! A two-level cursor over a sorted string table: drives a block iterator
//! and advances across block boundaries, yielding entries in ascending key
//! order.
//!
//! Every cursor operation requires a sound table and then never fails. This
//! is the table-level caller contract: ascending keys are the builder's
//! caller obligation that the searches assume, and the builder establishes
//! the rest of soundness. For a table opened from an untrusted image, a bad
//! slot surfaces from `SsTable::read_block` itself, whose contract states
//! exactly when `IoError` or `CorruptBlock` comes back.

use std::sync::Arc;

use vstd::prelude::*;

use crate::block_iterator::BlockIterator;
use crate::order::{lex_le, lex_lt};
use crate::table::{lemma_entries_at, lemma_first_keys_sorted, lemma_table_sorted,
    lemma_upto_prefix, SsTable};
use crate::Error;

verus! {

/// Iterates over the entries of a sound table. The cursor tracks the current
/// block and a block iterator inside it; an exhausted cursor rests past the
/// end of the last block.
pub struct SsTableIterator {
    /// The table under the cursor, shared with other readers.
    pub table: Arc<SsTable>,
    /// Index of the block under the cursor.
    pub block_idx: usize,
    /// Cursor within the current block.
    pub cur_block_iterator: BlockIterator,
}

impl SsTableIterator {
    /// The table under the cursor.
    pub open spec fn tbl(&self) -> SsTable {
        *self.table
    }

    /// The cursor's absolute position in a full forward scan.
    pub open spec fn pos(&self) -> int {
        self.tbl().base(self.block_idx as int) + self.cur_block_iterator.idx
    }

    /// Total number of entries in the table.
    pub open spec fn total(&self) -> int {
        self.tbl().entries().len() as int
    }

    /// Cursor invariant: the table is sound (ascending keys are a caller
    /// obligation of the builder, which the search relies on), the inner
    /// cursor walks exactly the current block's entries, and an exhausted
    /// inner cursor only ever rests on the last block.
    pub open spec fn inv(&self) -> bool {
        &&& self.tbl().sound()
        &&& self.block_idx < self.tbl().spec_num_blocks()
        &&& self.cur_block_iterator.inv()
        &&& self.cur_block_iterator.blk().entries() == self.tbl().block_entries(
            self.block_idx as int,
        )
        &&& (self.cur_block_iterator.idx == self.cur_block_iterator.blk().num_entries()
            ==> self.block_idx as int == self.tbl().spec_num_blocks() - 1)
    }

    /// The position is within the scan; the inner cursor is on an entry
    /// exactly when the position is short of the end, and then the scan entry
    /// at the position is the inner cursor's entry.
    pub proof fn lemma_pos(self)
        requires
            self.inv(),
        ensures
            0 <= self.pos() <= self.total(),
            (self.cur_block_iterator.idx < self.cur_block_iterator.blk().num_entries()) <==> (
            self.pos() < self.total()),
            self.cur_block_iterator.idx < self.cur_block_iterator.blk().num_entries()
                ==> self.tbl().entries()[self.pos()] == self.cur_block_iterator.blk().entries()[
                self.cur_block_iterator.idx as int
            ],
    {
        let t = self.tbl();
        let bi = self.block_idx as int;
        let n = t.spec_num_blocks();
        let idx = self.cur_block_iterator.idx as int;
        let len = t.block_entries(bi).len() as int;
        assert(t.entries_upto(bi + 1) == t.entries_upto(bi) + t.block_entries(bi));
        lemma_upto_prefix(t, bi + 1, n);
        assert(t.base(bi + 1) == t.base(bi) + len);
        if idx < len {
            lemma_entries_at(t, bi, idx);
        } else {
            assert(bi == n - 1);
            assert(t.base(n) == t.base(bi) + len);
        }
    }

    /// Creates a cursor on the first entry of the first block.
    pub fn create_and_seek_to_first(table: Arc<SsTable>) -> (r: Result<SsTableIterator, Error>)
        requires
            table.sound(),
        ensures
            r is Ok,
            r matches Ok(it) ==> it.inv() && it.tbl() == *table && it.pos() == 0,
    {
        proof {
            assert(table.block_sound(0));
        }
        let block = match table.read_block(0) {
            Ok(b) => b,
            Err(e) => {
                proof {
                    assert(false);
                }
                return Err(e);
            },
        };
        proof {
            block.lemma_keys_from_entries();
        }
        let cur_block_iterator = BlockIterator::create_and_seek_to_first(block);
        let it = SsTableIterator { table, block_idx: 0, cur_block_iterator };
        proof {
            assert(it.tbl().entries_upto(0) =~= Seq::<(Seq<u8>, Seq<u8>)>::empty());
        }
        Ok(it)
    }

    /// Moves the cursor to the first entry of the first block.
    pub fn seek_to_first(&mut self) -> (r: Result<(), Error>)
        requires
            old(self).tbl().sound(),
        ensures
            r is Ok,
            final(self).inv(),
            final(self).tbl() == old(self).tbl(),
            final(self).pos() == 0,
    {
        proof {
            assert(self.tbl().block_sound(0));
        }
        let block = match self.table.read_block(0) {
            Ok(b) => b,
            Err(e) => {
                proof {
                    assert(false);
                }
                return Err(e);
            },
        };
        proof {
            block.lemma_keys_from_entries();
        }
        self.block_idx = 0;
        self.cur_block_iterator = BlockIterator::create_and_seek_to_first(block);
        proof {
            assert(self.tbl().entries_upto(0) =~= Seq::<(Seq<u8>, Seq<u8>)>::empty());
        }
        Ok(())
    }

    /// The current entry's key.
    pub fn key(&self) -> (r: &[u8])
        requires
            self.inv(),
            self.pos() < self.total(),
        ensures
            r@ == self.tbl().entries()[self.pos()].0,
    {
        proof {
            self.lemma_pos();
            self.cur_block_iterator.blk().lemma_entry_fields(self.cur_block_iterator.idx as int);
        }
        self.cur_block_iterator.key()
    }

    /// The current entry's value.
    pub fn value(&self) -> (r: &[u8])
        requires
            self.inv(),
            self.pos() < self.total(),
        ensures
            r@ == self.tbl().entries()[self.pos()].1,
    {
        proof {
            self.lemma_pos();
            self.cur_block_iterator.blk().lemma_entry_fields(self.cur_block_iterator.idx as int);
        }
        self.cur_block_iterator.value()
    }

    /// Steps to the next entry, rolling into the next block when the current
    /// one is exhausted; stepping past the last entry leaves the cursor
    /// invalid, and a further step is a no-op.
    pub fn next(&mut self) -> (r: Result<(), Error>)
        requires
            old(self).inv(),
        ensures
            r is Ok,
            final(self).inv(),
            final(self).tbl() == old(self).tbl(),
            old(self).pos() < old(self).total() ==> final(self).pos() == old(self).pos() + 1,
            old(self).pos() == old(self).total() ==> *final(self) == *old(self),
    {
        proof {
            old(self).lemma_pos();
        }
        if !self.cur_block_iterator.is_valid() {
            return Ok(());
        }
        self.cur_block_iterator.next();
        if !self.cur_block_iterator.is_valid() {
            let nb = self.table.num_of_blocks();
            if self.block_idx + 1 < nb {
                proof {
                    assert(self.tbl().block_sound(self.block_idx + 1));
                }
                let block = match self.table.read_block(self.block_idx + 1) {
                    Ok(b) => b,
                    Err(e) => {
                        proof {
                            assert(false);
                        }
                        return Err(e);
                    },
                };
                proof {
                    block.lemma_keys_from_entries();
                }
                self.block_idx = self.block_idx + 1;
                self.cur_block_iterator = BlockIterator::create_and_seek_to_first(block);
                proof {
                    let t = self.tbl();
                    let bi = self.block_idx as int;
                    assert(t.entries_upto(bi) == t.entries_upto(bi - 1) + t.block_entries(
                        bi - 1,
                    ));
                }
            }
        }
        Ok(())
    }

    /// When `key` is at least the first key of block `c`, every scan entry
    /// before block `c` is strictly below `key`.
    proof fn lemma_seek_prefix_lt(t: SsTable, c: int, key: Seq<u8>)
        requires
            t.sound(),
            0 <= c < t.spec_num_blocks(),
            lex_le(t.first_key(c), key),
        ensures
            forall|p: int| 0 <= p < t.base(c) ==> lex_lt((#[trigger] t.entries()[p]).0, key),
    {
        lemma_table_sorted(t);
        assert(t.block_sound(c));
        lemma_entries_at(t, c, 0);
        assert(t.entries()[t.base(c)].0 == t.first_key(c));
        assert forall|p: int| 0 <= p < t.base(c) implies lex_lt(
            (#[trigger] t.entries()[p]).0,
            key,
        ) by {
            assert(lex_lt(t.entries()[p].0, t.entries()[t.base(c)].0));
            crate::order::lemma_lex_lt_le_trans(t.entries()[p].0, t.first_key(c), key);
        }
    }

    /// Entries of block `c` strictly before the block-local index `idx` are
    /// strictly below `key` in the scan as well.
    proof fn lemma_seek_block_prefix_lt(
        t: SsTable,
        c: int,
        idx: int,
        blk: crate::block::Block,
        key: Seq<u8>,
    )
        requires
            t.sound(),
            0 <= c < t.spec_num_blocks(),
            blk.entries() == t.block_entries(c),
            0 <= idx <= blk.num_entries(),
            forall|j: int| 0 <= j < idx ==> lex_lt(#[trigger] blk.key_at(j), key),
        ensures
            forall|p: int|
                t.base(c) <= p < t.base(c) + idx ==> lex_lt((#[trigger] t.entries()[p]).0, key),
    {
        assert forall|p: int| t.base(c) <= p < t.base(c) + idx implies lex_lt(
            (#[trigger] t.entries()[p]).0,
            key,
        ) by {
            lemma_entries_at(t, c, p - t.base(c));
            blk.lemma_entry_fields(p - t.base(c));
        }
    }

    /// Positions the cursor at the first entry whose key is at least `key`:
    /// the same entry a linear scan would stop at. When every key is smaller
    /// the cursor becomes invalid.
    #[verifier::rlimit(100)]
    pub fn seek_to_key(&mut self, key: &[u8]) -> (r: Result<(), Error>)
        requires
            old(self).tbl().sound(),
        ensures
            r is Ok,
            final(self).inv(),
            final(self).tbl() == old(self).tbl(),
            forall|p: int|
                0 <= p < final(self).pos() ==> lex_lt(
                (#[trigger] old(self).tbl().entries()[p]).0,
                key@,
            ),
            final(self).pos() < final(self).total() ==> lex_le(
                key@,
                old(self).tbl().entries()[final(self).pos()].0,
            ),
    {
        proof {
            lemma_first_keys_sorted(old(self).tbl());
        }
        let j = self.table.meta_upper_bound(key);
        if j == 0 {
            let r = self.seek_to_first();
            proof {
                let t = self.tbl();
                assert(t.block_sound(0));
                lemma_entries_at(t, 0, 0);
                assert(t.entries()[0].0 == t.first_key(0));
            }
            return r;
        }
        let c = j - 1;
        proof {
            assert(self.tbl().block_sound(c as int));
        }
        let block = match self.table.read_block(c) {
            Ok(b) => b,
            Err(e) => {
                proof {
                    assert(false);
                }
                return Err(e);
            },
        };
        proof {
            block.lemma_keys_from_entries();
        }
        let mut inner = BlockIterator::create_and_seek_to_key(block, key);
        let ghost t = self.tbl();
        let ghost c_i = c as int;
        let ghost inner_idx = inner.idx as int;
        self.block_idx = c;
        core::mem::swap(&mut self.cur_block_iterator, &mut inner);
        proof {
            // every entry before block c precedes key (key is at least block
            // c's first key), and so does every block-c entry the block seek
            // skipped
            assert(lex_le(t.first_key(c_i), key@));
            Self::lemma_seek_prefix_lt(t, c_i, key@);
            Self::lemma_seek_block_prefix_lt(
                t,
                c_i,
                inner_idx,
                self.cur_block_iterator.blk(),
                key@,
            );
        }
        if !self.cur_block_iterator.is_valid() {
            let nb = self.table.num_of_blocks();
            if c + 1 < nb {
                proof {
                    assert(self.tbl().block_sound(c_i + 1));
                }
                let block2 = match self.table.read_block(c + 1) {
                    Ok(b) => b,
                    Err(e) => {
                        proof {
                            assert(false);
                        }
                        return Err(e);
                    },
                };
                proof {
                    block2.lemma_keys_from_entries();
                }
                self.block_idx = c + 1;
                self.cur_block_iterator = BlockIterator::create_and_seek_to_first(block2);
                proof {
                    assert(t.entries_upto(c_i + 1) == t.entries_upto(c_i) + t.block_entries(
                        c_i,
                    ));
                    // the first key of block c+1 is the entry at the new
                    // position, and key is below it
                    lemma_entries_at(t, c_i + 1, 0);
                    assert(t.entries()[t.base(c_i + 1)].0 == t.first_key(c_i + 1));
                    assert(lex_lt(key@, t.first_key(c_i + 1)));
                    crate::order::lemma_lex_trichotomy(key@, t.first_key(c_i + 1));
                }
            } else {
                proof {
                    assert(t.entries_upto(c_i + 1) == t.entries_upto(c_i) + t.block_entries(
                        c_i,
                    ));
                }
            }
        } else {
            proof {
                let idx = self.cur_block_iterator.idx as int;
                lemma_entries_at(t, c_i, idx);
                self.cur_block_iterator.blk().lemma_entry_fields(idx);
            }
        }
        Ok(())
    }

    /// Creates a cursor at the first entry whose key is at least `key`.
    pub fn create_and_seek_to_key(table: Arc<SsTable>, key: &[u8]) -> (r: Result<
        SsTableIterator,
        Error,
    >)
        requires
            table.sound(),
        ensures
            r is Ok,
            r matches Ok(it) ==> {
                &&& it.inv()
                &&& it.tbl() == *table
                &&& forall|p: int|
                    0 <= p < it.pos() ==> lex_lt((#[trigger] table.entries()[p]).0, key@)
                &&& (it.pos() < it.total() ==> lex_le(key@, table.entries()[it.pos()].0))
            },
    {
        let mut it = match SsTableIterator::create_and_seek_to_first(table) {
            Ok(it) => it,
            Err(e) => {
                proof {
                    assert(false);
                }
                return Err(e);
            },
        };
        match it.seek_to_key(key) {
            Ok(_) => Ok(it),
            Err(e) => {
                proof {
                    assert(false);
                }
                Err(e)
            },
        }
    }

    /// True while the cursor rests on an entry.
    pub fn is_valid(&self) -> (r: bool)
        requires
            self.inv(),
        ensures
            r == (self.pos() < self.total()),
    {
        proof {
            self.lemma_pos();
        }
        self.cur_block_iterator.is_valid()
    }
}

} // verus!
