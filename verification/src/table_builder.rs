//! Builds a sorted string table: chains block builders, pads each finished
//! block to a fixed slot, accumulates the meta index, and emits the table
//! byte image.

use vstd::prelude::*;

use crate::block::{block_encoding, lemma_block_round_trip, Block};
use crate::block_builder::BlockBuilder;
use crate::endian::{push_bytes, push_u32_be, push_zeros, u32_bytes};
use crate::order::lex_lt;
use crate::table::{meta_wf, metas_bytes, BlockMeta, FileObject, SsTable, BLOCK_SLOT_SIZE};
use crate::Error;

verus! {

broadcast use vstd::slice::group_slice_axioms;

/// The pairs of a sequence of finished blocks, in order.
pub open spec fn blocks_pairs(bs: Seq<Block>) -> Seq<(Seq<u8>, Seq<u8>)>
    decreases bs.len(),
{
    if bs.len() == 0 {
        Seq::empty()
    } else {
        blocks_pairs(bs.drop_last()) + bs.last().entries()
    }
}

/// Appending a block appends its entries to the pair sequence.
proof fn lemma_blocks_pairs_push(bs: Seq<Block>, b: Block)
    ensures
        blocks_pairs(bs.push(b)) == blocks_pairs(bs) + b.entries(),
{
    assert(bs.push(b).drop_last() =~= bs);
    assert(bs.push(b).last() == b);
}

/// Pushing a pair whose key exceeds the last key keeps the sequence strictly
/// ascending.
proof fn lemma_sorted_push(s: Seq<(Seq<u8>, Seq<u8>)>, k: Seq<u8>, v: Seq<u8>)
    requires
        forall|p: int, q: int|
            0 <= p < q < s.len() ==> lex_lt((#[trigger] s[p]).0, (#[trigger] s[q]).0),
        s.len() > 0 ==> lex_lt(s.last().0, k),
    ensures
        forall|p: int, q: int|
            0 <= p < q < s.push((k, v)).len() ==> lex_lt(
                (#[trigger] s.push((k, v))[p]).0,
                (#[trigger] s.push((k, v))[q]).0,
            ),
{
    let t = s.push((k, v));
    assert forall|p: int, q: int| 0 <= p < q < t.len() implies lex_lt(
        (#[trigger] t[p]).0,
        (#[trigger] t[q]).0,
    ) by {
        if q < s.len() {
            assert(t[p] == s[p] && t[q] == s[q]);
        } else {
            assert(t[q] == (k, v));
            if p < s.len() - 1 {
                assert(lex_lt(s[p].0, s[s.len() - 1].0));
                crate::order::lemma_lex_lt_trans(s[p].0, s.last().0, k);
            } else {
                assert(t[p] == s.last());
            }
        }
    }
}

/// Builds a table from ascending key-value pairs: a current block builder,
/// the finished blocks and their meta records, and the byte offset of the
/// slot the current block will occupy.
pub struct SsTableBuilder {
    pub meta: Vec<BlockMeta>,
    pub data_blocks: Vec<Block>,
    pub cur_block: BlockBuilder,
    pub cur_start: u32,
    pub block_size: usize,
    pub first_key: Vec<u8>,
}

impl SsTableBuilder {
    /// All pairs accepted so far, in insertion order.
    pub open spec fn pairs(&self) -> Seq<(Seq<u8>, Seq<u8>)> {
        blocks_pairs(self.data_blocks@) + self.cur_block.pairs()
    }

    /// Encoded length of finished block `i`.
    pub open spec fn enc_len(&self, i: int) -> int {
        block_encoding(self.data_blocks@[i].data@, self.data_blocks@[i].offsets@).len() as int
    }

    /// Finished block `i` and its meta record are consistent.
    pub open spec fn finished_ok(&self, i: int) -> bool {
        let b = self.data_blocks@[i];
        &&& b.wf()
        &&& b.entries().len() > 0
        &&& (forall|p: int, q: int|
            0 <= p < q < b.entries().len() ==> lex_lt(
                (#[trigger] b.entries()[p]).0,
                (#[trigger] b.entries()[q]).0,
            ))
        &&& (forall|p: int| 0 <= p < b.entries().len() ==> (#[trigger] b.entries()[p]).0.len() > 0)
        &&& 2 <= self.enc_len(i) <= self.block_size
        &&& meta_wf(self.meta@[i])
        &&& self.meta@[i].offset as int == i * (BLOCK_SLOT_SIZE as int) + self.enc_len(i)
        &&& self.meta@[i].first_key@ == b.entries()[0].0
    }

    /// Builder invariant.
    pub open spec fn wf(&self) -> bool {
        &&& self.block_size <= BLOCK_SLOT_SIZE
        &&& self.cur_block.wf()
        &&& self.cur_block.target_size == self.block_size
        &&& self.meta@.len() == self.data_blocks@.len()
        &&& self.cur_start as int == self.data_blocks@.len() * (BLOCK_SLOT_SIZE as int)
        &&& (forall|i: int| 0 <= i < self.data_blocks@.len() ==> self.finished_ok(i))
        &&& (forall|i: int|
            0 <= i < self.data_blocks@.len() - 1 ==> lex_lt(
                (#[trigger] self.data_blocks@[i]).entries().last().0,
                self.data_blocks@[i + 1].entries()[0].0,
            ))
        &&& (self.data_blocks@.len() > 0 && self.cur_block.pairs().len() > 0 ==> lex_lt(
            self.data_blocks@.last().entries().last().0,
            self.cur_block.pairs()[0].0,
        ))
        &&& (forall|p: int, q: int|
            0 <= p < q < self.cur_block.pairs().len() ==> lex_lt(
                (#[trigger] self.cur_block.pairs()[p]).0,
                (#[trigger] self.cur_block.pairs()[q]).0,
            ))
        &&& (forall|p: int|
            0 <= p < self.cur_block.pairs().len() ==> (#[trigger] self.cur_block.pairs()[
            p]).0.len() > 0)
        &&& (self.cur_block.pairs().len() > 0 ==> self.first_key@ == self.cur_block.pairs()[0].0)
        &&& (self.cur_block.pairs().len() == 0 ==> self.first_key@.len() == 0)
    }

    /// Creates a builder whose blocks aim at `block_size` encoded bytes; the
    /// size is capped by the slot size so every block fits its slot.
    pub fn new(block_size: usize) -> (r: SsTableBuilder)
        requires
            block_size <= BLOCK_SLOT_SIZE,
        ensures
            r.wf(),
            r.pairs() =~~= Seq::<(Seq<u8>, Seq<u8>)>::empty(),
            r.block_size == block_size,
            r.data_blocks@.len() == 0,
    {
        let r = SsTableBuilder {
            meta: Vec::new(),
            data_blocks: Vec::new(),
            cur_block: BlockBuilder::new(block_size),
            cur_start: 0,
            block_size,
            first_key: Vec::new(),
        };
        proof {
            assert(r.pairs() =~~= Seq::<(Seq<u8>, Seq<u8>)>::empty());
        }
        r
    }

    /// Adds a key-value pair, rolling to a new block exactly when the pair
    /// does not fit the current one: then the full block is finalized into
    /// the block list, its meta record (end offset and first key) is
    /// appended, the slot cursor advances by one slot, and the fresh block
    /// starts with this pair alone. A pair that fits changes nothing but the
    /// current block. Keys must be non-empty and strictly ascending. Fails
    /// with `OversizedEntry`, changing nothing, exactly when the pair alone
    /// overflows even an empty block. The finished-block count is capped so
    /// every slot offset fits the 32-bit footer.
    pub fn add(&mut self, key: &[u8], value: &[u8]) -> (r: Result<(), Error>)
        requires
            old(self).wf(),
            key@.len() > 0,
            old(self).pairs().len() > 0 ==> lex_lt(old(self).pairs().last().0, key@),
            (old(self).data_blocks@.len() + 1) * (BLOCK_SLOT_SIZE as int) < 0x1_0000_0000,
        ensures
            final(self).wf(),
            final(self).block_size == old(self).block_size,
            r is Ok <==> key@.len() + value@.len() + 8 <= old(self).block_size,
            r is Ok ==> final(self).pairs() =~~= old(self).pairs().push((key@, value@)),
            r is Ok && old(self).cur_block.current_size + key@.len() + value@.len() + 8 <= old(
                self,
            ).block_size ==> {
                &&& final(self).data_blocks@ == old(self).data_blocks@
                &&& final(self).meta@ == old(self).meta@
                &&& final(self).cur_start == old(self).cur_start
                &&& final(self).cur_block.pairs() =~~= old(self).cur_block.pairs().push(
                    (key@, value@),
                )
            },
            r is Ok && old(self).cur_block.current_size + key@.len() + value@.len() + 8 > old(
                self,
            ).block_size ==> {
                &&& final(self).data_blocks@ == old(self).data_blocks@.push(
                    final(self).data_blocks@.last(),
                )
                &&& final(self).data_blocks@.len() == old(self).data_blocks@.len() + 1
                &&& final(self).data_blocks@.last().entries() =~~= old(self).cur_block.pairs()
                &&& final(self).meta@ == old(self).meta@.push(final(self).meta@.last())
                &&& final(self).meta@.last().offset as int == old(self).cur_start + old(
                    self,
                ).cur_block.spec_size()
                &&& final(self).meta@.last().first_key@ == old(self).cur_block.pairs()[0].0
                &&& final(self).cur_start == old(self).cur_start + BLOCK_SLOT_SIZE
                &&& final(self).cur_block.pairs() =~~= seq![(key@, value@)]
            },
            r is Err ==> *final(self) == *old(self),
            r matches Err(e) ==> e == Error::OversizedEntry,
    {
        let klen: usize = key.len();
        let vlen: usize = value.len();
        if klen > self.block_size || vlen > self.block_size || klen + vlen + 8 > self.block_size {
            return Err(Error::OversizedEntry);
        }
        let ghost old_pairs = self.pairs();
        let ghost old_cur = self.cur_block.pairs();
        let ghost old_blocks = self.data_blocks@;
        if self.cur_block.add(key, value) {
            proof {
                lemma_sorted_push(old_cur, key@, value@);
                if old_cur.len() > 0 {
                    assert(old_pairs.last() == old_cur.last());
                } else {
                    if old_blocks.len() > 0 {
                        lemma_blocks_pairs_last(old_blocks, *old(self));
                        assert(old_pairs.last() == blocks_pairs(old_blocks).last());
                    }
                }
                assert(self.pairs() =~~= old_pairs.push((key@, value@)));
                if old_cur.len() > 0 {
                    assert(old_cur[0].0.len() > 0);
                    assert(old(self).first_key@.len() > 0);
                }
            }
            if self.first_key.is_empty() {
                self.first_key = vstd::slice::slice_to_vec(key);
            }
            proof {
                let np = self.cur_block.pairs();
                assert(np =~~= old_cur.push((key@, value@)));
                assert(np[0] == if old_cur.len() == 0 {
                    (key@, value@)
                } else {
                    old_cur[0]
                });
                assert forall|p: int| 0 <= p < np.len() implies (#[trigger] np[p]).0.len()
                    > 0 by {
                    if p < old_cur.len() {
                        assert(np[p] == old_cur[p]);
                    }
                }
                assert forall|i: int|
                    0 <= i < self.data_blocks@.len() implies self.finished_ok(i) by {
                    assert(old(self).finished_ok(i));
                }
                assert(self.data_blocks@.len() > 0 && np.len() > 0 ==> lex_lt(
                    self.data_blocks@.last().entries().last().0,
                    np[0].0,
                ));
                assert(forall|p: int, q: int|
                    0 <= p < q < np.len() ==> lex_lt(
                        (#[trigger] np[p]).0,
                        (#[trigger] np[q]).0,
                    ));
                assert(np.len() > 0 ==> self.first_key@ == np[0].0);
            }
            return Ok(());
        }
        self.roll_block(key, value);
        Ok(())
    }

    /// Finalizes the full current block into its slot, records its meta, and
    /// opens a fresh block seeded with the pair that did not fit: the block
    /// list and meta index each grow by one, the new meta marks the end of
    /// the finished block's encoded bytes and carries its first key, and the
    /// slot cursor advances by one slot.
    fn roll_block(&mut self, key: &[u8], value: &[u8])
        requires
            old(self).wf(),
            key@.len() > 0,
            key@.len() + value@.len() + 8 <= old(self).block_size,
            old(self).cur_block.current_size + key@.len() + value@.len() + 8 > old(
                self,
            ).block_size,
            old(self).pairs().len() > 0 ==> lex_lt(old(self).pairs().last().0, key@),
            (old(self).data_blocks@.len() + 1) * (BLOCK_SLOT_SIZE as int) < 0x1_0000_0000,
        ensures
            final(self).wf(),
            final(self).block_size == old(self).block_size,
            final(self).data_blocks@.len() == old(self).data_blocks@.len() + 1,
            final(self).pairs() =~~= old(self).pairs().push((key@, value@)),
            final(self).data_blocks@ == old(self).data_blocks@.push(
                final(self).data_blocks@.last(),
            ),
            final(self).data_blocks@.last().entries() =~~= old(self).cur_block.pairs(),
            final(self).meta@ == old(self).meta@.push(final(self).meta@.last()),
            final(self).meta@.last().offset as int == old(self).cur_start + old(
                self,
            ).cur_block.spec_size(),
            final(self).meta@.last().first_key@ == old(self).cur_block.pairs()[0].0,
            final(self).cur_start == old(self).cur_start + BLOCK_SLOT_SIZE,
            final(self).cur_block.pairs() =~~= seq![(key@, value@)],
    {
        let ghost old_pairs = self.pairs();
        let ghost old_cur = self.cur_block.pairs();
        let ghost old_blocks = self.data_blocks@;
        proof {
            // rejected but not oversized, so the current block is non-empty
            crate::block_builder::lemma_pairs_data_size_bounds(old_cur);
            assert(old_cur.len() > 0);
            assert(old_pairs.last() == old_cur.last());
        }
        let block_size_now: u32 = self.cur_block.size() as u32;
        let mut fresh = BlockBuilder::new(self.block_size);
        core::mem::swap(&mut self.cur_block, &mut fresh);
        let built = fresh.build();
        let ghost built_g = built;
        self.data_blocks.push(built);
        let mut fk: Vec<u8> = vstd::slice::slice_to_vec(key);
        core::mem::swap(&mut self.first_key, &mut fk);
        proof {
            assert(crate::block_builder::entry_wf(old(self).cur_block.kvs@[0]));
            assert(fk@.len() <= 0xFFFF);
        }
        let kl: u16 = fk.len() as u16;
        self.meta.push(
            BlockMeta { offset: self.cur_start + block_size_now, key_len: kl, first_key: fk },
        );
        let accepted = self.cur_block.add(key, value);
        assert(accepted);
        self.cur_start = self.cur_start + (BLOCK_SLOT_SIZE as u32);
        proof {
            let nb = self.data_blocks@;
            assert(nb =~= old_blocks.push(built_g));
            assert(self.meta@ =~= old(self).meta@.push(self.meta@.last()));
            assert(self.cur_block.pairs() =~~= seq![(key@, value@)]);
            lemma_blocks_pairs_push(old_blocks, built_g);
            assert(built_g.entries() == old_cur);
            assert(self.cur_block.pairs() =~~= Seq::<(Seq<u8>, Seq<u8>)>::empty().push(
                (key@, value@),
            ));
            assert(self.pairs() =~~= old_pairs.push((key@, value@)));
            // finished blocks stay consistent; the new one takes its facts
            // from the block builder it came from
            assert forall|i: int| 0 <= i < nb.len() implies self.finished_ok(i) by {
                if i < old_blocks.len() {
                    assert(old(self).finished_ok(i));
                    assert(self.data_blocks@[i] == old(self).data_blocks@[i]);
                    assert(self.meta@[i] == old(self).meta@[i]);
                } else {
                    assert(self.data_blocks@[i] == built_g);
                    assert(built_g.entries() == old_cur);
                    assert(self.meta@[i].first_key@ == built_g.entries()[0].0);
                    assert(self.meta@[i].offset as int == i * (BLOCK_SLOT_SIZE as int)
                        + self.enc_len(i));
                }
            }
        }
    }

    /// Emits the table byte image and the parsed table over it: every
    /// finished block in its zero-padded slot, the pending block's slot if it
    /// holds pairs, the meta region, and the 32-bit footer. The resulting
    /// table is sound and scans to exactly the pairs that were added.
    pub fn build(self) -> (t: SsTable)
        requires
            self.wf(),
            self.pairs().len() > 0,
            (self.data_blocks@.len() + 1) * (BLOCK_SLOT_SIZE as int) < 0x1_0000_0000,
        ensures
            t.wf(),
            t.sound(),
            t.entries() == self.pairs(),
            t.spec_num_blocks() == self.data_blocks@.len() + if self.cur_block.pairs().len() > 0 {
                1int
            } else {
                0int
            },
            t.file.0@.len() == t.block_meta_offset + metas_bytes(t.block_metas@).len() + 4,
            t.file.0@.subrange(t.block_meta_offset as int, t.file.0@.len() - 4) == metas_bytes(
                t.block_metas@,
            ),
            t.file.0@.subrange(t.file.0@.len() - 4, t.file.0@.len() as int) == u32_bytes(
                t.block_meta_offset,
            ),
            forall|i: int, j: int|
                #![trigger t.meta_off(i), t.file.0@[j]]
                0 <= i < t.spec_num_blocks() && t.meta_off(i) <= j < (i + 1) * (
                BLOCK_SLOT_SIZE as int) ==> t.file.0@[j] == 0,
    {
        let ghost me = self;
        let SsTableBuilder { meta, data_blocks, cur_block, cur_start, block_size, first_key } =
            self;
        let mut meta = meta;
        let n_finished: usize = data_blocks.len();
        let mut data: Vec<u8> = Vec::new();
        let mut i: usize = 0;
        while i < n_finished
            invariant
                i <= n_finished,
                n_finished == data_blocks@.len(),
                me.wf(),
                me.data_blocks@ == data_blocks@,
                me.meta@ == meta@,
                data@.len() == i * (BLOCK_SLOT_SIZE as int),
                forall|b: int|
                    0 <= b < i ==> data@.subrange(
                        b * (BLOCK_SLOT_SIZE as int),
                        #[trigger] me.meta@[b].offset as int,
                    ) == block_encoding(data_blocks@[b].data@, data_blocks@[b].offsets@),
                forall|b: int, j: int|
                    #![trigger me.meta@[b], data@[j]]
                    0 <= b < i && me.meta@[b].offset as int <= j < (b + 1) * (
                    BLOCK_SLOT_SIZE as int) ==> data@[j] == 0,
            decreases n_finished - i,
        {
            proof {
                assert(me.finished_ok(i as int));
            }
            let blk = vstd::std_specs::vec::vec_index(&data_blocks, i);
            let enc = blk.encode();
            let ghost pre = data@;
            push_bytes(&mut data, enc.as_slice());
            push_zeros(&mut data, BLOCK_SLOT_SIZE - enc.len());
            proof {
                let s = BLOCK_SLOT_SIZE as int;
                let ii = i as int;
                let el = enc@.len() as int;
                assert(data@.len() == (ii + 1) * s);
                assert forall|b: int|
                    0 <= b < ii + 1 implies data@.subrange(
                    b * s,
                    #[trigger] me.meta@[b].offset as int,
                ) == block_encoding(data_blocks@[b].data@, data_blocks@[b].offsets@) by {
                    assert(me.finished_ok(b));
                    if b < ii {
                        assert(data@.subrange(b * s, me.meta@[b].offset as int) =~= pre.subrange(
                            b * s,
                            me.meta@[b].offset as int,
                        ));
                    } else {
                        assert(me.meta@[b].offset as int == ii * s + el);
                        assert(data@.subrange(ii * s, ii * s + el) =~= enc@);
                    }
                }
                assert forall|b: int, j: int|
                    #![trigger me.meta@[b], data@[j]]
                    0 <= b < ii + 1 && me.meta@[b].offset as int <= j < (b + 1) * s implies data@[j]
                    == 0 by {
                    assert(me.finished_ok(b));
                    if b < ii {
                        assert(data@[j] == pre[j]);
                    } else {
                        assert(data@[j] == Seq::new((s - el) as nat, |q: int| 0u8)[j - ii * s
                            - el]);
                    }
                }
            }
            i = i + 1;
        }
        let ghost mut all_blocks: Seq<Block> = data_blocks@;
        let ghost mut num_slots: int = n_finished as int;
        let mut bmo: u32 = cur_start;
        let cur_nonempty = !cur_block.is_empty();
        if cur_nonempty {
            proof {
                assert(crate::block_builder::entry_wf(me.cur_block.kvs@[0]));
                assert(first_key@.len() <= 0xFFFF);
            }
            let enc_size_u32: u32 = cur_block.size() as u32;
            let fkl: u16 = first_key.len() as u16;
            let built = cur_block.build();
            let ghost built_g = built;
            let enc = built.encode();
            let ghost pre = data@;
            push_bytes(&mut data, enc.as_slice());
            push_zeros(&mut data, BLOCK_SLOT_SIZE - enc.len());
            meta.push(
                BlockMeta { offset: cur_start + enc_size_u32, key_len: fkl, first_key },
            );
            bmo = cur_start + (BLOCK_SLOT_SIZE as u32);
            proof {
                all_blocks = all_blocks.push(built_g);
                num_slots = num_slots + 1;
                let s = BLOCK_SLOT_SIZE as int;
                let nf = n_finished as int;
                let el = enc@.len() as int;
                assert(built_g.entries() == me.cur_block.pairs());
                assert(data@.len() == (nf + 1) * s);
                assert(data@.subrange(nf * s, nf * s + el) =~= enc@);
                assert forall|b: int|
                    0 <= b < num_slots implies data@.subrange(
                    b * s,
                    #[trigger] meta@[b].offset as int,
                ) == block_encoding(all_blocks[b].data@, all_blocks[b].offsets@) by {
                    if b < nf {
                        assert(me.finished_ok(b));
                        assert(meta@[b] == me.meta@[b]);
                        assert(data@.subrange(b * s, meta@[b].offset as int) =~= pre.subrange(
                            b * s,
                            meta@[b].offset as int,
                        ));
                    } else {
                        assert(meta@[b].offset as int == nf * s + el);
                    }
                }
                assert forall|b: int, j: int|
                    #![trigger meta@[b], data@[j]]
                    0 <= b < num_slots && meta@[b].offset as int <= j < (b + 1) * s implies data@[j]
                    == 0 by {
                    if b < nf {
                        assert(me.finished_ok(b));
                        assert(meta@[b] == me.meta@[b]);
                        assert(data@[j] == pre[j]);
                    } else {
                        assert(data@[j] == Seq::new((s - el) as nat, |q: int| 0u8)[j - nf * s
                            - el]);
                    }
                }
            }
        } else {
            proof {
                crate::block_builder::lemma_pairs_data_size_bounds(me.cur_block.pairs());
                assert(me.cur_block.pairs().len() == 0);
                assert(me.pairs() =~~= blocks_pairs(me.data_blocks@));
                assert(all_blocks.len() > 0);
            }
        }
        let ghost slots_img = data@;
        BlockMeta::encode_block_meta(meta.as_slice(), &mut data);
        push_u32_be(&mut data, bmo);
        let file = FileObject::create(data);
        let t = SsTable { file, block_metas: meta, block_meta_offset: bmo };
        proof {
            let s = BLOCK_SLOT_SIZE as int;
            let nf = n_finished as int;
            assert(t.file.0@ == slots_img + metas_bytes(t.block_metas@) + u32_bytes(bmo));
            assert forall|b: int| 0 <= b < all_blocks.len() implies staged_ok(
                t,
                all_blocks,
                slots_img,
                b,
            ) by {
                if b < nf {
                    assert(me.finished_ok(b));
                }
            }
            assert forall|b: int| 0 <= b < all_blocks.len() - 1 implies lex_lt(
                (#[trigger] all_blocks[b]).entries().last().0,
                all_blocks[b + 1].entries()[0].0,
            ) by {
                if b + 1 < nf {
                    assert(me.finished_ok(b));
                    assert(me.finished_ok(b + 1));
                }
            }
            if me.cur_block.pairs().len() > 0 {
                lemma_blocks_pairs_push(me.data_blocks@, all_blocks.last());
                assert(all_blocks =~= me.data_blocks@.push(all_blocks.last()));
                assert(blocks_pairs(all_blocks) == me.pairs());
            } else {
                assert(blocks_pairs(all_blocks) =~~= me.pairs());
            }
            lemma_build_table_good(t, me, all_blocks, slots_img);
        }
        t
    }

    /// The table bytes the builder would emit now: one slot per finished
    /// block, plus one for the current block when it holds pairs.
    pub fn estimated_size(&self) -> (r: usize)
        requires
            self.wf(),
            (self.data_blocks@.len() + 1) * (BLOCK_SLOT_SIZE as int) < 0x1_0000_0000,
        ensures
            r == self.data_blocks@.len() * (BLOCK_SLOT_SIZE as int) + if self.cur_block.pairs().len()
                > 0 {
                BLOCK_SLOT_SIZE as int
            } else {
                0
            },
    {
        let base: usize = self.cur_start as usize;
        if self.cur_block.is_empty() {
            base
        } else {
            base + BLOCK_SLOT_SIZE
        }
    }
}

/// Block `b` of a freshly written image is staged correctly: the block is
/// internally consistent, its meta record describes it, its encoded bytes
/// fill the front of its slot and zeros fill the rest.
pub open spec fn staged_ok(t: SsTable, all_blocks: Seq<Block>, slots_img: Seq<u8>, b: int) -> bool {
    let blk = all_blocks[b];
    let s = BLOCK_SLOT_SIZE as int;
    let el = block_encoding(blk.data@, blk.offsets@).len() as int;
    &&& blk.wf()
    &&& blk.entries().len() > 0
    &&& (forall|p: int, q: int|
        0 <= p < q < blk.entries().len() ==> lex_lt(
            (#[trigger] blk.entries()[p]).0,
            (#[trigger] blk.entries()[q]).0,
        ))
    &&& (forall|p: int| 0 <= p < blk.entries().len() ==> (#[trigger] blk.entries()[p]).0.len() > 0)
    &&& meta_wf(t.block_metas@[b])
    &&& 2 <= el <= s
    &&& t.meta_off(b) == b * s + el
    &&& t.block_metas@[b].first_key@ == blk.entries()[0].0
    &&& slots_img.subrange(b * s, t.meta_off(b)) == block_encoding(blk.data@, blk.offsets@)
    &&& (forall|j: int| t.meta_off(b) <= j < (b + 1) * s ==> slots_img[j] == 0)
}

/// When every block of a table holds the entries of the matching staged
/// block, the scan prefix equals the staged pair prefix.
proof fn lemma_entries_match(t: SsTable, bs: Seq<Block>, m: int)
    requires
        0 <= m <= bs.len(),
        t.spec_num_blocks() == bs.len(),
        forall|i: int| 0 <= i < bs.len() ==> #[trigger] t.block_entries(i) == bs[i].entries(),
    ensures
        t.entries_upto(m) == blocks_pairs(bs.take(m)),
    decreases m,
{
    if m > 0 {
        lemma_entries_match(t, bs, m - 1);
        assert(bs.take(m).drop_last() =~= bs.take(m - 1));
        assert(bs.take(m).last() == bs[m - 1]);
        assert(blocks_pairs(bs.take(m)) == blocks_pairs(bs.take(m - 1)) + bs[m - 1].entries());
    } else {
        assert(bs.take(0) =~= Seq::<Block>::empty());
    }
}

/// Assembles the soundness of a freshly written table from the staging facts
/// of its blocks.
#[verifier::rlimit(100)]
proof fn lemma_build_table_good(t: SsTable, me: SsTableBuilder, all_blocks: Seq<Block>, slots_img: Seq<u8>)
    requires
        all_blocks.len() >= 1,
        t.block_metas@.len() == all_blocks.len(),
        t.block_meta_offset as int == all_blocks.len() * (BLOCK_SLOT_SIZE as int),
        slots_img.len() == all_blocks.len() * (BLOCK_SLOT_SIZE as int),
        t.file.0@ == slots_img + metas_bytes(t.block_metas@) + u32_bytes(t.block_meta_offset),
        forall|b: int| 0 <= b < all_blocks.len() ==> staged_ok(t, all_blocks, slots_img, b),
        forall|b: int|
            0 <= b < all_blocks.len() - 1 ==> lex_lt(
                (#[trigger] all_blocks[b]).entries().last().0,
                all_blocks[b + 1].entries()[0].0,
            ),
        blocks_pairs(all_blocks) == me.pairs(),
    ensures
        t.wf(),
        t.sound(),
        t.entries() == me.pairs(),
        t.file.0@.len() == t.block_meta_offset + metas_bytes(t.block_metas@).len() + 4,
        t.file.0@.subrange(t.block_meta_offset as int, t.file.0@.len() - 4) == metas_bytes(
            t.block_metas@,
        ),
        t.file.0@.subrange(t.file.0@.len() - 4, t.file.0@.len() as int) == u32_bytes(
            t.block_meta_offset,
        ),
        forall|i: int, j: int|
            #![trigger t.meta_off(i), t.file.0@[j]]
            0 <= i < t.spec_num_blocks() && t.meta_off(i) <= j < (i + 1) * (
            BLOCK_SLOT_SIZE as int) ==> t.file.0@[j] == 0,
{
    let s = BLOCK_SLOT_SIZE as int;
    let n = all_blocks.len() as int;
    let fb = t.file.0@;
    assert(fb.len() == t.block_meta_offset + metas_bytes(t.block_metas@).len() + 4);
    assert(fb.subrange(t.block_meta_offset as int, fb.len() - 4) =~= metas_bytes(t.block_metas@));
    assert(fb.subrange(fb.len() - 4, fb.len() as int) =~= u32_bytes(t.block_meta_offset));
    assert forall|i: int| 0 <= i < t.block_metas@.len() implies meta_wf(
        #[trigger] t.block_metas@[i],
    ) by {
        assert(staged_ok(t, all_blocks, slots_img, i));
    }
    assert(t.wf());
    assert forall|i: int| 0 <= i < n implies #[trigger] t.block_entries(i) == all_blocks[i].entries()
        && t.block_sound(i) by {
        assert(staged_ok(t, all_blocks, slots_img, i));
        let blk = all_blocks[i];
        assert((i + 1) * s <= n * s) by (nonlinear_arith)
            requires
                i + 1 <= n,
                s > 0,
        ;
        assert(t.meta_off(i) <= slots_img.len());
        assert(t.slot_bytes(i) =~= slots_img.subrange(i * s, t.meta_off(i)));
        lemma_block_round_trip(blk.data@, blk.offsets@);
        let sb = t.slot_bytes(i);
        assert(sb == block_encoding(blk.data@, blk.offsets@));
        assert(crate::block::block_bytes_valid(sb));
        assert(crate::block::decoded_data(sb) == blk.data@);
        assert(crate::block::decoded_offsets(sb) == blk.offsets@);
        assert(t.block_entries(i) =~~= blk.entries());
    }
    assert forall|i: int, j: int|
        #![trigger t.meta_off(i), t.file.0@[j]]
        0 <= i < n && t.meta_off(i) <= j < (i + 1) * s implies t.file.0@[j] == 0 by {
        assert(staged_ok(t, all_blocks, slots_img, i));
        assert((i + 1) * s <= n * s) by (nonlinear_arith)
            requires
                i + 1 <= n,
                s > 0,
        ;
        assert(t.file.0@[j] == slots_img[j]);
    }
    assert forall|i: int| 0 <= i < n implies t.block_sound(i) by {
        assert(t.block_entries(i) == all_blocks[i].entries());
    }
    assert forall|i: int| 0 <= i < n - 1 implies lex_lt(
        (#[trigger] t.block_entries(i)).last().0,
        t.first_key(i + 1),
    ) by {
        assert(t.block_entries(i) == all_blocks[i].entries());
        assert(t.block_entries(i + 1) == all_blocks[i + 1].entries());
        assert(staged_ok(t, all_blocks, slots_img, i + 1));
        assert(t.first_key(i + 1) == all_blocks[i + 1].entries()[0].0);
    }
    assert(t.sound());
    lemma_entries_match(t, all_blocks, n);
    assert(all_blocks.take(n) =~= all_blocks);
}

/// The last pair of the finished blocks is the last entry of the last block.
proof fn lemma_blocks_pairs_last(bs: Seq<Block>, b: SsTableBuilder)
    requires
        bs == b.data_blocks@,
        b.wf(),
        bs.len() > 0,
    ensures
        blocks_pairs(bs).len() > 0,
        blocks_pairs(bs).last() == bs.last().entries().last(),
{
    assert(b.finished_ok(bs.len() - 1));
    assert(blocks_pairs(bs) == blocks_pairs(bs.drop_last()) + bs.last().entries());
}

} // verus!
