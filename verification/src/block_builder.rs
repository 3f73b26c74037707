//! Accumulates sorted key-value entries until a byte budget is reached, then
//! emits a packed block.

use vstd::prelude::*;

use crate::block::{
    block_encoding, block_wf, entry_key, entry_klen, entry_ok, entry_size, entry_value, Block,
};
use crate::endian::{push_bytes, push_u16_be, u16_bytes};

verus! {

broadcast use vstd::slice::group_slice_axioms;

/// One buffered key-value pair; `total_size` caches the encoded entry size
/// `4 + key.len() + val.len()` (two length fields plus the payloads).
pub struct Entry {
    pub key: Vec<u8>,
    pub val: Vec<u8>,
    pub total_size: u16,
}

/// The cached size field agrees with the payloads.
pub open spec fn entry_wf(e: Entry) -> bool {
    e.key@.len() + e.val@.len() + 4 == e.total_size
}

/// Total data-region bytes of a pair sequence: each pair costs its payloads
/// plus two 16-bit length fields.
pub open spec fn pairs_data_size(ps: Seq<(Seq<u8>, Seq<u8>)>) -> int
    decreases ps.len(),
{
    if ps.len() == 0 {
        0
    } else {
        pairs_data_size(ps.drop_last()) + 4 + ps.last().0.len() + ps.last().1.len()
    }
}

/// Every pair costs at least its four length-field bytes.
pub proof fn lemma_pairs_data_size_bounds(ps: Seq<(Seq<u8>, Seq<u8>)>)
    ensures
        pairs_data_size(ps) >= 4 * ps.len(),
    decreases ps.len(),
{
    if ps.len() > 0 {
        lemma_pairs_data_size_bounds(ps.drop_last());
    }
}

/// A prefix of a pair sequence never costs more than the whole.
pub proof fn lemma_pairs_data_size_prefix(ps: Seq<(Seq<u8>, Seq<u8>)>, i: int)
    requires
        0 <= i <= ps.len(),
    ensures
        pairs_data_size(ps.take(i)) <= pairs_data_size(ps),
    decreases ps.len() - i,
{
    if i < ps.len() {
        lemma_pairs_data_size_prefix(ps, i + 1);
        assert(ps.take(i + 1).drop_last() =~= ps.take(i));
        assert(ps.take(i + 1).last() == ps[i]);
        assert(pairs_data_size(ps.take(i)) <= pairs_data_size(ps.take(i + 1)));
    } else {
        assert(ps.take(i) =~= ps);
    }
}

/// Builds a block: buffers entries and the running encoded size against a
/// target byte budget.
pub struct BlockBuilder {
    pub kvs: Vec<Entry>,
    pub current_size: usize,
    pub target_size: usize,
}

impl BlockBuilder {
    /// The buffered key-value pairs, in insertion order.
    pub open spec fn pairs(&self) -> Seq<(Seq<u8>, Seq<u8>)> {
        Seq::new(self.kvs@.len(), |i: int| (self.kvs@[i].key@, self.kvs@[i].val@))
    }

    /// Builder invariant: the byte counter equals the cost of the buffered
    /// pairs (data bytes plus one 16-bit offset slot each), everything fits
    /// the budget, and the budget fits the 16-bit offset space.
    pub open spec fn wf(&self) -> bool {
        &&& self.target_size <= 0xFFFF
        &&& self.current_size == pairs_data_size(self.pairs()) + 2 * self.kvs@.len()
        &&& (self.kvs@.len() > 0 ==> self.current_size + 2 <= self.target_size)
        &&& (forall|i: int| 0 <= i < self.kvs@.len() ==> entry_wf(#[trigger] self.kvs@[i]))
    }

    /// The size the block would encode to if built now: buffered cost plus
    /// the 16-bit entry count.
    pub open spec fn spec_size(&self) -> int {
        self.current_size + 2
    }

    /// Creates a builder with the given byte budget. The budget is capped by
    /// the 16-bit offset and count fields of the block format.
    pub fn new(block_size: usize) -> (r: BlockBuilder)
        requires
            block_size <= 0xFFFF,
        ensures
            r.wf(),
            r.pairs() =~= Seq::<(Seq<u8>, Seq<u8>)>::empty(),
            r.target_size == block_size,
            r.current_size == 0,
    {
        BlockBuilder { kvs: Vec::new(), current_size: 0, target_size: block_size }
    }

    /// Adds a key-value pair to the block, returning false (and changing
    /// nothing) when the pair would push the encoded block past the budget.
    /// The pair is accepted exactly when the projected encoded size --
    /// current cost, the new entry, its offset slot, and the count field --
    /// stays within the budget.
    pub fn add(&mut self, key: &[u8], value: &[u8]) -> (r: bool)
        requires
            old(self).wf(),
        ensures
            final(self).wf(),
            final(self).target_size == old(self).target_size,
            r == (old(self).current_size + key@.len() + value@.len() + 8
                <= old(self).target_size),
            r ==> final(self).pairs() =~~= old(self).pairs().push((key@, value@))
                && final(self).current_size == old(self).current_size + key@.len()
                + value@.len() + 6,
            !r ==> *final(self) == *old(self),
    {
        let klen: usize = key.len();
        let vlen: usize = value.len();
        if klen > self.target_size || vlen > self.target_size {
            return false;
        }
        let pair_size: usize = 4 + klen + vlen;
        if self.current_size + pair_size + 2 + 2 > self.target_size {
            return false;
        }
        let entry = Entry {
            key: vstd::slice::slice_to_vec(key),
            val: vstd::slice::slice_to_vec(value),
            total_size: pair_size as u16,
        };
        let ghost old_pairs = self.pairs();
        self.kvs.push(entry);
        self.current_size = self.current_size + pair_size + 2;
        proof {
            assert(self.pairs().drop_last() =~~= old_pairs);
            assert(self.pairs() =~~= old_pairs.push((key@, value@)));
            assert(pairs_data_size(self.pairs()) == pairs_data_size(old_pairs) + pair_size);
        }
        true
    }

    /// True when no pair has been buffered.
    pub fn is_empty(&self) -> (r: bool)
        ensures
            r == (self.pairs().len() == 0),
    {
        self.kvs.len() == 0
    }

    /// The size the block would encode to if built now.
    pub fn size(&self) -> (r: usize)
        requires
            self.wf(),
        ensures
            r == self.spec_size(),
    {
        self.current_size + 2
    }

    /// Finalizes the builder into a block holding exactly the buffered pairs,
    /// whose encoded image is `size()` bytes long.
    pub fn build(self) -> (b: Block)
        requires
            self.wf(),
        ensures
            b.wf(),
            b.entries() =~~= self.pairs(),
            b.offsets@.len() == self.pairs().len(),
            block_encoding(b.data@, b.offsets@).len() == self.spec_size(),
    {
        let n: usize = self.kvs.len();
        let ghost ps = self.pairs();
        let mut offsets: Vec<u16> = Vec::new();
        let mut data: Vec<u8> = Vec::new();
        let mut cur: usize = 0;
        let mut i: usize = 0;
        proof {
            lemma_pairs_data_size_bounds(ps);
        }
        while i < n
            invariant
                i <= n,
                n == self.kvs@.len(),
                ps == self.pairs(),
                self.wf(),
                offsets@.len() == i,
                data@.len() == cur,
                cur == pairs_data_size(ps.take(i as int)),
                i > 0 ==> offsets@[0] == 0,
                forall|j: int| #![auto] 0 <= j < i ==> entry_ok(data@, offsets@[j] as int),
                forall|j: int|
                    #![auto]
                    0 <= j && j + 1 < i ==> offsets@[j + 1] == offsets@[j] + entry_size(
                        data@,
                        offsets@[j] as int,
                    ),
                i > 0 ==> offsets@[i - 1] + entry_size(data@, offsets@[i - 1] as int) == cur,
                forall|j: int|
                    #![auto]
                    0 <= j < i ==> entry_key(data@, offsets@[j] as int) == ps[j].0 && entry_value(
                        data@,
                        offsets@[j] as int,
                    ) == ps[j].1,
            decreases n - i,
        {
            proof {
                lemma_pairs_data_size_prefix(ps, i + 1);
                lemma_pairs_data_size_bounds(ps);
                assert(ps.take(i + 1).drop_last() =~= ps.take(i as int));
                assert(ps.take(i + 1).last() == ps[i as int]);
            }
            let kv = vstd::std_specs::vec::vec_index(&self.kvs, i);
            let klen: usize = kv.key.len();
            let vlen: usize = kv.val.len();
            let ghost old_data = data@;
            offsets.push(cur as u16);
            push_u16_be(&mut data, klen as u16);
            push_bytes(&mut data, kv.key.as_slice());
            push_u16_be(&mut data, vlen as u16);
            push_bytes(&mut data, kv.val.as_slice());
            proof {
                let c = cur as int;
                crate::endian::lemma_u16_bytes_roundtrip(klen as u16);
                crate::endian::lemma_u16_bytes_roundtrip(vlen as u16);
                assert(data@ == old_data + u16_bytes(klen as u16) + kv.key@ + u16_bytes(
                    vlen as u16,
                ) + kv.val@);
                assert(data@[c] == u16_bytes(klen as u16)[0]);
                assert(data@[c + 1] == u16_bytes(klen as u16)[1]);
                assert(entry_klen(data@, c) == klen);
                assert forall|t: int| 0 <= t < klen implies data@[c + 2 + t] == kv.key@[t] by {}
                assert(entry_key(data@, c) =~= kv.key@);
                assert(data@[c + 2 + klen] == u16_bytes(vlen as u16)[0]);
                assert(data@[c + 3 + klen] == u16_bytes(vlen as u16)[1]);
                assert(crate::block::entry_vlen(data@, c) == vlen);
                assert forall|t: int| 0 <= t < vlen implies data@[c + 4 + klen + t]
                    == kv.val@[t] by {}
                assert(entry_value(data@, c) =~= kv.val@);
                assert(entry_size(data@, c) == 4 + klen + vlen);
                assert(entry_ok(data@, c));
                // entries already laid out are undisturbed: their bytes are a
                // prefix of the new data region
                assert forall|j: int| 0 <= j < i implies entry_ok(data@, offsets@[j] as int)
                    && entry_key(data@, offsets@[j] as int) == ps[j].0 && entry_value(
                    data@,
                    offsets@[j] as int,
                ) == ps[j].1 && entry_size(data@, offsets@[j] as int) == entry_size(
                    old_data,
                    offsets@[j] as int,
                ) by {
                    lemma_entry_parse_stable(old_data, data@, offsets@[j] as int);
                }
            }
            cur = cur + 4 + klen + vlen;
            i = i + 1;
        }
        proof {
            assert(ps.take(n as int) =~= ps);
            lemma_pairs_data_size_bounds(ps);
            assert(block_wf(data@, offsets@));
        }
        let b = Block { data, offsets };
        proof {
            assert forall|j: int| 0 <= j < n implies b.entries()[j] == ps[j] by {}
            assert(b.entries() =~~= ps);
            crate::block::lemma_rb_index(b.offsets@);
        }
        b
    }
}

/// Extending the data region does not disturb the parse of an entry that lies
/// within the old region.
proof fn lemma_entry_parse_stable(d1: Seq<u8>, d2: Seq<u8>, off: int)
    requires
        entry_ok(d1, off),
        d2.len() >= d1.len(),
        forall|j: int| 0 <= j < d1.len() ==> d1[j] == #[trigger] d2[j],
    ensures
        entry_ok(d2, off),
        entry_klen(d2, off) == entry_klen(d1, off),
        crate::block::entry_vlen(d2, off) == crate::block::entry_vlen(d1, off),
        entry_size(d2, off) == entry_size(d1, off),
        entry_key(d2, off) == entry_key(d1, off),
        entry_value(d2, off) == entry_value(d1, off),
{
    assert(entry_klen(d2, off) == entry_klen(d1, off));
    assert(crate::block::entry_vlen(d2, off) == crate::block::entry_vlen(d1, off));
    assert(entry_key(d2, off) =~= entry_key(d1, off));
    assert(entry_value(d2, off) =~= entry_value(d1, off));
}

} // verus!
