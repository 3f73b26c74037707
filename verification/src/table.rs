//! A sorted string table: fixed-size block slots, a meta index mapping each
//! block to its end offset and first key, and a footer locating the index.
//!
//! On-disk layout:
//!
//! ```text
//! | slot 0 (S bytes) | ... | slot N-1 | meta region | block_meta_offset (u32) |
//! ```
//!
//! Each slot holds one encoded block, zero-padded to exactly S bytes. Each
//! meta record is `u32 offset | u16 key_len | first_key`, where `offset` is
//! the end of the block's encoded bytes within the file.

use std::sync::Arc;

use vstd::prelude::*;

use crate::block::{
    block_bytes_valid, decoded_data, decoded_offsets, entry_key, entry_value, Block,
};
use crate::endian::{be16, be32, push_bytes, push_u16_be, push_u32_be, read_u16_be, read_u32_be,
    u16_bytes, u32_bytes};
use crate::order::{lex_le, lex_lt};
use crate::Error;

verus! {

broadcast use vstd::slice::group_slice_axioms;

/// The fixed byte size of one block slot in a table file.
pub const BLOCK_SLOT_SIZE: usize = 4096;

/// The meta record of one data block: where its encoded bytes end inside the
/// file, and its first key.
pub struct BlockMeta {
    /// End of the block's encoded bytes within the table file (the block's
    /// slot begins at `index * BLOCK_SLOT_SIZE`).
    pub offset: u32,
    /// Byte length of `first_key`, kept to make the record self-delimiting.
    pub key_len: u16,
    /// The block's first key, verbatim.
    pub first_key: Vec<u8>,
}

/// The cached length field agrees with the stored first key.
pub open spec fn meta_wf(m: BlockMeta) -> bool {
    m.key_len == m.first_key@.len()
}

/// The encoded image of one meta record.
pub open spec fn meta_bytes(m: BlockMeta) -> Seq<u8> {
    u32_bytes(m.offset) + u16_bytes(m.key_len) + m.first_key@
}

/// The encoded image of a meta sequence: records back to back, in block
/// order.
pub open spec fn metas_bytes(ms: Seq<BlockMeta>) -> Seq<u8>
    decreases ms.len(),
{
    if ms.len() == 0 {
        Seq::empty()
    } else {
        metas_bytes(ms.drop_last()) + meta_bytes(ms.last())
    }
}

/// The plain-value view of a meta sequence: (end offset, first key) pairs.
pub open spec fn metas_view(ms: Seq<BlockMeta>) -> Seq<(int, Seq<u8>)> {
    Seq::new(ms.len(), |i: int| (ms[i].offset as int, ms[i].first_key@))
}

/// Parses a meta region: records back to back, consuming the buffer exactly;
/// `None` when a record is truncated.
pub open spec fn parse_metas(bytes: Seq<u8>) -> Option<Seq<(int, Seq<u8>)>>
    decreases bytes.len(),
{
    if bytes.len() == 0 {
        Some(Seq::empty())
    } else if bytes.len() < 6 {
        None
    } else {
        let off = be32(bytes[0], bytes[1], bytes[2], bytes[3]);
        let klen = be16(bytes[4], bytes[5]);
        if 6 + klen > bytes.len() {
            None
        } else {
            let fk = bytes.subrange(6, 6 + klen);
            match parse_metas(bytes.skip(6 + klen)) {
                Some(rest) => Some(seq![(off, fk)] + rest),
                None => None,
            }
        }
    }
}

impl BlockMeta {
    /// Appends the encoded image of `block_meta` to `buf`.
    pub fn encode_block_meta(block_meta: &[BlockMeta], buf: &mut Vec<u8>)
        ensures
            final(buf)@ == old(buf)@ + metas_bytes(block_meta@),
    {
        let n: usize = block_meta.len();
        let mut i: usize = 0;
        assert(old(buf)@ + metas_bytes(block_meta@.take(0)) =~= old(buf)@);
        while i < n
            invariant
                i <= n,
                n == block_meta@.len(),
                buf@ == old(buf)@ + metas_bytes(block_meta@.take(i as int)),
            decreases n - i,
        {
            let ghost prev = buf@;
            let m = vstd::slice::slice_index_get(block_meta, i);
            push_u32_be(buf, m.offset);
            push_u16_be(buf, m.key_len);
            push_bytes(buf, m.first_key.as_slice());
            proof {
                let ms = block_meta@;
                assert(ms.take(i + 1).drop_last() =~= ms.take(i as int));
                assert(ms.take(i + 1).last() == ms[i as int]);
                assert(buf@ =~= prev + meta_bytes(ms[i as int]));
                assert(buf@ =~= old(buf)@ + metas_bytes(ms.take(i + 1)));
            }
            i = i + 1;
        }
        assert(block_meta@.take(n as int) =~= block_meta@);
    }

    /// Decodes a meta region, consuming `buf` exactly: `Ok` exactly when the
    /// whole buffer parses as back-to-back meta records.
    pub fn decode_block_meta(buf: &[u8]) -> (r: Result<Vec<BlockMeta>, Error>)
        ensures
            r is Ok <==> parse_metas(buf@) is Some,
            r matches Ok(v) ==> {
                &&& metas_view(v@) == parse_metas(buf@).unwrap()
                &&& forall|i: int| 0 <= i < v@.len() ==> meta_wf(#[trigger] v@[i])
            },
            r matches Err(e) ==> e == Error::CorruptTable,
    {
        let len: usize = buf.len();
        let mut metas: Vec<BlockMeta> = Vec::new();
        let mut pos: usize = 0;
        proof {
            assert(buf@.skip(0) =~= buf@);
            assert(metas_view(metas@) =~~= Seq::<(int, Seq<u8>)>::empty());
            if parse_metas(buf@) is Some {
                assert(metas_view(metas@) + parse_metas(buf@).unwrap() =~~= parse_metas(
                    buf@,
                ).unwrap());
            }
        }
        while pos < len
            invariant
                pos <= len,
                len == buf@.len(),
                forall|i: int| 0 <= i < metas@.len() ==> meta_wf(#[trigger] metas@[i]),
                parse_metas(buf@.skip(pos as int)) matches Some(rest) ==> parse_metas(buf@) matches
                    Some(all) && all =~~= metas_view(metas@) + rest,
                parse_metas(buf@.skip(pos as int)) is None ==> parse_metas(buf@) is None,
            decreases len - pos,
        {
            if len - pos < 6 {
                return Err(Error::CorruptTable);
            }
            let off: u32 = read_u32_be(buf, pos);
            let klen: usize = read_u16_be(buf, pos + 4) as usize;
            if klen > len - pos - 6 {
                return Err(Error::CorruptTable);
            }
            let fk = vstd::slice::slice_to_vec(
                vstd::slice::slice_subrange(buf, pos + 6, pos + 6 + klen),
            );
            let ghost old_metas = metas@;
            proof {
                let rem = buf@.skip(pos as int);
                assert(rem[0] == buf@[pos as int]);
                assert(rem[1] == buf@[pos + 1]);
                assert(rem[2] == buf@[pos + 2]);
                assert(rem[3] == buf@[pos + 3]);
                assert(rem[4] == buf@[pos + 4]);
                assert(rem[5] == buf@[pos + 5]);
                assert(fk@ =~= rem.subrange(6, 6 + klen));
                assert(rem.skip(6 + klen) =~= buf@.skip(pos + 6 + klen));
            }
            metas.push(BlockMeta { offset: off, key_len: klen as u16, first_key: fk });
            proof {
                let rem = buf@.skip(pos as int);
                let rest2 = parse_metas(buf@.skip(pos + 6 + klen));
                assert(metas_view(metas@) =~~= metas_view(old_metas) + seq![
                    (off as int, buf@.subrange(pos + 6, pos + 6 + klen)),
                ]);
                if rest2 is Some {
                    assert(parse_metas(rem) is Some);
                    assert(parse_metas(rem).unwrap() =~~= seq![
                        (off as int, buf@.subrange(pos + 6, pos + 6 + klen)),
                    ] + rest2.unwrap());
                    assert(metas_view(metas@) + rest2.unwrap() =~~= metas_view(old_metas)
                        + parse_metas(rem).unwrap());
                }
            }
            pos = pos + 6 + klen;
        }
        proof {
            assert(buf@.skip(len as int) =~= Seq::<u8>::empty());
            assert(parse_metas(buf@.skip(len as int)) == Some(Seq::<(int, Seq<u8>)>::empty()));
            assert(metas_view(metas@) + Seq::<(int, Seq<u8>)>::empty() =~~= metas_view(metas@));
        }
        Ok(metas)
    }
}

/// An addressable byte image standing for a table file: reads are synchronous
/// and byte-exact. Persistence lives outside the core.
pub struct FileObject(pub Vec<u8>);

impl FileObject {
    /// Reads `len` bytes starting at `offset`; fails with `IoError` exactly
    /// when the range runs past the end of the image.
    pub fn read(&self, offset: u64, len: u64) -> (r: Result<Vec<u8>, Error>)
        ensures
            r is Ok <==> offset + len <= self.0@.len(),
            r matches Ok(v) ==> v@ == self.0@.subrange(offset as int, offset as int + len as int),
            r matches Err(e) ==> e == Error::IoError,
    {
        let size: usize = self.0.len();
        if offset > size as u64 || len > size as u64 - offset {
            return Err(Error::IoError);
        }
        let off: usize = offset as usize;
        let l: usize = len as usize;
        Ok(
            vstd::slice::slice_to_vec(
                vstd::slice::slice_subrange(self.0.as_slice(), off, off + l),
            ),
        )
    }

    /// The size of the image in bytes.
    pub fn size(&self) -> (r: u64)
        ensures
            r == self.0@.len(),
    {
        self.0.len() as u64
    }

    /// Wraps a byte image as a file object.
    pub fn create(data: Vec<u8>) -> (r: FileObject)
        ensures
            r.0@ == data@,
    {
        FileObject(data)
    }
}

/// The meta-index offset declared by a table image's last four bytes.
pub open spec fn image_footer(bytes: Seq<u8>) -> int {
    be32(
        bytes[bytes.len() - 4],
        bytes[bytes.len() - 3],
        bytes[bytes.len() - 2],
        bytes[bytes.len() - 1],
    )
}

/// A table image opens successfully: it has a footer, the meta region it
/// declares is in bounds, sits right after a whole number of block slots
/// matching the meta count, and parses into at least one record.
pub open spec fn open_ok(bytes: Seq<u8>) -> bool {
    &&& bytes.len() >= 4
    &&& image_footer(bytes) + 4 <= bytes.len()
    &&& parse_metas(bytes.subrange(image_footer(bytes), bytes.len() - 4)) matches Some(ms)
        && ms.len() >= 1 && image_footer(bytes) == ms.len() * (BLOCK_SLOT_SIZE as int)
}

/// A parsed table: the byte image, the meta index, and where the index
/// starts.
pub struct SsTable {
    /// The table's byte image.
    pub file: FileObject,
    /// One meta record per block, in block order.
    pub block_metas: Vec<BlockMeta>,
    /// Byte offset of the meta region within `file`.
    pub block_meta_offset: u32,
}

impl SsTable {
    /// Number of data blocks.
    pub open spec fn spec_num_blocks(&self) -> int {
        self.block_metas@.len() as int
    }

    /// End offset of block `i`'s encoded bytes within the file.
    pub open spec fn meta_off(&self, i: int) -> int {
        self.block_metas@[i].offset as int
    }

    /// First key of block `i`, as recorded in the meta index.
    pub open spec fn first_key(&self, i: int) -> Seq<u8> {
        self.block_metas@[i].first_key@
    }

    /// Start offset of slot `i`.
    pub open spec fn slot_start(i: int) -> int {
        i * (BLOCK_SLOT_SIZE as int)
    }

    /// The encoded bytes of block `i`: from its slot start to its recorded
    /// end offset.
    pub open spec fn slot_bytes(&self, i: int) -> Seq<u8> {
        self.file.0@.subrange(Self::slot_start(i), self.meta_off(i))
    }

    /// The key-value pairs of block `i`.
    pub open spec fn block_entries(&self, i: int) -> Seq<(Seq<u8>, Seq<u8>)> {
        crate::block::image_entries(self.slot_bytes(i))
    }

    /// Structural invariant established by `open` and by the builder: at
    /// least one block, consistent meta records, and a meta region that sits
    /// right after the block slots and within the file.
    pub open spec fn wf(&self) -> bool {
        &&& self.spec_num_blocks() >= 1
        &&& (forall|i: int|
            0 <= i < self.spec_num_blocks() ==> meta_wf(#[trigger] self.block_metas@[i]))
        &&& self.block_meta_offset as int == self.spec_num_blocks() * (BLOCK_SLOT_SIZE as int)
        &&& self.block_meta_offset + 4 <= self.file.0@.len()
    }

    /// Block `i` is semantically sound: its encoded bytes fill part of its
    /// slot, decode to a non-empty block with ascending, non-empty keys, and
    /// the meta record carries its true first key.
    pub open spec fn block_sound(&self, i: int) -> bool {
        &&& Self::slot_start(i) + 2 <= self.meta_off(i)
        &&& self.meta_off(i) <= Self::slot_start(i) + BLOCK_SLOT_SIZE
        &&& block_bytes_valid(self.slot_bytes(i))
        &&& self.block_entries(i).len() > 0
        &&& (forall|a: int, b: int|
            0 <= a < b < self.block_entries(i).len() ==> lex_lt(
                #[trigger] self.block_entries(i)[a].0,
                #[trigger] self.block_entries(i)[b].0,
            ))
        &&& (forall|a: int|
            0 <= a < self.block_entries(i).len() ==> (#[trigger] self.block_entries(
                i,
            )[a].0).len() > 0)
        &&& self.first_key(i) == self.block_entries(i)[0].0
    }

    /// Full semantic soundness, established by the builder: every block is
    /// sound and keys ascend across block boundaries.
    pub open spec fn sound(&self) -> bool {
        &&& self.wf()
        &&& (forall|i: int| 0 <= i < self.spec_num_blocks() ==> self.block_sound(i))
        &&& (forall|i: int|
            0 <= i < self.spec_num_blocks() - 1 ==> lex_lt(
                (#[trigger] self.block_entries(i)).last().0,
                self.first_key(i + 1),
            ))
    }

    /// All key-value pairs of the first `m` blocks, in order.
    pub open spec fn entries_upto(&self, m: int) -> Seq<(Seq<u8>, Seq<u8>)>
        decreases m,
    {
        if m <= 0 {
            Seq::empty()
        } else {
            self.entries_upto(m - 1) + self.block_entries(m - 1)
        }
    }

    /// All key-value pairs of the table, in order.
    pub open spec fn entries(&self) -> Seq<(Seq<u8>, Seq<u8>)> {
        self.entries_upto(self.spec_num_blocks())
    }

    /// The absolute position of block `m`'s first entry in a full scan.
    pub open spec fn base(&self, m: int) -> int {
        self.entries_upto(m).len() as int
    }

    /// First keys ascend strictly across the meta index.
    pub open spec fn first_keys_sorted(&self) -> bool {
        forall|i: int, j: int|
            0 <= i < j < self.spec_num_blocks() ==> lex_lt(
                #[trigger] self.first_key(i),
                #[trigger] self.first_key(j),
            )
    }

    /// Opens a table image: reads the footer, decodes the meta region, and
    /// validates that the meta region is in bounds, fully consumed, sits
    /// right after a whole number of slots matching the meta count, and is
    /// non-empty. Succeeds exactly on images satisfying `open_ok`.
    pub fn open(file: FileObject) -> (r: Result<SsTable, Error>)
        ensures
            r is Ok <==> open_ok(file.0@),
            r matches Ok(t) ==> {
                &&& t.wf()
                &&& t.file == file
                &&& t.block_meta_offset == image_footer(file.0@)
                &&& metas_view(t.block_metas@) == parse_metas(
                    file.0@.subrange(image_footer(file.0@), file.0@.len() - 4),
                ).unwrap()
            },
            r matches Err(e) ==> e == Error::CorruptTable,
    {
        let size: u64 = file.size();
        if size < 4 {
            return Err(Error::CorruptTable);
        }
        let footer = match file.read(size - 4, 4) {
            Ok(v) => v,
            Err(_) => {
                return Err(Error::CorruptTable);
            },
        };
        let bmo: u32 = read_u32_be(footer.as_slice(), 0);
        assert(bmo == image_footer(file.0@));
        if (bmo as u64) > size - 4 {
            return Err(Error::CorruptTable);
        }
        let region = match file.read(bmo as u64, size - 4 - bmo as u64) {
            Ok(v) => v,
            Err(_) => {
                return Err(Error::CorruptTable);
            },
        };
        let metas = match BlockMeta::decode_block_meta(region.as_slice()) {
            Ok(v) => v,
            Err(_) => {
                return Err(Error::CorruptTable);
            },
        };
        let n: usize = metas.len();
        if n == 0 {
            return Err(Error::CorruptTable);
        }
        if !(bmo as u64 % (BLOCK_SLOT_SIZE as u64) == 0 && bmo as u64 / (BLOCK_SLOT_SIZE as u64)
            == n as u64) {
            proof {
                if open_ok(file.0@) {
                    assert(bmo == (n as int) * (BLOCK_SLOT_SIZE as int));
                    assert(false);
                }
            }
            return Err(Error::CorruptTable);
        }
        assert(bmo == (n as int) * (BLOCK_SLOT_SIZE as int));
        Ok(SsTable { file, block_metas: metas, block_meta_offset: bmo })
    }

    /// Reads and decodes block `block_idx` from the file: the bytes from the
    /// block's slot start to its recorded end offset. Fails with `IoError`
    /// when that range is malformed and `CorruptBlock` when the bytes do not
    /// form a valid block image; on a sound table it always succeeds.
    pub fn read_block(&self, block_idx: usize) -> (r: Result<Arc<Block>, Error>)
        requires
            self.wf(),
            block_idx < self.spec_num_blocks(),
        ensures
            r is Ok <==> (Self::slot_start(block_idx as int) <= self.meta_off(block_idx as int)
                <= self.file.0@.len() && block_bytes_valid(self.slot_bytes(block_idx as int))),
            r matches Ok(b) ==> {
                &&& b.wf()
                &&& b.data@ == decoded_data(self.slot_bytes(block_idx as int))
                &&& b.offsets@ == decoded_offsets(self.slot_bytes(block_idx as int))
                &&& b.entries() == self.block_entries(block_idx as int)
            },
            self.block_sound(block_idx as int) ==> r is Ok,
            r matches Err(e) ==> e == Error::IoError || e == Error::CorruptBlock,
    {
        proof {
            assert((block_idx as int) * (BLOCK_SLOT_SIZE as int) < (self.spec_num_blocks())
                * (BLOCK_SLOT_SIZE as int)) by (nonlinear_arith)
                requires
                    block_idx < self.spec_num_blocks(),
                    BLOCK_SLOT_SIZE > 0,
            ;
        }
        let start: u32 = (block_idx as u32) * (BLOCK_SLOT_SIZE as u32);
        let end: u32 = vstd::std_specs::vec::vec_index(&self.block_metas, block_idx).offset;
        if end < start {
            return Err(Error::IoError);
        }
        let data = match self.file.read(start as u64, (end - start) as u64) {
            Ok(d) => d,
            Err(_) => {
                return Err(Error::IoError);
            },
        };
        proof {
            if self.block_sound(block_idx as int) {
                assert((block_idx as int + 1) * (BLOCK_SLOT_SIZE as int) <= self.spec_num_blocks()
                    * (BLOCK_SLOT_SIZE as int)) by (nonlinear_arith)
                    requires
                        block_idx as int + 1 <= self.spec_num_blocks(),
                        BLOCK_SLOT_SIZE > 0,
                ;
            }
        }
        match Block::decode(data.as_slice()) {
            Ok(b) => {
                proof {
                    assert(b.entries() =~~= self.block_entries(block_idx as int));
                }
                Ok(Arc::new(b))
            },
            Err(_) => Err(Error::CorruptBlock),
        }
    }

    /// First key of block `i`, as a borrowed slice.
    pub(crate) fn first_key_slice(&self, i: usize) -> (r: &[u8])
        requires
            i < self.spec_num_blocks(),
        ensures
            r@ == self.first_key(i as int),
    {
        vstd::std_specs::vec::vec_index(&self.block_metas, i).first_key.as_slice()
    }

    /// The shared search primitive of the table level: the index of the
    /// first block whose first key exceeds `key`, or the block count when
    /// none does.
    pub(crate) fn meta_upper_bound(&self, key: &[u8]) -> (r: usize)
        requires
            self.first_keys_sorted(),
        ensures
            r <= self.spec_num_blocks(),
            forall|i: int| 0 <= i < r ==> lex_le(#[trigger] self.first_key(i), key@),
            r < self.spec_num_blocks() ==> lex_lt(key@, self.first_key(r as int)),
    {
        let n: usize = self.block_metas.len();
        let mut low: usize = 0;
        let mut high: usize = n;
        while low < high
            invariant
                low <= high <= n,
                n == self.spec_num_blocks(),
                self.first_keys_sorted(),
                forall|i: int| 0 <= i < low ==> lex_le(#[trigger] self.first_key(i), key@),
                forall|i: int| high <= i < n ==> lex_lt(key@, #[trigger] self.first_key(i)),
            decreases high - low,
        {
            let mid: usize = low + (high - low) / 2;
            let fk = self.first_key_slice(mid);
            if crate::order::bytes_lt(key, fk) {
                proof {
                    assert forall|i: int| mid <= i < n implies lex_lt(
                        key@,
                        #[trigger] self.first_key(i),
                    ) by {
                        if i > mid {
                            crate::order::lemma_lex_lt_trans(
                                key@,
                                self.first_key(mid as int),
                                self.first_key(i),
                            );
                        }
                    }
                }
                high = mid;
            } else {
                proof {
                    crate::order::lemma_lex_trichotomy(key@, self.first_key(mid as int));
                    assert forall|i: int| 0 <= i < mid + 1 implies lex_le(
                        #[trigger] self.first_key(i),
                        key@,
                    ) by {
                        if i < mid {
                            crate::order::lemma_lex_lt_le_trans(
                                self.first_key(i),
                                self.first_key(mid as int),
                                key@,
                            );
                        }
                    }
                }
                low = mid + 1;
            }
        }
        low
    }

    /// The index of the unique block that may contain `key`: the last block
    /// whose first key is at most `key`, or block zero when `key` precedes
    /// every first key.
    pub fn find_block_idx(&self, key: &[u8]) -> (r: usize)
        requires
            self.first_keys_sorted(),
            self.spec_num_blocks() >= 1,
        ensures
            r < self.spec_num_blocks(),
            (r == 0 && lex_lt(key@, self.first_key(0))) || (lex_le(self.first_key(r as int), key@)
                && (r as int + 1 == self.spec_num_blocks() || lex_lt(
                key@,
                self.first_key(r as int + 1),
            ))),
    {
        let j = self.meta_upper_bound(key);
        if j == 0 {
            0
        } else {
            j - 1
        }
    }

    /// Number of data blocks.
    pub fn num_of_blocks(&self) -> (r: usize)
        ensures
            r == self.spec_num_blocks(),
    {
        self.block_metas.len()
    }
}

/// A shorter block prefix of the scan is a prefix of a longer one.
pub proof fn lemma_upto_prefix(tbl: SsTable, m1: int, m2: int)
    requires
        0 <= m1 <= m2,
    ensures
        tbl.base(m1) <= tbl.base(m2),
        forall|p: int|
            0 <= p < tbl.base(m1) ==> #[trigger] tbl.entries_upto(m2)[p] == tbl.entries_upto(
                m1,
            )[p],
    decreases m2 - m1,
{
    if m2 > m1 {
        lemma_upto_prefix(tbl, m1, m2 - 1);
    }
}

/// Entry `j` of block `bi` sits at absolute scan position `base(bi) + j`.
pub proof fn lemma_entries_at(tbl: SsTable, bi: int, j: int)
    requires
        0 <= bi < tbl.spec_num_blocks(),
        0 <= j < tbl.block_entries(bi).len(),
    ensures
        tbl.base(bi) + j < tbl.entries().len(),
        tbl.entries()[tbl.base(bi) + j] == tbl.block_entries(bi)[j],
{
    assert(tbl.entries_upto(bi + 1) == tbl.entries_upto(bi) + tbl.block_entries(bi));
    assert(tbl.entries_upto(bi + 1)[tbl.base(bi) + j] == tbl.block_entries(bi)[j]);
    lemma_upto_prefix(tbl, bi + 1, tbl.spec_num_blocks());
}

/// In a sound table the keys of the first `m` blocks ascend strictly, and all
/// precede the first key of block `m`.
proof fn lemma_table_sorted_upto(tbl: SsTable, m: int)
    requires
        tbl.sound(),
        0 <= m <= tbl.spec_num_blocks(),
    ensures
        forall|p: int, q: int|
            0 <= p < q < tbl.base(m) ==> lex_lt(
                (#[trigger] tbl.entries_upto(m)[p]).0,
                (#[trigger] tbl.entries_upto(m)[q]).0,
            ),
        m < tbl.spec_num_blocks() ==> forall|p: int|
            0 <= p < tbl.base(m) ==> lex_lt(
                (#[trigger] tbl.entries_upto(m)[p]).0,
                tbl.first_key(m),
            ),
    decreases m,
{
    if m > 0 {
        lemma_table_sorted_upto(tbl, m - 1);
        let prev = tbl.entries_upto(m - 1);
        let blk = tbl.block_entries(m - 1);
        let cur = tbl.entries_upto(m);
        assert(cur == prev + blk);
        assert(tbl.block_sound(m - 1));
        assert(tbl.first_key(m - 1) == blk[0].0);
        // keys inside block m-1 are at least its first key
        assert forall|j: int| 0 <= j < blk.len() implies lex_le(tbl.first_key(m - 1), blk[j].0) by {
            crate::order::lemma_lex_trichotomy(tbl.first_key(m - 1), blk[j].0);
        }
        assert forall|p: int, q: int| 0 <= p < q < tbl.base(m) implies lex_lt(
            (#[trigger] cur[p]).0,
            (#[trigger] cur[q]).0,
        ) by {
            let b1 = tbl.base(m - 1);
            if q < b1 {
                assert(cur[p] == prev[p] && cur[q] == prev[q]);
            } else if p >= b1 {
                assert(cur[p] == blk[p - b1] && cur[q] == blk[q - b1]);
            } else {
                assert(cur[p] == prev[p] && cur[q] == blk[q - b1]);
                assert(lex_lt(prev[p].0, tbl.first_key(m - 1)));
                crate::order::lemma_lex_lt_le_trans(
                    prev[p].0,
                    tbl.first_key(m - 1),
                    blk[q - b1].0,
                );
            }
        }
        if m < tbl.spec_num_blocks() {
            assert(lex_lt(blk.last().0, tbl.first_key(m)));
            assert forall|p: int| 0 <= p < tbl.base(m) implies lex_lt(
                (#[trigger] cur[p]).0,
                tbl.first_key(m),
            ) by {
                let b1 = tbl.base(m - 1);
                if p >= b1 {
                    assert(cur[p] == blk[p - b1]);
                    if p - b1 < blk.len() - 1 {
                        assert(lex_lt(blk[p - b1].0, blk[blk.len() - 1].0));
                        crate::order::lemma_lex_lt_trans(
                            blk[p - b1].0,
                            blk.last().0,
                            tbl.first_key(m),
                        );
                    }
                } else {
                    assert(cur[p] == prev[p]);
                    assert(lex_lt(prev[p].0, tbl.first_key(m - 1)));
                    assert(lex_le(tbl.first_key(m - 1), blk.last().0));
                    crate::order::lemma_lex_lt_le_trans(
                        prev[p].0,
                        tbl.first_key(m - 1),
                        blk.last().0,
                    );
                    crate::order::lemma_lex_lt_trans(prev[p].0, blk.last().0, tbl.first_key(m));
                }
            }
        }
    }
}

/// In a sound table a full forward scan observes strictly ascending keys.
pub proof fn lemma_table_sorted(tbl: SsTable)
    requires
        tbl.sound(),
    ensures
        forall|p: int, q: int|
            0 <= p < q < tbl.entries().len() ==> lex_lt(
                (#[trigger] tbl.entries()[p]).0,
                (#[trigger] tbl.entries()[q]).0,
            ),
{
    lemma_table_sorted_upto(tbl, tbl.spec_num_blocks());
}

/// In a sound table the meta index's first keys ascend strictly.
pub proof fn lemma_first_keys_sorted(tbl: SsTable)
    requires
        tbl.sound(),
    ensures
        tbl.first_keys_sorted(),
{
    lemma_table_sorted(tbl);
    assert forall|i: int, j: int| 0 <= i < j < tbl.spec_num_blocks() implies lex_lt(
        #[trigger] tbl.first_key(i),
        #[trigger] tbl.first_key(j),
    ) by {
        assert(tbl.block_sound(i));
        assert(tbl.block_sound(j));
        lemma_entries_at(tbl, i, 0);
        lemma_entries_at(tbl, j, 0);
        lemma_upto_prefix(tbl, i + 1, j);
        assert(tbl.base(i) < tbl.base(i + 1));
        assert(tbl.base(i) < tbl.base(j));
        assert(tbl.entries()[tbl.base(i)].0 == tbl.first_key(i));
        assert(tbl.entries()[tbl.base(j)].0 == tbl.first_key(j));
    }
}

} // verus!
