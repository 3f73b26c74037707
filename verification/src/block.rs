//! A block is the smallest unit of read and caching in the LSM tree: a packed
//! run of sorted key-value entries with an entry-offset index.
//!
//! Encoded layout, all integers big-endian:
//!
//! ```text
//! | Entry 0 | ... | Entry N-1 | offset N-1 (u16) | ... | offset 0 (u16) | N (u16) |
//! ```
//!
//! Each entry is `u16 key_len | key | u16 val_len | val`. Note the offset
//! section stores the offsets in reverse of insertion order.

use vstd::prelude::*;

use crate::endian::{be16, push_bytes, push_u16_be, read_u16_be, u16_bytes};
use crate::order::{lex_lt, lex_le};
use crate::Error;

verus! {

broadcast use vstd::slice::group_slice_axioms;

/// The key length stored at entry offset `off` of a data region.
pub open spec fn entry_klen(data: Seq<u8>, off: int) -> int {
    be16(data[off], data[off + 1])
}

/// The value length stored at entry offset `off` of a data region.
pub open spec fn entry_vlen(data: Seq<u8>, off: int) -> int {
    be16(data[off + 2 + entry_klen(data, off)], data[off + 3 + entry_klen(data, off)])
}

/// The encoded size of the entry at offset `off`: two length fields plus the
/// key and value bytes.
pub open spec fn entry_size(data: Seq<u8>, off: int) -> int {
    4 + entry_klen(data, off) + entry_vlen(data, off)
}

/// The entry at offset `off` lies entirely within the data region.
pub open spec fn entry_ok(data: Seq<u8>, off: int) -> bool {
    &&& 0 <= off
    &&& off + 2 <= data.len()
    &&& off + 4 + entry_klen(data, off) <= data.len()
    &&& off + entry_size(data, off) <= data.len()
}

/// The key of the entry at offset `off`.
pub open spec fn entry_key(data: Seq<u8>, off: int) -> Seq<u8> {
    data.subrange(off + 2, off + 2 + entry_klen(data, off))
}

/// The value of the entry at offset `off`.
pub open spec fn entry_value(data: Seq<u8>, off: int) -> Seq<u8> {
    data.subrange(
        off + 4 + entry_klen(data, off),
        off + 4 + entry_klen(data, off) + entry_vlen(data, off),
    )
}

/// Well-formedness of a block's data region and offset index: the offsets
/// start at zero, tile the data region with back-to-back entries, and the
/// entry count fits the 16-bit count field.
pub open spec fn block_wf(data: Seq<u8>, offsets: Seq<u16>) -> bool {
    &&& offsets.len() <= 0xFFFF
    &&& (offsets.len() == 0 ==> data.len() == 0)
    &&& (offsets.len() > 0 ==> offsets[0] == 0)
    &&& (forall|i: int|
        #![auto]
        0 <= i < offsets.len() ==> entry_ok(data, offsets[i] as int))
    &&& (forall|i: int|
        #![auto]
        0 <= i && i + 1 < offsets.len() ==> offsets[i + 1] == offsets[i]
            + entry_size(data, offsets[i] as int))
    &&& (offsets.len() > 0 ==> offsets[offsets.len() - 1] + entry_size(
        data,
        offsets[offsets.len() - 1] as int,
    ) == data.len())
}

/// The offset section of a block image: the offsets in reverse of insertion
/// order, each as two big-endian bytes.
pub open spec fn offsets_rev_bytes(s: Seq<u16>) -> Seq<u8>
    decreases s.len(),
{
    if s.len() == 0 {
        Seq::empty()
    } else {
        u16_bytes(s.last()) + offsets_rev_bytes(s.drop_last())
    }
}

/// The byte of the offset section at position `j`: offsets appear in reverse
/// order, so byte pair `j / 2` belongs to offset `s.len() - 1 - j / 2`.
pub open spec fn rb_byte(s: Seq<u16>, j: int) -> u8 {
    let k = s.len() - 1 - j / 2;
    if j % 2 == 0 {
        u16_bytes(s[k])[0]
    } else {
        u16_bytes(s[k])[1]
    }
}

/// The full encoded image of a block: data region, reversed offset section,
/// entry count.
pub open spec fn block_encoding(data: Seq<u8>, offsets: Seq<u16>) -> Seq<u8> {
    data + offsets_rev_bytes(offsets) + u16_bytes(offsets.len() as u16)
}

/// Prepending an offset to the index appends its bytes to the offset section.
proof fn lemma_rb_push_front(x: u16, s: Seq<u16>)
    ensures
        offsets_rev_bytes(seq![x] + s) == offsets_rev_bytes(s) + u16_bytes(x),
    decreases s.len(),
{
    let t = seq![x] + s;
    assert(t.len() == s.len() + 1);
    if s.len() == 0 {
        assert(t.last() == x);
        assert(t.drop_last() =~= Seq::<u16>::empty());
        assert(offsets_rev_bytes(t) == u16_bytes(x) + offsets_rev_bytes(t.drop_last()));
        assert(offsets_rev_bytes(t.drop_last()) =~= Seq::<u8>::empty());
        assert(offsets_rev_bytes(s) =~= Seq::<u8>::empty());
        assert(u16_bytes(x) + Seq::<u8>::empty() =~= Seq::<u8>::empty() + u16_bytes(x));
    } else {
        assert(t.last() == s.last());
        assert(t.drop_last() =~= seq![x] + s.drop_last());
        lemma_rb_push_front(x, s.drop_last());
        assert(offsets_rev_bytes(t) == u16_bytes(s.last()) + offsets_rev_bytes(t.drop_last()));
        assert(offsets_rev_bytes(t.drop_last()) == offsets_rev_bytes(s.drop_last()) + u16_bytes(
            x,
        ));
        assert(offsets_rev_bytes(s) == u16_bytes(s.last()) + offsets_rev_bytes(s.drop_last()));
        assert(u16_bytes(s.last()) + (offsets_rev_bytes(s.drop_last()) + u16_bytes(x)) =~= (
        u16_bytes(s.last()) + offsets_rev_bytes(s.drop_last())) + u16_bytes(x));
    }
}

/// Pointwise characterization of the offset section.
pub proof fn lemma_rb_index(s: Seq<u16>)
    ensures
        offsets_rev_bytes(s).len() == 2 * s.len(),
        forall|j: int| 0 <= j < 2 * s.len() ==> #[trigger] offsets_rev_bytes(s)[j] == rb_byte(s, j),
    decreases s.len(),
{
    if s.len() > 0 {
        lemma_rb_index(s.drop_last());
        let dl = s.drop_last();
        assert forall|j: int| 0 <= j < 2 * s.len() implies #[trigger] offsets_rev_bytes(s)[j]
            == rb_byte(s, j) by {
            if j >= 2 {
                assert(offsets_rev_bytes(s)[j] == offsets_rev_bytes(dl)[j - 2]);
                assert(offsets_rev_bytes(dl)[j - 2] == rb_byte(dl, j - 2));
                assert((j - 2) / 2 == j / 2 - 1);
                assert((j - 2) % 2 == j % 2);
                assert(dl[dl.len() - 1 - (j - 2) / 2] == s[s.len() - 1 - j / 2]);
            }
        }
    }
}

/// The entry count claimed by a block image: its last two bytes, big-endian.
pub open spec fn decoded_count(bytes: Seq<u8>) -> int {
    be16(bytes[bytes.len() - 2], bytes[bytes.len() - 1])
}

/// The length of the data region of a block image.
pub open spec fn decoded_data_len(bytes: Seq<u8>) -> int {
    bytes.len() - 2 - 2 * decoded_count(bytes)
}

/// The data region of a block image.
pub open spec fn decoded_data(bytes: Seq<u8>) -> Seq<u8> {
    bytes.take(decoded_data_len(bytes))
}

/// The offset of entry `i` as stored in a block image. The offset section is
/// reversed, so entry `i` in insertion order sits `2 * i + 4` bytes before the
/// end.
pub open spec fn decoded_offset(bytes: Seq<u8>, i: int) -> u16 {
    be16(bytes[bytes.len() - 4 - 2 * i], bytes[bytes.len() - 3 - 2 * i]) as u16
}

/// The offset index of a block image, in insertion order.
pub open spec fn decoded_offsets(bytes: Seq<u8>) -> Seq<u16> {
    Seq::new(decoded_count(bytes) as nat, |i: int| decoded_offset(bytes, i))
}

/// The key-value pairs carried by a block image.
pub open spec fn image_entries(bytes: Seq<u8>) -> Seq<(Seq<u8>, Seq<u8>)> {
    let dd = decoded_data(bytes);
    let doffs = decoded_offsets(bytes);
    Seq::new(
        doffs.len(),
        |j: int| (entry_key(dd, doffs[j] as int), entry_value(dd, doffs[j] as int)),
    )
}

/// A byte string is a valid block image: it is long enough for the count and
/// offset section it claims, and the data and offsets it carries satisfy the
/// block invariant.
pub open spec fn block_bytes_valid(bytes: Seq<u8>) -> bool {
    &&& bytes.len() >= 2
    &&& 2 + 2 * decoded_count(bytes) <= bytes.len()
    &&& block_wf(decoded_data(bytes), decoded_offsets(bytes))
}

/// Validates the entry at offset `cur` of a data region and returns the
/// offset just past it, or `None` when the entry overruns the region.
fn check_entry(dd: &Vec<u8>, cur: usize) -> (r: Option<usize>)
    requires
        cur <= dd@.len(),
    ensures
        r matches Some(next) ==> entry_ok(dd@, cur as int) && next == cur + entry_size(
            dd@,
            cur as int,
        ) && next <= dd@.len(),
        r is None ==> !entry_ok(dd@, cur as int),
{
    let dlen: usize = dd.len();
    if dlen - cur < 2 {
        return None;
    }
    let klen: usize = read_u16_be(dd.as_slice(), cur) as usize;
    if klen + 2 > dlen - cur - 2 {
        return None;
    }
    let vlen: usize = read_u16_be(dd.as_slice(), cur + 2 + klen) as usize;
    if vlen > dlen - cur - 4 - klen {
        return None;
    }
    Some(cur + 4 + klen + vlen)
}

/// In a well-formed block the offset of entry `k` equals the running total of
/// the entry sizes before it.
proof fn lemma_wf_offset_is_cum(dd: Seq<u8>, doffs: Seq<u16>, k: int, cur: int)
    requires
        block_wf(dd, doffs),
        0 <= k < doffs.len(),
        k == 0 ==> cur == 0,
        k > 0 ==> cur == doffs[k - 1] + entry_size(dd, doffs[k - 1] as int),
    ensures
        doffs[k] == cur,
        entry_ok(dd, cur),
{
    if k == 0 {
        assert(doffs[0] == 0);
    } else {
        assert(doffs[k] == doffs[k - 1] + entry_size(dd, doffs[k - 1] as int));
    }
    assert(entry_ok(dd, doffs[k] as int));
}

/// A block: the data region holding packed entries, and for each entry the
/// byte offset of its start within the data region, in insertion order.
pub struct Block {
    pub data: Vec<u8>,
    pub offsets: Vec<u16>,
}

impl Block {
    /// The block's structural invariant.
    pub open spec fn wf(&self) -> bool {
        block_wf(self.data@, self.offsets@)
    }

    /// Number of entries.
    pub open spec fn num_entries(&self) -> int {
        self.offsets@.len() as int
    }

    /// The key of entry `i`.
    pub open spec fn key_at(&self, i: int) -> Seq<u8> {
        entry_key(self.data@, self.offsets@[i] as int)
    }

    /// The value of entry `i`.
    pub open spec fn value_at(&self, i: int) -> Seq<u8> {
        entry_value(self.data@, self.offsets@[i] as int)
    }

    /// The block's entries as a sequence of key-value pairs.
    pub open spec fn entries(&self) -> Seq<(Seq<u8>, Seq<u8>)> {
        Seq::new(self.offsets@.len(), |i: int| (self.key_at(i), self.value_at(i)))
    }

    /// All keys are pairwise strictly ascending.
    pub open spec fn keys_sorted(&self) -> bool {
        forall|i: int, j: int|
            0 <= i < j < self.num_entries() ==> lex_lt(#[trigger] self.key_at(i), #[trigger] self.key_at(j))
    }

    /// No key is the empty byte string (an empty key marks an exhausted
    /// cursor, so a stored key must be non-empty to be reachable).
    pub open spec fn keys_nonempty(&self) -> bool {
        forall|i: int| 0 <= i < self.num_entries() ==> (#[trigger] self.key_at(i)).len() > 0
    }

    /// Entry `i` of the pair view carries exactly the key and value at `i`.
    pub proof fn lemma_entry_fields(&self, i: int)
        requires
            0 <= i < self.num_entries(),
        ensures
            self.entries()[i] == (self.key_at(i), self.value_at(i)),
    {
    }

    /// Order and non-emptiness of the pair view transfer to the keys
    /// themselves.
    pub proof fn lemma_keys_from_entries(&self)
        requires
            forall|p: int, q: int|
                0 <= p < q < self.entries().len() ==> lex_lt(
                    (#[trigger] self.entries()[p]).0,
                    (#[trigger] self.entries()[q]).0,
                ),
            forall|p: int|
                0 <= p < self.entries().len() ==> (#[trigger] self.entries()[p]).0.len() > 0,
        ensures
            self.keys_sorted(),
            self.keys_nonempty(),
    {
        assert forall|p: int, q: int| 0 <= p < q < self.num_entries() implies lex_lt(
            #[trigger] self.key_at(p),
            #[trigger] self.key_at(q),
        ) by {
            self.lemma_entry_fields(p);
            self.lemma_entry_fields(q);
        }
        assert forall|p: int| 0 <= p < self.num_entries() implies (
        #[trigger] self.key_at(p)).len() > 0 by {
            self.lemma_entry_fields(p);
        }
    }

    /// Encodes the block: data region, then the offsets in reverse order as
    /// 16-bit big-endian integers, then the 16-bit entry count.
    pub fn encode(&self) -> (r: Vec<u8>)
        requires
            self.offsets@.len() <= 0xFFFF,
        ensures
            r@ == block_encoding(self.data@, self.offsets@),
    {
        let mut bytes: Vec<u8> = Vec::new();
        push_bytes(&mut bytes, self.data.as_slice());
        let n: usize = self.offsets.len();
        assert(bytes@ =~= self.data@ + offsets_rev_bytes(self.offsets@.skip(n as int)));
        let mut i: usize = 0;
        while i < n
            invariant
                i <= n,
                n == self.offsets@.len(),
                bytes@ == self.data@ + offsets_rev_bytes(self.offsets@.skip(n - i)),
            decreases n - i,
        {
            let ghost prev = bytes@;
            let off: u16 = self.offsets[n - 1 - i];
            push_u16_be(&mut bytes, off);
            proof {
                let s = self.offsets@;
                assert(s.skip(n - i - 1) =~= seq![s[n - 1 - i]] + s.skip(n - i));
                lemma_rb_push_front(s[n - 1 - i], s.skip(n - i));
                assert(prev + u16_bytes(off) =~= self.data@ + offsets_rev_bytes(
                    s.skip(n - i - 1),
                ));
            }
            i = i + 1;
        }
        let ghost before_count = bytes@;
        push_u16_be(&mut bytes, n as u16);
        proof {
            assert(self.offsets@.skip(0) =~= self.offsets@);
            assert(before_count + u16_bytes(n as u16) =~= block_encoding(
                self.data@,
                self.offsets@,
            ));
        }
        bytes
    }

    /// The key of entry `i`, as a borrowed slice of the data region.
    pub fn key_slice(&self, i: usize) -> (r: &[u8])
        requires
            self.wf(),
            i < self.num_entries(),
        ensures
            r@ == self.key_at(i as int),
    {
        let off: usize = *vstd::std_specs::vec::vec_index(&self.offsets, i) as usize;
        assert(entry_ok(self.data@, off as int));
        let klen: usize = read_u16_be(self.data.as_slice(), off) as usize;
        vstd::slice::slice_subrange(self.data.as_slice(), off + 2, off + 2 + klen)
    }

    /// The key and value of entry `i`, copied out of the data region.
    pub fn read_entry(&self, i: usize) -> (r: (Vec<u8>, Vec<u8>))
        requires
            self.wf(),
            i < self.num_entries(),
        ensures
            r.0@ == self.key_at(i as int),
            r.1@ == self.value_at(i as int),
    {
        let off: usize = *vstd::std_specs::vec::vec_index(&self.offsets, i) as usize;
        assert(entry_ok(self.data@, off as int));
        let klen: usize = read_u16_be(self.data.as_slice(), off) as usize;
        let key = vstd::slice::slice_to_vec(
            vstd::slice::slice_subrange(self.data.as_slice(), off + 2, off + 2 + klen),
        );
        let vlen: usize = read_u16_be(self.data.as_slice(), off + 2 + klen) as usize;
        let value = vstd::slice::slice_to_vec(
            vstd::slice::slice_subrange(
                self.data.as_slice(),
                off + 4 + klen,
                off + 4 + klen + vlen,
            ),
        );
        (key, value)
    }

    /// The shared search primitive of both seek paths: the index of the first
    /// entry whose key is at least `key`, or the entry count when every key is
    /// smaller.
    pub fn lower_bound(&self, key: &[u8]) -> (r: usize)
        requires
            self.wf(),
            self.keys_sorted(),
        ensures
            r <= self.num_entries(),
            forall|j: int| 0 <= j < r ==> lex_lt(#[trigger] self.key_at(j), key@),
            r < self.num_entries() ==> lex_le(key@, self.key_at(r as int)),
    {
        let n: usize = self.offsets.len();
        let mut low: usize = 0;
        let mut high: usize = n;
        while low < high
            invariant
                low <= high <= n,
                n == self.num_entries(),
                self.wf(),
                self.keys_sorted(),
                forall|j: int| 0 <= j < low ==> lex_lt(#[trigger] self.key_at(j), key@),
                forall|j: int| high <= j < n ==> lex_le(key@, #[trigger] self.key_at(j)),
            decreases high - low,
        {
            let mid: usize = low + (high - low) / 2;
            let mid_key = self.key_slice(mid);
            if crate::order::bytes_lt(mid_key, key) {
                proof {
                    assert forall|j: int| 0 <= j < mid + 1 implies lex_lt(
                        #[trigger] self.key_at(j),
                        key@,
                    ) by {
                        if j < mid {
                            crate::order::lemma_lex_lt_trans(
                                self.key_at(j),
                                self.key_at(mid as int),
                                key@,
                            );
                        }
                    }
                }
                low = mid + 1;
            } else {
                proof {
                    crate::order::lemma_lex_trichotomy(self.key_at(mid as int), key@);
                    assert forall|j: int| mid <= j < n implies lex_le(
                        key@,
                        #[trigger] self.key_at(j),
                    ) by {
                        if j > mid {
                            crate::order::lemma_lex_le_lt_trans(
                                key@,
                                self.key_at(mid as int),
                                self.key_at(j),
                            );
                        }
                    }
                }
                high = mid;
            }
        }
        low
    }

    /// Decodes a block image, validating it completely: the result is `Ok`
    /// exactly when the bytes form a valid block image, and then carries the
    /// data region and offset index the image holds.
    #[verifier::rlimit(100)]
    pub fn decode(data: &[u8]) -> (r: Result<Block, Error>)
        ensures
            r is Ok <==> block_bytes_valid(data@),
            r matches Ok(b) ==> b.wf() && b.data@ == decoded_data(data@) && b.offsets@
                == decoded_offsets(data@),
            r matches Err(e) ==> e == Error::CorruptBlock,
    {
        let size: usize = data.len();
        if size < 2 {
            return Err(Error::CorruptBlock);
        }
        let n: usize = read_u16_be(data, size - 2) as usize;
        assert(n == decoded_count(data@));
        if (size - 2) / 2 < n {
            return Err(Error::CorruptBlock);
        }
        let dlen: usize = size - 2 - 2 * n;
        assert(dlen == decoded_data_len(data@));
        let mut offsets: Vec<u16> = Vec::new();
        let mut i: usize = 0;
        while i < n
            invariant
                i <= n,
                size == data@.len(),
                size >= 2 + 2 * n,
                n == decoded_count(data@),
                offsets@.len() == i,
                forall|j: int| 0 <= j < i ==> offsets@[j] == decoded_offset(data@, j),
            decreases n - i,
        {
            let off = read_u16_be(data, size - 4 - 2 * i);
            offsets.push(off);
            i = i + 1;
        }
        assert(offsets@ =~= decoded_offsets(data@));
        let block_data = vstd::slice::slice_to_vec(vstd::slice::slice_subrange(data, 0, dlen));
        assert(block_data@ =~= decoded_data(data@));
        let ghost dd = decoded_data(data@);
        let ghost doffs = decoded_offsets(data@);
        let mut cur: usize = 0;
        let mut k: usize = 0;
        while k < n
            invariant
                k <= n,
                offsets@.len() == n,
                offsets@ == doffs,
                block_data@ == dd,
                dd == decoded_data(data@),
                doffs == decoded_offsets(data@),
                size == data@.len(),
                size >= 2 + 2 * n,
                n == decoded_count(data@),
                dlen == dd.len(),
                cur <= dlen,
                n <= 0xFFFF,
                k > 0 ==> offsets@[0] == 0,
                forall|j: int| #![auto] 0 <= j < k ==> entry_ok(dd, offsets@[j] as int),
                forall|j: int|
                    #![auto]
                    0 <= j && j + 1 < k ==> offsets@[j + 1] == offsets@[j] + entry_size(
                        dd,
                        offsets@[j] as int,
                    ),
                k > 0 ==> cur == offsets@[k - 1] + entry_size(dd, offsets@[k - 1] as int),
                k == 0 ==> cur == 0,
            decreases n - k,
        {
            let off = offsets[k];
            if off as usize != cur {
                proof {
                    if block_bytes_valid(data@) {
                        lemma_wf_offset_is_cum(dd, doffs, k as int, cur as int);
                        assert(false);
                    }
                }
                return Err(Error::CorruptBlock);
            }
            match check_entry(&block_data, cur) {
                Some(next) => {
                    cur = next;
                },
                None => {
                    proof {
                        if block_bytes_valid(data@) {
                            lemma_wf_offset_is_cum(dd, doffs, k as int, cur as int);
                            assert(false);
                        }
                    }
                    return Err(Error::CorruptBlock);
                },
            }
            k = k + 1;
        }
        if cur != dlen {
            proof {
                if block_bytes_valid(data@) {
                    assert(block_wf(dd, doffs));
                    if n > 0 {
                        assert(doffs[n - 1] + entry_size(dd, doffs[n - 1] as int) == dd.len());
                    }
                    assert(false);
                }
            }
            return Err(Error::CorruptBlock);
        }
        assert(block_wf(dd, doffs));
        Ok(Block { data: block_data, offsets })
    }
}

/// Offset `i` read back from an encoded image equals the offset it was
/// written from.
proof fn lemma_enc_offset_at(data: Seq<u8>, offsets: Seq<u16>, i: int)
    requires
        offsets.len() <= 0xFFFF,
        0 <= i < offsets.len(),
    ensures
        decoded_offset(block_encoding(data, offsets), i) == offsets[i],
{
    let enc = block_encoding(data, offsets);
    let n = offsets.len() as int;
    let dlen = data.len() as int;
    lemma_rb_index(offsets);
    assert(enc.len() == dlen + 2 * n + 2);
    let j = 2 * (n - 1 - i);
    assert(enc.len() - 4 - 2 * i == dlen + j);
    assert(enc[dlen + j] == offsets_rev_bytes(offsets)[j]);
    assert(enc[dlen + j + 1] == offsets_rev_bytes(offsets)[j + 1]);
    assert(offsets_rev_bytes(offsets)[j] == rb_byte(offsets, j));
    assert(offsets_rev_bytes(offsets)[j + 1] == rb_byte(offsets, j + 1));
    assert(j / 2 == n - 1 - i);
    assert((j + 1) / 2 == n - 1 - i);
    assert(j % 2 == 0 && (j + 1) % 2 == 1);
    assert(rb_byte(offsets, j) == u16_bytes(offsets[i])[0]);
    assert(rb_byte(offsets, j + 1) == u16_bytes(offsets[i])[1]);
    crate::endian::lemma_u16_bytes_roundtrip(offsets[i]);
}

/// A valid block's encoded image decodes back to the same data region and
/// offset index, byte for byte and element for element.
#[verifier::rlimit(50)]
pub proof fn lemma_block_round_trip(data: Seq<u8>, offsets: Seq<u16>)
    requires
        block_wf(data, offsets),
    ensures
        block_bytes_valid(block_encoding(data, offsets)),
        decoded_data(block_encoding(data, offsets)) == data,
        decoded_offsets(block_encoding(data, offsets)) == offsets,
{
    let enc = block_encoding(data, offsets);
    let n = offsets.len() as int;
    let dlen = data.len() as int;
    lemma_rb_index(offsets);
    assert(enc.len() == dlen + 2 * n + 2);
    assert(enc[enc.len() - 2] == u16_bytes(n as u16)[0]);
    assert(enc[enc.len() - 1] == u16_bytes(n as u16)[1]);
    crate::endian::lemma_u16_bytes_roundtrip(n as u16);
    assert(decoded_count(enc) == n);
    assert(decoded_data_len(enc) == dlen);
    assert forall|j: int| 0 <= j < dlen implies enc[j] == data[j] by {}
    assert(decoded_data(enc) =~= data);
    assert forall|i: int| 0 <= i < n implies decoded_offsets(enc)[i] == offsets[i] by {
        lemma_enc_offset_at(data, offsets, i);
    }
    assert(decoded_offsets(enc) =~= offsets);
}

} // verus!
