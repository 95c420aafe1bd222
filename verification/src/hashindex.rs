//! A hash-table based substring index over the old buffer.
//!
//! The old text is cut into `block_size`-byte aligned blocks; each block's
//! 64-bit hash selects a bucket of eight packed entries. An entry packs the
//! upper 32 hash bits (a tag that filters probes) with the block's offset
//! plus one, so that an all-zero slot unambiguously means "empty". Queries
//! hash the needle's first block, scan a few buckets, verify a candidate
//! block byte for byte, and extend the match forward.

use vstd::prelude::*;

use crate::bytes::common_prefix;
use crate::bytes::common_prefix_len;
use crate::bytes::lemma_common_prefix_spec;
use crate::bytes::slice_eq_range;

verus! {

/// Default block size for hashing.
pub const DEFAULT_BLOCK_SIZE: usize = 32;

/// An all-zero slot is empty; freshly allocated tables need no further
/// initialisation.
const EMPTY: u64 = 0;

/// Entries per bucket; one bucket spans a cache line of the table.
const BUCKET_SIZE: usize = 8;

/// Multiplication on `u64` reduced modulo two to the sixty-fourth.
pub open spec fn mul_wrap64(a: u64, b: u64) -> u64 {
    vstd::wrapping::u64_specs::wrapping_mul(a, b)
}

/// FNV-1a over `data`, folded onto the accumulator `h`.
pub open spec fn spec_fnv(data: Seq<u8>, h: u64) -> u64
    decreases data.len(),
{
    if data.len() == 0 {
        h
    } else {
        spec_fnv(data.drop_first(), mul_wrap64(h ^ (data[0] as u64), 0x100000001b3))
    }
}

/// Fold the 128-bit product of `a` and `b` into 64 bits by xoring its halves.
pub open spec fn spec_wymix(a: u64, b: u64) -> u64 {
    let p = a as nat * b as nat;
    (((p % 0x1_0000_0000_0000_0000) as u64) ^ ((p / 0x1_0000_0000_0000_0000) as u64))
}

/// The block hash: a wyhash-style mix of four little-endian words for inputs
/// of at least 32 bytes, FNV-1a otherwise.
pub open spec fn spec_hash_block(data: Seq<u8>) -> u64 {
    if data.len() < 32 {
        spec_fnv(data, 0xcbf29ce484222325)
    } else {
        let a = vstd::bytes::spec_u64_from_le_bytes(data.subrange(0, 8));
        let b = vstd::bytes::spec_u64_from_le_bytes(data.subrange(8, 16));
        let c = vstd::bytes::spec_u64_from_le_bytes(data.subrange(16, 24));
        let d = vstd::bytes::spec_u64_from_le_bytes(data.subrange(24, 32));
        spec_wymix(a ^ 0xa0761d6478bd642f, b ^ 0xe7037ed1a0b428db) ^ spec_wymix(
            c ^ 0x8ebc6af09c88c6e3,
            d ^ 0x1d8e4e27c47d124f,
        )
    }
}

fn wymix(a: u64, b: u64) -> (r: u64)
    ensures
        r == spec_wymix(a, b),
{
    proof {
        assert((a as nat) * (b as nat) < 0x1_0000_0000_0000_0000_0000_0000_0000_0000)
            by (nonlinear_arith)
            requires
                (a as nat) < 0x1_0000_0000_0000_0000,
                (b as nat) < 0x1_0000_0000_0000_0000,
        ;
    }
    let p: u128 = (a as u128) * (b as u128);
    let low: u64 = (p % 0x1_0000_0000_0000_0000u128) as u64;
    proof {
        assert((p as nat) / 0x1_0000_0000_0000_0000 < 0x1_0000_0000_0000_0000)
            by (nonlinear_arith)
            requires
                (p as nat) < 0x1_0000_0000_0000_0000_0000_0000_0000_0000,
        ;
    }
    let high: u64 = (p / 0x1_0000_0000_0000_0000u128) as u64;
    low ^ high
}

/// wyhash-style hash for a block of bytes, with an FNV-1a fallback for
/// blocks shorter than 32 bytes.
pub fn hash_block(data: &[u8]) -> (r: u64)
    ensures
        r == spec_hash_block(data@),
{
    if data.len() < 32 {
        let mut h: u64 = 0xcbf29ce484222325;
        let n = data.len();
        let mut i: usize = 0;
        proof {
            assert(data@.skip(0) == data@);
        }
        while i < n
            invariant
                0 <= i <= n,
                n == data@.len(),
                spec_fnv(data@, 0xcbf29ce484222325) == spec_fnv(data@.skip(i as int), h),
            decreases n - i,
        {
            proof {
                assert(data@.skip(i as int).drop_first() == data@.skip(i + 1));
                assert(data@.skip(i as int)[0] == data@[i as int]);
            }
            h = h ^ (data[i] as u64);
            h = h.wrapping_mul(0x100000001b3);
            i = i + 1;
        }
        proof {
            assert(data@.skip(i as int).len() == 0);
        }
        h
    } else {
        let a = vstd::bytes::u64_from_le_bytes(vstd::slice::slice_subrange(data, 0, 8));
        let b = vstd::bytes::u64_from_le_bytes(vstd::slice::slice_subrange(data, 8, 16));
        let c = vstd::bytes::u64_from_le_bytes(vstd::slice::slice_subrange(data, 16, 24));
        let d = vstd::bytes::u64_from_le_bytes(vstd::slice::slice_subrange(data, 24, 32));
        wymix(a ^ 0xa0761d6478bd642f, b ^ 0xe7037ed1a0b428db) ^ wymix(
            c ^ 0x8ebc6af09c88c6e3,
            d ^ 0x1d8e4e27c47d124f,
        )
    }
}

/// The offset stored in a packed entry (the low half, minus the bias).
pub open spec fn spec_entry_offset(e: u64) -> nat {
    ((e % 0x1_0000_0000) - 1) as nat
}

/// The tag stored in a packed entry (the high half of the block hash).
pub open spec fn spec_entry_tag(e: u64) -> nat {
    (e / 0x1_0000_0000) as nat
}

/// The packed form of an offset and the upper half of its block's hash.
pub open spec fn spec_pack_entry(offset: nat, h: u64) -> u64 {
    (((h as nat / 0x1_0000_0000) * 0x1_0000_0000) + offset + 1) as u64
}

/// What a packed entry decomposes into, when the offset fits.
pub proof fn lemma_pack_entry_fields(offset: nat, h: u64)
    requires
        offset + 1 < 0x1_0000_0000,
    ensures
        spec_pack_entry(offset, h) != 0,
        spec_pack_entry(offset, h) % 0x1_0000_0000 == offset + 1,
        spec_entry_offset(spec_pack_entry(offset, h)) == offset,
        spec_entry_tag(spec_pack_entry(offset, h)) == h as nat / 0x1_0000_0000,
{
    let q = h as nat / 0x1_0000_0000;
    assert(q < 0x1_0000_0000) by (nonlinear_arith)
        requires
            q == h as nat / 0x1_0000_0000,
            (h as nat) < 0x1_0000_0000_0000_0000,
    ;
    assert(q * 0x1_0000_0000 + (offset + 1) < 0x1_0000_0000_0000_0000) by (nonlinear_arith)
        requires
            q < 0x1_0000_0000,
            offset + 1 < 0x1_0000_0000,
    ;
    assert((q * 0x1_0000_0000 + (offset + 1)) % 0x1_0000_0000 == offset + 1) by (nonlinear_arith)
        requires
            0 < offset + 1 < 0x1_0000_0000,
    ;
    assert((q * 0x1_0000_0000 + (offset + 1)) / 0x1_0000_0000 == q) by (nonlinear_arith)
        requires
            0 < offset + 1 < 0x1_0000_0000,
    ;
}

/// Pack a block offset and the upper 32 bits of its hash into one slot
/// value. The offset is stored plus one so the result is never the empty
/// marker.
fn pack_entry(offset: u32, hash: u64) -> (e: u64)
    requires
        offset < 0xFFFF_FFFFu32,
    ensures
        e != 0,
        e % 0x1_0000_0000 == offset as nat + 1,
        spec_entry_offset(e) == offset as nat,
        spec_entry_tag(e) == (hash / 0x1_0000_0000) as nat,
        e == spec_pack_entry(offset as nat, hash),
{
    let hi: u64 = (hash / 0x1_0000_0000) * 0x1_0000_0000;
    let e: u64 = hi + (offset as u64 + 1);
    proof {
        let q = hash as nat / 0x1_0000_0000;
        assert(q * 0x1_0000_0000 + (offset as nat + 1) == e as nat);
        assert((q * 0x1_0000_0000 + (offset as nat + 1)) % 0x1_0000_0000 == offset as nat + 1)
            by (nonlinear_arith)
            requires
                0 < offset as nat + 1 < 0x1_0000_0000,
        ;
        assert((q * 0x1_0000_0000 + (offset as nat + 1)) / 0x1_0000_0000 == q)
            by (nonlinear_arith)
            requires
                0 < offset as nat + 1 < 0x1_0000_0000,
        ;
        lemma_pack_entry_fields(offset as nat, hash);
    }
    e
}

/// Extract the offset from a non-empty packed entry.
fn entry_offset(entry: u64) -> (r: u32)
    requires
        entry % 0x1_0000_0000 >= 1,
    ensures
        r as nat == spec_entry_offset(entry),
{
    ((entry % 0x1_0000_0000) as u32) - 1
}

/// Extract the 32-bit tag from a packed entry.
fn entry_tag(entry: u64) -> (r: u32)
    ensures
        r as nat == spec_entry_tag(entry),
{
    (entry / 0x1_0000_0000) as u32
}

/// A slot is either empty or stores an offset whose block lies inside the
/// indexed text.
pub open spec fn entry_ok(e: u64, tlen: nat, bs: nat) -> bool {
    e == 0 || (e % 0x1_0000_0000 >= 1 && spec_entry_offset(e) + bs <= tlen)
}

/// A slot is empty or holds the packed entry of some in-bounds block,
/// built from that block's own hash.
pub open spec fn slot_wf(e: u64, text: Seq<u8>, bs: nat) -> bool {
    e == 0 || exists|o: nat|
        o + bs <= text.len() && o + 1 < 0x1_0000_0000 && e == #[trigger] spec_pack_entry(
            o,
            spec_hash_block(text.subrange(o as int, (o + bs) as int)),
        )
}

/// The slot holds an entry whose referenced block equals `b`.
pub open spec fn slot_matches(e: u64, text: Seq<u8>, bs: nat, b: Seq<u8>) -> bool {
    &&& e != 0
    &&& spec_entry_offset(e) + bs <= text.len()
    &&& text.subrange(
        spec_entry_offset(e) as int,
        (spec_entry_offset(e) + bs) as int,
    ) == b
}

/// The bucket reached from `start` after `p` steps, wrapping at `nb`.
pub open spec fn wrap_bucket(start: int, p: int, nb: int) -> int {
    if start + p >= nb {
        start + p - nb
    } else {
        start + p
    }
}

/// The slot visited at step `t` of a probe that starts at bucket `start`.
pub open spec fn probe_slot(nb: int, start: int, t: int) -> int {
    wrap_bucket(start, t / 8, nb) * 8 + t % 8
}

/// Some slot of `t` holds an entry whose referenced block equals `b`.
pub open spec fn block_stored_in(t: Seq<u64>, text: Seq<u8>, bs: nat, b: Seq<u8>) -> bool {
    exists|k: int| 0 <= k < t.len() && slot_matches(#[trigger] t[k], text, bs, b)
}

/// Step `8*p + s` of a probe lands in bucket `p` of the scan, at slot
/// `s`.
proof fn lemma_probe_step(nb: int, start: int, p: int, s: int)
    requires
        0 <= s < 8,
        0 <= p,
    ensures
        probe_slot(nb, start, 8 * p + s) == wrap_bucket(start, p, nb) * 8 + s,
{
    assert((8 * p + s) / 8 == p && (8 * p + s) % 8 == s) by (nonlinear_arith)
        requires
            0 <= s < 8,
            0 <= p,
    ;
}

/// How many slots of the table are occupied.
pub closed spec fn count_nonempty(t: Seq<u64>) -> int
    decreases t.len(),
{
    if t.len() == 0 {
        0
    } else {
        count_nonempty(t.drop_last()) + if t.last() != 0 {
            1int
        } else {
            0int
        }
    }
}

proof fn lemma_count_bounds(t: Seq<u64>)
    ensures
        0 <= count_nonempty(t) <= t.len(),
    decreases t.len(),
{
    if t.len() > 0 {
        lemma_count_bounds(t.drop_last());
    }
}

proof fn lemma_count_update(t: Seq<u64>, k: int, v: u64)
    requires
        0 <= k < t.len(),
        v != 0,
    ensures
        t[k] == 0 ==> count_nonempty(t.update(k, v)) == count_nonempty(t) + 1,
        t[k] != 0 ==> count_nonempty(t.update(k, v)) == count_nonempty(t),
    decreases t.len(),
{
    if k == t.len() - 1 {
        assert(t.update(k, v).drop_last() =~= t.drop_last());
    } else {
        assert(t.update(k, v).drop_last() =~= t.drop_last().update(k, v));
        lemma_count_update(t.drop_last(), k, v);
    }
}

proof fn lemma_count_positive_has_nonempty(t: Seq<u64>)
    requires
        count_nonempty(t) > 0,
    ensures
        exists|k: int| 0 <= k < t.len() && (#[trigger] t[k]) != 0,
    decreases t.len(),
{
    if t.last() != 0 {
        assert(t[t.len() - 1] != 0);
    } else {
        lemma_count_positive_has_nonempty(t.drop_last());
        let k = choose|k: int| 0 <= k < t.drop_last().len() && (#[trigger] t.drop_last()[k]) != 0;
        assert(t[k] != 0);
    }
}

proof fn lemma_count_full(t: Seq<u64>)
    requires
        forall|k: int| 0 <= k < t.len() ==> (#[trigger] t[k]) != 0,
    ensures
        count_nonempty(t) == t.len(),
    decreases t.len(),
{
    if t.len() > 0 {
        assert forall|k: int| 0 <= k < t.drop_last().len() implies (#[trigger] t.drop_last()[k])
            != 0 by {
            assert(t[k] != 0);
        }
        lemma_count_full(t.drop_last());
    }
}

/// A substring of the indexed text, reported by a query.
pub struct LongestCommonSubstring<'a> {
    pub text: &'a [u8],
    pub start: usize,
    pub len: usize,
}

/// What a query promises of its result: the reported range lies in the
/// text, is no longer than the needle, and — when non-empty — equals the
/// needle's prefix of that length.
pub open spec fn lcs_ok(
    text: Seq<u8>,
    needle: Seq<u8>,
    bs: nat,
    start: nat,
    len: nat,
) -> bool {
    &&& start + len <= text.len()
    &&& len <= needle.len()
    &&& (len == 0 ==> start == 0)
    &&& (len > 0 ==> len >= bs && text.subrange(start as int, (start + len) as int) == needle.take(
        len as int,
    ))
}

impl<'a> LongestCommonSubstring<'a> {
    pub fn as_slice(&self) -> (r: &[u8])
        requires
            self.start + self.len <= self.text@.len(),
        ensures
            r@ == self.text@.subrange(self.start as int, self.start + self.len),
    {
        let n = self.text.len();
        vstd::slice::slice_subrange(self.text, self.start, self.start + self.len)
    }

    pub fn start(&self) -> (r: usize)
        ensures
            r == self.start,
    {
        self.start
    }

    pub fn len(&self) -> (r: usize)
        ensures
            r == self.len,
    {
        self.len
    }
}

/// A hash-table based string index over fixed-size blocks of a text.
pub struct HashIndex<'a> {
    text: &'a [u8],
    block_size: usize,
    table: Vec<u64>,
    mask: usize,
}

impl<'a> HashIndex<'a> {
    /// The indexed text.
    pub closed spec fn spec_text(self) -> Seq<u8> {
        self.text@
    }

    /// The block granularity of the index.
    pub closed spec fn spec_block_size(self) -> nat {
        self.block_size as nat
    }

    /// Structural soundness: a valid block size, offsets that fit the
    /// 32-bit entry layout, a table of whole buckets, and every stored
    /// entry in bounds.
    pub closed spec fn wf(self) -> bool {
        &&& self.block_size >= 4
        &&& self.text@.len() < 0x1_0000_0000
        &&& self.table@.len() == (self.mask as nat + 1) * (BUCKET_SIZE as nat)
        &&& self.mask as nat + 1 <= 0x2000_0000
        &&& 2 * (self.text@.len() as int / self.block_size as int) <= self.table@.len()
        &&& forall|i: int|
            0 <= i < self.table@.len() ==> entry_ok(
                #[trigger] self.table@[i],
                self.text@.len(),
                self.block_size as nat,
            )
        &&& forall|i: int|
            0 <= i < self.table@.len() ==> slot_wf(
                #[trigger] self.table@[i],
                self.text@,
                self.block_size as nat,
            )
    }

    /// The table's slots.
    pub closed spec fn spec_table(self) -> Seq<u64> {
        self.table@
    }

    /// Every slot is still empty: no block has been inserted yet.
    pub closed spec fn spec_unpopulated(self) -> bool {
        forall|k: int| 0 <= k < self.table@.len() ==> (#[trigger] self.table@[k]) == 0
    }

    /// Some slot's entry references a block of the text equal to `b`.
    pub closed spec fn block_stored(self, b: Seq<u8>) -> bool {
        exists|k: int|
            0 <= k < self.table@.len() && slot_matches(
                #[trigger] self.table@[k],
                self.text@,
                self.block_size as nat,
                b,
            )
    }

    /// The bounded probe for `b` — at most five buckets from its hash's
    /// home bucket — meets a slot whose block equals `b` before it meets
    /// any empty slot: the condition under which a lookup is owed a hit.
    pub closed spec fn finds(self, b: Seq<u8>) -> bool {
        let nb = self.mask as int + 1;
        let start = spec_hash_block(b) as int % nb;
        let cap: int = if nb < 5 {
            8 * nb
        } else {
            40
        };
        exists|t: int|
            0 <= t < cap && slot_matches(
                #[trigger] self.table@[probe_slot(nb, start, t)],
                self.text@,
                self.block_size as nat,
                b,
            ) && (forall|u: int| 0 <= u < t ==> self.table@[probe_slot(nb, start, u)] != 0)
    }

    /// Every block-aligned block of the text is represented: some slot
    /// holds an entry whose referenced block has the same content.
    pub closed spec fn populated(self) -> bool {
        forall|i: int|
            0 <= i < self.text@.len() as int / self.block_size as int ==> self.block_stored(
                #[trigger] self.text@.subrange(
                    i * self.block_size,
                    i * self.block_size + self.block_size,
                ),
            )
    }

    /// Allocate an empty index over `text`: the table is sized for a load
    /// factor of at most one half, rounded up to a power of two of buckets,
    /// and every slot starts empty. Lookups on an unpopulated index find
    /// nothing.
    pub fn new_empty(text: &'a [u8], block_size: usize) -> (r: Self)
        requires
            block_size >= 4,
            text@.len() < 0x1_0000_0000,
        ensures
            r.wf(),
            r.spec_text() == text@,
            r.spec_block_size() == block_size as nat,
            r.spec_unpopulated(),
    {
        let num_entries = text.len() / block_size;
        if text.len() < block_size || num_entries == 0 {
            proof {
                if text@.len() < block_size {
                    vstd::arithmetic::div_mod::lemma_basic_div(
                        text@.len() as int,
                        block_size as int,
                    );
                }
            }
            return HashIndex { text, block_size, table: zero_table(BUCKET_SIZE), mask: 0 };
        }
        proof {
            vstd::arithmetic::div_mod::lemma_fundamental_div_mod(text@.len() as int, block_size as int);
            vstd::arithmetic::div_mod::lemma_mod_division_less_than_divisor(
                text@.len() as int,
                block_size as int,
            );
            assert(4 * (num_entries as int) <= (block_size as int) * (num_entries as int))
                by (nonlinear_arith)
                requires
                    block_size >= 4,
                    num_entries >= 0,
            ;
            assert(num_entries < 0x4000_0000);
        }
        let target = (num_entries * 2 + (BUCKET_SIZE - 1)) / BUCKET_SIZE;
        let mut num_buckets: usize = 1;
        while num_buckets < target
            invariant
                1 <= num_buckets <= 0x1FFF_FFFE,
                target <= 0x1000_0000,
            decreases 2 * target - num_buckets,
        {
            num_buckets = num_buckets * 2;
        }
        let table_size = num_buckets * BUCKET_SIZE;
        proof {
            vstd::arithmetic::div_mod::lemma_fundamental_div_mod(
                2 * num_entries as int + 7,
                8,
            );
            assert(8 * (target as int) >= 2 * num_entries as int);
            assert(table_size as int >= 8 * (target as int)) by (nonlinear_arith)
                requires
                    num_buckets as int >= target as int,
                    table_size as int == num_buckets as int * 8,
            ;
        }
        HashIndex { text, block_size, table: zero_table(table_size), mask: num_buckets - 1 }
    }

    /// Build and populate an index over `text`: every block-aligned block
    /// is stored afterwards.
    pub fn new(text: &'a [u8], block_size: usize) -> (r: Self)
        requires
            block_size >= 4,
            text@.len() < 0x1_0000_0000,
        ensures
            r.wf(),
            r.spec_text() == text@,
            r.spec_block_size() == block_size as nat,
            r.populated(),
    {
        let mut index = Self::new_empty(text, block_size);
        index.populate();
        index
    }

    /// Insert every block-aligned position of the text, from the last block
    /// to the first, so that an earlier duplicate overwrites a later one.
    /// Afterwards every block-aligned block of the text is stored: the
    /// half-full sizing of the table leaves a free slot for each.
    pub fn populate(&mut self)
        requires
            old(self).wf(),
            old(self).spec_unpopulated(),
        ensures
            final(self).wf(),
            final(self).spec_text() == old(self).spec_text(),
            final(self).spec_block_size() == old(self).spec_block_size(),
            final(self).populated(),
    {
        let num_entries = self.text.len() / self.block_size;
        proof {
            vstd::arithmetic::div_mod::lemma_fundamental_div_mod(
                self.text@.len() as int,
                self.block_size as int,
            );
            vstd::arithmetic::div_mod::lemma_mod_division_less_than_divisor(
                self.text@.len() as int,
                self.block_size as int,
            );
            assert((num_entries as int) * (self.block_size as int) == (self.block_size as int) * (
            num_entries as int)) by (nonlinear_arith);
            assert((self.block_size as int) * (num_entries as int) <= self.text@.len() as int);
            lemma_count_bounds(self.table@);
            assert(count_nonempty(self.table@) == 0) by {
                if count_nonempty(self.table@) > 0 {
                    lemma_count_positive_has_nonempty(self.table@);
                }
            }
        }
        let mut idx = num_entries;
        while idx > 0
            invariant
                self.wf(),
                self.spec_text() == old(self).spec_text(),
                self.spec_block_size() == old(self).spec_block_size(),
                idx <= num_entries,
                num_entries as int == self.text@.len() as int / self.block_size as int,
                (num_entries as int) * (self.block_size as int) <= self.text@.len(),
                self.block_size >= 1,
                count_nonempty(self.spec_table()) <= num_entries - idx,
                forall|i: int|
                    idx <= i < num_entries ==> self.block_stored(
                        #[trigger] self.spec_text().subrange(
                            i * self.spec_block_size(),
                            i * self.spec_block_size() + self.spec_block_size(),
                        ),
                    ),
            decreases idx,
        {
            idx = idx - 1;
            proof {
                assert((idx as int + 1) * (self.block_size as int) <= (num_entries as int) * (
                self.block_size as int) && (idx as int) * (self.block_size as int) + (
                self.block_size as int) == (idx as int + 1) * (self.block_size as int))
                    by (nonlinear_arith)
                    requires
                        idx as int + 1 <= num_entries as int,
                        self.block_size as int >= 1,
                        idx as int >= 0,
                ;
                assert(2 * (num_entries as int) <= self.table@.len());
            }
            let offset = idx * self.block_size;
            let h = hash_block(
                vstd::slice::slice_subrange(self.text, offset, offset + self.block_size),
            );
            let ghost pre = *self;
            self.insert_entry(offset, h);
            proof {
                assert(self.block_stored(self.spec_text().subrange(
                    (idx as int) * self.spec_block_size(),
                    (idx as int) * self.spec_block_size() + self.spec_block_size(),
                )));
                assert forall|i: int|
                    idx + 1 <= i < num_entries implies self.block_stored(
                    #[trigger] self.spec_text().subrange(
                        i * self.spec_block_size(),
                        i * self.spec_block_size() + self.spec_block_size(),
                    ),
                ) by {
                    assert(pre.block_stored(pre.spec_text().subrange(
                        i * pre.spec_block_size(),
                        i * pre.spec_block_size() + pre.spec_block_size(),
                    )));
                }
            }
        }
    }

    /// Place one packed entry: probe buckets from the hash's home bucket,    /// Place one packed entry: probe buckets from the hash's home bucket,
    /// claim the first empty slot, or overwrite the slot of an identical
    /// block. With a slot to spare, the block is stored afterwards, and
    /// every block stored before stays stored.
    fn insert_entry(&mut self, offset: usize, h: u64)
        requires
            old(self).wf(),
            offset + old(self).spec_block_size() <= old(self).spec_text().len(),
            h == spec_hash_block(
                old(self).spec_text().subrange(
                    offset as int,
                    offset + old(self).spec_block_size(),
                ),
            ),
            count_nonempty(old(self).spec_table()) < old(self).spec_table().len(),
        ensures
            final(self).wf(),
            final(self).spec_text() == old(self).spec_text(),
            final(self).spec_block_size() == old(self).spec_block_size(),
            final(self).spec_table().len() == old(self).spec_table().len(),
            count_nonempty(final(self).spec_table()) <= count_nonempty(old(self).spec_table())
                + 1,
            final(self).block_stored(
                old(self).spec_text().subrange(
                    offset as int,
                    offset + old(self).spec_block_size(),
                ),
            ),
            forall|b: Seq<u8>|
                old(self).block_stored(b) ==> final(self).block_stored(b),
    {
        let ghost my_block = old(self).spec_text().subrange(
            offset as int,
            offset + old(self).spec_block_size(),
        );
        let packed = pack_entry(offset as u32, h);
        let needle_tag = entry_tag(h);
        let num_buckets = self.mask + 1;
        let start_bucket = (h % (num_buckets as u64)) as usize;
        let tlen = self.table.len();
        let mut p: usize = 0;
        while p < num_buckets
            invariant
                self.wf(),
                self == old(self),
                num_buckets == self.mask + 1,
                start_bucket < num_buckets,
                tlen == self.table@.len(),
                offset + self.spec_block_size() <= self.spec_text().len(),
                h == spec_hash_block(my_block),
                my_block == self.spec_text().subrange(
                    offset as int,
                    offset + self.spec_block_size(),
                ),
                packed != 0,
                packed == spec_pack_entry(offset as nat, h),
                spec_entry_offset(packed) == offset as nat,
                packed % 0x1_0000_0000 >= 1,
                needle_tag as nat == spec_entry_tag(h),
                count_nonempty(self.spec_table()) < tlen,
                p <= num_buckets,
                forall|p2: int, s2: int|
                    0 <= p2 < p && 0 <= s2 < 8 ==> (#[trigger] self.table@[wrap_bucket(
                        start_bucket as int,
                        p2,
                        num_buckets as int,
                    ) * 8 + s2]) != 0,
            decreases num_buckets - p,
        {
            let bucket = if start_bucket + p >= num_buckets {
                start_bucket + p - num_buckets
            } else {
                start_bucket + p
            };
            let base = bucket * BUCKET_SIZE;
            proof {
                assert((bucket as int + 1) * (BUCKET_SIZE as int) <= (self.mask as int + 1) * (
                BUCKET_SIZE as int)) by (nonlinear_arith)
                    requires
                        bucket as int + 1 <= self.mask as int + 1,
                        BUCKET_SIZE as int >= 1,
                ;
                assert(bucket as int == wrap_bucket(
                    start_bucket as int,
                    p as int,
                    num_buckets as int,
                ));
            }
            let mut s: usize = 0;
            while s < BUCKET_SIZE
                invariant
                    self.wf(),
                    self == old(self),
                    num_buckets == self.mask + 1,
                    start_bucket < num_buckets,
                    p < num_buckets,
                    bucket as int == wrap_bucket(
                        start_bucket as int,
                        p as int,
                        num_buckets as int,
                    ),
                    base == bucket * BUCKET_SIZE,
                    base + BUCKET_SIZE <= tlen,
                    tlen == self.table@.len(),
                    offset + self.spec_block_size() <= self.spec_text().len(),
                    h == spec_hash_block(my_block),
                    my_block == self.spec_text().subrange(
                        offset as int,
                        offset + self.spec_block_size(),
                    ),
                    needle_tag as nat == spec_entry_tag(h),
                    packed != 0,
                    packed == spec_pack_entry(offset as nat, h),
                    spec_entry_offset(packed) == offset as nat,
                    packed % 0x1_0000_0000 >= 1,
                    count_nonempty(self.spec_table()) < tlen,
                    s <= BUCKET_SIZE,
                    forall|p2: int, s2: int|
                        0 <= p2 < p && 0 <= s2 < 8 ==> (#[trigger] self.table@[wrap_bucket(
                            start_bucket as int,
                            p2,
                            num_buckets as int,
                        ) * 8 + s2]) != 0,
                    forall|s2: int| 0 <= s2 < s ==> (#[trigger] self.table@[base + s2]) != 0,
                decreases BUCKET_SIZE - s,
            {
                let e = self.table[base + s];
                if e == 0 {
                    let ghost pre = self.table@;
                    self.table.set(base + s, packed);
                    proof {
                        self.lemma_after_insert(pre, base + s, packed, offset as nat, h, my_block);
                        lemma_count_update(pre, base + s, packed);
                    }
                    return ;
                }
                if entry_tag(e) == needle_tag {
                    let existing = entry_offset(e) as usize;
                    if slice_eq_range(self.text, existing, self.text, offset, self.block_size) {
                        let ghost pre = self.table@;
                        self.table.set(base + s, packed);
                        proof {
                            self.lemma_after_insert(
                                pre,
                                base + s,
                                packed,
                                offset as nat,
                                h,
                                my_block,
                            );
                            lemma_count_update(pre, base + s, packed);
                        }
                        return ;
                    }
                }
                s = s + 1;
            }
            p = p + 1;
        }
        proof {
            // Every bucket was probed, so every slot is occupied — but the
            // table was required to have room.
            assert forall|k: int| 0 <= k < tlen implies (#[trigger] self.table@[k]) != 0 by {
                let b = k / 8;
                let sl = k % 8;
                vstd::arithmetic::div_mod::lemma_fundamental_div_mod(k, 8);
                vstd::arithmetic::div_mod::lemma_mod_division_less_than_divisor(k, 8);
                assert(b < num_buckets) by (nonlinear_arith)
                    requires
                        k < tlen,
                        tlen == num_buckets as int * 8,
                        k == b * 8 + sl,
                        0 <= sl < 8,
                ;
                let p2: int = if b >= start_bucket as int {
                    b - start_bucket as int
                } else {
                    b + num_buckets as int - start_bucket as int
                };
                assert(wrap_bucket(start_bucket as int, p2, num_buckets as int) == b);
                assert(self.table@[wrap_bucket(start_bucket as int, p2, num_buckets as int) * 8
                    + sl] != 0);
            }
            lemma_count_full(self.table@);
        }
    }

    /// What one write of a well-formed packed entry does to the index:
    /// well-formedness is kept, the written block is stored, and every
    /// block stored before is still stored — an empty slot gained an
    /// entry, or a slot whose block already equalled the written one was
    /// replaced in kind.
    proof fn lemma_after_insert(
        self,
        pre: Seq<u64>,
        k: int,
        packed: u64,
        offset: nat,
        h: u64,
        my_block: Seq<u8>,
    )
        requires
            0 <= k < pre.len(),
            self.table@ == pre.update(k, packed),
            self.block_size >= 4,
            self.text@.len() < 0x1_0000_0000,
            self.table@.len() == (self.mask as nat + 1) * (BUCKET_SIZE as nat),
            self.mask as nat + 1 <= 0x2000_0000,
            2 * (self.text@.len() as int / self.block_size as int) <= self.table@.len(),
            forall|i: int|
                0 <= i < pre.len() ==> entry_ok(
                    #[trigger] pre[i],
                    self.text@.len(),
                    self.block_size as nat,
                ),
            forall|i: int|
                0 <= i < pre.len() ==> slot_wf(
                    #[trigger] pre[i],
                    self.text@,
                    self.block_size as nat,
                ),
            offset + self.block_size as nat <= self.text@.len(),
            my_block == self.text@.subrange(
                offset as int,
                (offset + self.block_size as nat) as int,
            ),
            h == spec_hash_block(my_block),
            packed == spec_pack_entry(offset, h),
            pre[k] == 0 || (spec_entry_offset(pre[k]) + self.block_size as nat
                <= self.text@.len() && self.text@.subrange(
                spec_entry_offset(pre[k]) as int,
                (spec_entry_offset(pre[k]) + self.block_size as nat) as int,
            ) == my_block),
        ensures
            self.wf(),
            self.block_stored(my_block),
            forall|b: Seq<u8>|
                block_stored_in(pre, self.text@, self.block_size as nat, b)
                    ==> self.block_stored(b),
    {
        lemma_pack_entry_fields(offset, h);
        assert forall|i: int| 0 <= i < self.table@.len() implies entry_ok(
            #[trigger] self.table@[i],
            self.text@.len(),
            self.block_size as nat,
        ) && slot_wf(self.table@[i], self.text@, self.block_size as nat) by {
            if i != k {
                assert(self.table@[i] == pre[i]);
            } else {
                assert(spec_pack_entry(
                    offset,
                    spec_hash_block(
                        self.text@.subrange(
                            offset as int,
                            (offset + self.block_size as nat) as int,
                        ),
                    ),
                ) == packed);
            }
        }
        assert(slot_matches(self.table@[k], self.text@, self.block_size as nat, my_block));
        assert forall|b: Seq<u8>|
            block_stored_in(pre, self.text@, self.block_size as nat, b) implies self.block_stored(
            b,
        ) by {
            let w = choose|w: int|
                0 <= w < pre.len() && slot_matches(
                    #[trigger] pre[w],
                    self.text@,
                    self.block_size as nat,
                    b,
                );
            if w != k {
                assert(slot_matches(self.table@[w], self.text@, self.block_size as nat, b));
            } else {
                assert(b == my_block);
                assert(slot_matches(self.table@[k], self.text@, self.block_size as nat, b));
            }
        }
    }

    /// Look a block up, returning a text offset whose block equals it.
    /// A hit is never wrong, and one is owed whenever the bounded probe
    /// meets a matching slot before any empty one.
    fn lookup_with_hash(&self, block: &[u8], h: u64) -> (r: Option<usize>)
        requires
            self.wf(),
            block@.len() == self.spec_block_size(),
        ensures
            match r {
                Some(o) => o + self.spec_block_size() <= self.spec_text().len()
                    && self.spec_text().subrange(o as int, o + self.spec_block_size())
                    == block@,
                None => true,
            },
            h == spec_hash_block(block@) && self.finds(block@) ==> r is Some,
            self.spec_unpopulated() ==> r is None,
    {
        let needle_tag = entry_tag(h);
        let num_buckets = self.mask + 1;
        let start_bucket = (h % (num_buckets as u64)) as usize;
        let tlen = self.table.len();
        let mut p: usize = 0;
        while p < num_buckets && p < 5
            invariant
                self.wf(),
                num_buckets == self.mask + 1,
                start_bucket as int == h as int % (num_buckets as int),
                tlen == self.table@.len(),
                block@.len() == self.spec_block_size(),
                needle_tag as nat == spec_entry_tag(h),
                p <= num_buckets,
                forall|t: int|
                    0 <= t < 8 * p ==> (#[trigger] self.table@[probe_slot(
                        num_buckets as int,
                        start_bucket as int,
                        t,
                    )]) != 0 && (h == spec_hash_block(block@) ==> !slot_matches(
                        self.table@[probe_slot(num_buckets as int, start_bucket as int, t)],
                        self.text@,
                        self.block_size as nat,
                        block@,
                    )),
            decreases num_buckets - p,
        {
            let bucket = if start_bucket + p >= num_buckets {
                start_bucket + p - num_buckets
            } else {
                start_bucket + p
            };
            let base = bucket * BUCKET_SIZE;
            proof {
                assert((bucket as int + 1) * (BUCKET_SIZE as int) <= (self.mask as int + 1) * (
                BUCKET_SIZE as int)) by (nonlinear_arith)
                    requires
                        bucket as int + 1 <= self.mask as int + 1,
                        BUCKET_SIZE as int >= 1,
                ;
                assert(bucket as int == wrap_bucket(
                    start_bucket as int,
                    p as int,
                    num_buckets as int,
                ));
            }
            let mut s: usize = 0;
            while s < BUCKET_SIZE
                invariant
                    self.wf(),
                    num_buckets == self.mask + 1,
                    start_bucket as int == h as int % (num_buckets as int),
                    p < num_buckets,
                    bucket as int == wrap_bucket(
                        start_bucket as int,
                        p as int,
                        num_buckets as int,
                    ),
                    base == bucket * BUCKET_SIZE,
                    base + BUCKET_SIZE <= tlen,
                    tlen == self.table@.len(),
                    block@.len() == self.spec_block_size(),
                    needle_tag as nat == spec_entry_tag(h),
                    s <= BUCKET_SIZE,
                    forall|t: int|
                        0 <= t < 8 * p + s ==> (#[trigger] self.table@[probe_slot(
                            num_buckets as int,
                            start_bucket as int,
                            t,
                        )]) != 0 && (h == spec_hash_block(block@) ==> !slot_matches(
                            self.table@[probe_slot(num_buckets as int, start_bucket as int, t)],
                            self.text@,
                            self.block_size as nat,
                            block@,
                        )),
                decreases BUCKET_SIZE - s,
            {
                proof {
                    lemma_probe_step(num_buckets as int, start_bucket as int, p as int, s as int);
                }
                let e = self.table[base + s];
                if e == 0 {
                    proof {
                        if h == spec_hash_block(block@) && self.finds(block@) {
                            let t0: int = 8 * (p as int) + (s as int);
                            let cap: int = if (num_buckets as int) < 5 {
                                8 * (num_buckets as int)
                            } else {
                                40
                            };
                            let tw = choose|tw: int|
                                0 <= tw < cap && slot_matches(
                                    #[trigger] self.table@[probe_slot(
                                        num_buckets as int,
                                        start_bucket as int,
                                        tw,
                                    )],
                                    self.text@,
                                    self.block_size as nat,
                                    block@,
                                ) && (forall|u: int|
                                    0 <= u < tw ==> self.table@[probe_slot(
                                        num_buckets as int,
                                        start_bucket as int,
                                        u,
                                    )] != 0);
                            if tw > t0 {
                                assert(self.table@[probe_slot(
                                    num_buckets as int,
                                    start_bucket as int,
                                    t0,
                                )] != 0);
                            }
                        }
                    }
                    return None;
                }
                if entry_tag(e) == needle_tag {
                    let o = entry_offset(e) as usize;
                    if slice_eq_range(self.text, o, block, 0, self.block_size) {
                        proof {
                            assert(block@.subrange(0, self.block_size as int) =~= block@);
                        }
                        return Some(o);
                    }
                    proof {
                        assert(!slot_matches(e, self.text@, self.block_size as nat, block@)) by {
                            assert(block@.subrange(0, self.block_size as int) =~= block@);
                        }
                    }
                } else {
                    proof {
                        if h == spec_hash_block(block@) {
                            self.lemma_tag_of_match(e, h, block@);
                        }
                    }
                }
                s = s + 1;
            }
            p = p + 1;
        }
        proof {
            if h == spec_hash_block(block@) && self.finds(block@) {
                let cap: int = if (num_buckets as int) < 5 {
                    8 * (num_buckets as int)
                } else {
                    40
                };
                assert(8 * p >= cap);
            }
        }
        None
    }

    /// A slot whose block equals `b` carries `b`'s own hash tag: the tag
    /// filter never skips a true match.
    proof fn lemma_tag_of_match(self, e: u64, h: u64, b: Seq<u8>)
        requires
            self.wf(),
            h == spec_hash_block(b),
            b.len() == self.spec_block_size(),
            exists|i: int| 0 <= i < self.table@.len() && self.table@[i] == e,
            spec_entry_tag(e) != spec_entry_tag(h),
        ensures
            !slot_matches(e, self.text@, self.block_size as nat, b),
    {
        if slot_matches(e, self.text@, self.block_size as nat, b) {
            let i = choose|i: int| 0 <= i < self.table@.len() && self.table@[i] == e;
            assert(slot_wf(self.table@[i], self.text@, self.block_size as nat));
            let o = choose|o: nat|
                o + self.block_size as nat <= self.text@.len() && o + 1 < 0x1_0000_0000 && e
                    == #[trigger] spec_pack_entry(
                    o,
                    spec_hash_block(
                        self.text@.subrange(o as int, (o + self.block_size as nat) as int),
                    ),
                );
            let ho = spec_hash_block(
                self.text@.subrange(o as int, (o + self.block_size as nat) as int),
            );
            lemma_pack_entry_fields(o, ho);
            assert(spec_entry_offset(e) == o);
            assert(self.text@.subrange(o as int, (o + self.block_size as nat) as int) == b);
            assert(spec_entry_tag(e) == h as nat / 0x1_0000_0000);
        }
    }

    /// Hash the first block of `data` and return the hash, so a later    /// Hash the first block of `data` and return the hash, so a later
    /// query can reuse it. Returns nothing when `data` is shorter than one
    /// block.
    pub fn prefetch_block(&self, data: &[u8]) -> (r: Option<u64>)
        requires
            self.wf(),
        ensures
            data@.len() >= self.spec_block_size() ==> r == Some(
                spec_hash_block(data@.take(self.spec_block_size() as int)),
            ),
            data@.len() < self.spec_block_size() ==> r is None,
    {
        if data.len() >= self.block_size {
            let h = hash_block(vstd::slice::slice_subrange(data, 0, self.block_size));
            Some(h)
        } else {
            None
        }
    }

    /// The block granularity of the index.
    pub fn block_size(&self) -> (r: usize)
        ensures
            r as nat == self.spec_block_size(),
    {
        self.block_size
    }

    /// Find a substring of the text matching a prefix of `needle`: hash the
    /// needle's first block, look it up, and extend the match forward byte
    /// by byte.
    pub fn longest_substring_match(&self, needle: &[u8]) -> (r: LongestCommonSubstring<'a>)
        requires
            self.wf(),
        ensures
            r.text@ == self.spec_text(),
            lcs_ok(
                self.spec_text(),
                needle@,
                self.spec_block_size(),
                r.start as nat,
                r.len as nat,
            ),
            r.len > 0 ==> r.len as int == self.spec_block_size() + common_prefix(
                self.spec_text().skip(r.start + self.spec_block_size()),
                needle@.skip(self.spec_block_size() as int),
            ),
            self.spec_unpopulated() ==> r.len == 0 && r.start == 0,
            needle@.len() >= self.spec_block_size() && self.spec_text().len()
                >= self.spec_block_size() && self.finds(
                needle@.take(self.spec_block_size() as int),
            ) ==> r.len > 0,
    {
        if needle.len() < self.block_size || self.text.len() < self.block_size {
            return LongestCommonSubstring { text: self.text, start: 0, len: 0 };
        }
        let h = hash_block(vstd::slice::slice_subrange(needle, 0, self.block_size));
        proof {
            assert(needle@.subrange(0, self.spec_block_size() as int) =~= needle@.take(
                self.spec_block_size() as int,
            ));
        }
        self.match_at(needle, h)
    }

    /// Like [`Self::longest_substring_match`], with a hash already computed
    /// by [`Self::prefetch_block`]. The result is checked against the text,
    /// so a stale hash can only cost a match, never invent one.
    pub fn longest_substring_match_with_hash(&self, needle: &[u8], h: u64) -> (r:
        LongestCommonSubstring<'a>)
        requires
            self.wf(),
        ensures
            r.text@ == self.spec_text(),
            lcs_ok(
                self.spec_text(),
                needle@,
                self.spec_block_size(),
                r.start as nat,
                r.len as nat,
            ),
            r.len > 0 ==> r.len as int == self.spec_block_size() + common_prefix(
                self.spec_text().skip(r.start + self.spec_block_size()),
                needle@.skip(self.spec_block_size() as int),
            ),
            self.spec_unpopulated() ==> r.len == 0 && r.start == 0,
            needle@.len() >= self.spec_block_size() && self.spec_text().len()
                >= self.spec_block_size() && h == spec_hash_block(
                needle@.take(self.spec_block_size() as int),
            ) && self.finds(needle@.take(self.spec_block_size() as int)) ==> r.len > 0,
    {
        if needle.len() < self.block_size || self.text.len() < self.block_size {
            return LongestCommonSubstring { text: self.text, start: 0, len: 0 };
        }
        self.match_at(needle, h)
    }

    fn match_at(&self, needle: &[u8], h: u64) -> (r: LongestCommonSubstring<'a>)
        requires
            self.wf(),
            needle@.len() >= self.spec_block_size(),
        ensures
            r.text@ == self.spec_text(),
            lcs_ok(
                self.spec_text(),
                needle@,
                self.spec_block_size(),
                r.start as nat,
                r.len as nat,
            ),
            r.len > 0 ==> r.len as int == self.spec_block_size() + common_prefix(
                self.spec_text().skip(r.start + self.spec_block_size()),
                needle@.skip(self.spec_block_size() as int),
            ),
            self.spec_unpopulated() ==> r.len == 0 && r.start == 0,
            h == spec_hash_block(needle@.take(self.spec_block_size() as int)) && self.finds(
                needle@.take(self.spec_block_size() as int),
            ) ==> r.len > 0,
    {
        let block = vstd::slice::slice_subrange(needle, 0, self.block_size);
        proof {
            assert(block@ =~= needle@.take(self.spec_block_size() as int));
        }
        match self.lookup_with_hash(block, h) {
            Some(text_offset) => {
                let tail_text = vstd::slice::slice_subrange(
                    self.text,
                    text_offset + self.block_size,
                    self.text.len(),
                );
                let tail_needle = vstd::slice::slice_subrange(
                    needle,
                    self.block_size,
                    needle.len(),
                );
                let ext = common_prefix_len(tail_text, tail_needle);
                proof {
                    lemma_common_prefix_spec(tail_text@, tail_needle@);
                }
                let match_len = self.block_size + ext;
                proof {
                    let bs = self.block_size as int;
                    let o = text_offset as int;
                    let ml = match_len as int;
                    assert forall|i: int| 0 <= i < ml implies self.text@[o + i] == needle@[i] by {
                        if i < bs {
                            assert(self.text@.subrange(o, o + bs)[i] == needle@.take(bs)[i]);
                        } else {
                            assert(tail_text@[i - bs] == tail_needle@[i - bs]);
                        }
                    }
                    assert(self.text@.subrange(o, o + ml) =~= needle@.take(ml));
                    assert(tail_text@ =~= self.text@.skip(o + bs));
                    assert(tail_needle@ =~= needle@.skip(bs));
                }
                LongestCommonSubstring { text: self.text, start: text_offset, len: match_len }
            },
            None => LongestCommonSubstring { text: self.text, start: 0, len: 0 },
        }
    }
}

/// A table of `n` slots, all empty.
fn zero_table(n: usize) -> (r: Vec<u64>)
    ensures
        r@.len() == n,
        forall|i: int| 0 <= i < n ==> r@[i] == 0,
{
    let mut t: Vec<u64> = Vec::new();
    let mut i: usize = 0;
    while i < n
        invariant
            i <= n,
            t@.len() == i,
            forall|j: int| 0 <= j < i ==> t@[j] == 0,
        decreases n - i,
    {
        t.push(0);
        i = i + 1;
    }
    t
}

} // verus!
