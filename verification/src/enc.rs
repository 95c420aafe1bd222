//! The single-stream patch encoding.
//!
//! A patch is a little-endian magic word, a version word, the new file's
//! length, and then one record per control: a tagged varint with the ADD
//! length (low bit set when the delta is all zero and its bytes are left
//! out of the stream), a tagged varint with the COPY length (low bit set
//! when the bytes are taken from the old file at a position given by a
//! following varint instead of the stream), and a zig-zag varint with the
//! seek.

use vstd::prelude::*;

use crate::Control;
use crate::varint::varint_bytes;
use crate::varint::write_varint_i64;
use crate::varint::write_varint_u64;
use crate::varint::zigzag;

verus! {

/// The patch magic word.
pub const MAGIC: u32 = 0xB1DF;

/// The patch format version.
pub const VERSION: u32 = 0x2000;

/// Every byte of `s` is zero.
pub open spec fn all_zero(s: Seq<u8>) -> bool {
    forall|i: int| 0 <= i < s.len() ==> s[i] == 0
}

/// A control whose buffers respect the format's 32-bit size discipline.
pub open spec fn control_wf(c: Control) -> bool {
    c.add@.len() < 0x1_0000_0000 && c.copy@.len() < 0x1_0000_0000
}

/// The encoding of one control record, with an optional copy-from-old
/// position replacing the literal COPY bytes.
pub open spec fn control_bytes_ext(c: Control, copy_old: Option<usize>) -> Seq<u8> {
    (if all_zero(c.add@) {
        varint_bytes(2 * c.add@.len() + 1)
    } else {
        varint_bytes(2 * c.add@.len()) + c.add@
    }) + (match copy_old {
        None => varint_bytes(2 * c.copy@.len()) + c.copy@,
        Some(p) => varint_bytes(2 * c.copy@.len() + 1) + varint_bytes(p as nat),
    }) + varint_bytes(zigzag(c.seek as int))
}

/// The encoding of one control record with literal COPY bytes.
pub open spec fn control_bytes(c: Control) -> Seq<u8> {
    control_bytes_ext(c, None)
}

/// The encoding of a whole control stream.
pub open spec fn stream_bytes(cs: Seq<Control>) -> Seq<u8>
    decreases cs.len(),
{
    if cs.len() == 0 {
        Seq::empty()
    } else {
        control_bytes(cs[0]) + stream_bytes(cs.drop_first())
    }
}

pub proof fn lemma_stream_bytes_push(cs: Seq<Control>, c: Control)
    ensures
        stream_bytes(cs.push(c)) == stream_bytes(cs) + control_bytes(c),
    decreases cs.len(),
{
    if cs.len() == 0 {
        assert(cs.push(c).drop_first() =~= cs);
        assert(stream_bytes(cs.push(c)) =~= stream_bytes(cs) + control_bytes(c));
    } else {
        assert(cs.push(c).drop_first() =~= cs.drop_first().push(c));
        lemma_stream_bytes_push(cs.drop_first(), c);
        assert(stream_bytes(cs.push(c)) =~= stream_bytes(cs) + control_bytes(c));
    }
}

/// The patch header: magic, version, and the new file's length, all
/// little-endian.
pub open spec fn header_bytes(new_size: u64) -> Seq<u8> {
    vstd::bytes::spec_u32_to_le_bytes(MAGIC) + vstd::bytes::spec_u32_to_le_bytes(VERSION)
        + vstd::bytes::spec_u64_to_le_bytes(new_size)
}

/// Accumulates the single-stream encoding of a patch in memory.
pub struct Writer {
    w: Vec<u8>,
}

impl Writer {
    /// The bytes written so far.
    pub closed spec fn spec_buf(self) -> Seq<u8> {
        self.w@
    }

    /// A writer that has emitted the patch header.
    pub fn new(new_size: u64) -> (r: Self)
        ensures
            r.spec_buf() == header_bytes(new_size),
    {
        let mut w: Vec<u8> = Vec::new();
        let mut magic = vstd::bytes::u32_to_le_bytes(MAGIC);
        w.append(&mut magic);
        let mut version = vstd::bytes::u32_to_le_bytes(VERSION);
        w.append(&mut version);
        let mut size = vstd::bytes::u64_to_le_bytes(new_size);
        w.append(&mut size);
        Writer { w }
    }

    /// A writer without a header, for the control stream inside a chunk.
    pub fn new_raw() -> (r: Self)
        ensures
            r.spec_buf() == Seq::<u8>::empty(),
    {
        Writer { w: Vec::new() }
    }

    /// Append one control record with literal COPY bytes.
    pub fn write(&mut self, c: &Control) -> (r: bool)
        ensures
            r == control_wf(*c),
            r ==> final(self).spec_buf() == old(self).spec_buf() + control_bytes(*c),
            !r ==> final(self).spec_buf() == old(self).spec_buf(),
    {
        self.write_extended(c, None)
    }

    /// Append one control record. With `copy_old`, the COPY region is
    /// encoded as a reference into the old file instead of literal bytes.
    /// Returns false, writing nothing, for a control whose buffers exceed
    /// the format's 32-bit sizes.
    pub fn write_extended(&mut self, c: &Control, copy_old: Option<usize>) -> (r: bool)
        ensures
            r == control_wf(*c),
            r ==> final(self).spec_buf() == old(self).spec_buf() + control_bytes_ext(*c, copy_old),
            !r ==> final(self).spec_buf() == old(self).spec_buf(),
    {
        if (c.add.len() as u64) >= 0x1_0000_0000u64 || (c.copy.len() as u64)
            >= 0x1_0000_0000u64 {
            return false;
        }
        let ghost buf0 = self.w@;
        let alen = c.add.len();
        if is_all_zero(c.add.as_slice()) {
            write_varint_u64(&mut self.w, (alen as u64) * 2 + 1);
        } else {
            write_varint_u64(&mut self.w, (alen as u64) * 2);
            let mut add = vstd::slice::slice_to_vec(c.add.as_slice());
            self.w.append(&mut add);
        }
        let ghost buf1 = self.w@;
        let clen = c.copy.len();
        match copy_old {
            None => {
                write_varint_u64(&mut self.w, (clen as u64) * 2);
                let mut copy = vstd::slice::slice_to_vec(c.copy.as_slice());
                self.w.append(&mut copy);
            },
            Some(p) => {
                write_varint_u64(&mut self.w, (clen as u64) * 2 + 1);
                write_varint_u64(&mut self.w, p as u64);
            },
        }
        let ghost buf2 = self.w@;
        write_varint_i64(&mut self.w, c.seek);
        proof {
            assert(self.w@ =~= buf0 + control_bytes_ext(*c, copy_old));
        }
        true
    }

    /// No-op: the writer holds its bytes in memory.
    pub fn flush(&mut self)
        ensures
            final(self).spec_buf() == old(self).spec_buf(),
    {
    }

    /// The accumulated patch bytes.
    pub fn into_inner(self) -> (r: Vec<u8>)
        ensures
            r@ == self.spec_buf(),
    {
        self.w
    }
}

/// Whether every byte of the slice is zero.
fn is_all_zero(s: &[u8]) -> (r: bool)
    ensures
        r == all_zero(s@),
{
    let n = s.len();
    let mut i: usize = 0;
    while i < n
        invariant
            i <= n,
            n == s@.len(),
            forall|j: int| 0 <= j < i ==> s@[j] == 0,
        decreases n - i,
    {
        if s[i] != 0 {
            return false;
        }
        i = i + 1;
    }
    true
}

} // verus!
