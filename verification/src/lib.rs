//! A bsdiff-family binary delta codec.
//!
//! The differ scans a "new" byte buffer against a block-hash index of an
//! "old" buffer and emits a sequence of [`Match`] records that cover the new
//! buffer exactly. A [`Translator`] turns consecutive matches into control
//! records (ADD delta bytes, literal COPY bytes, and a SEEK displacement),
//! and the patch writer / reader frame those records as a patch file that,
//! applied to the old buffer, reconstructs the new buffer byte for byte.

use vstd::prelude::*;

mod bytes;
mod compress;
pub mod enc;
mod hashindex;
pub mod instructions;
mod method;
pub mod patch;
mod scan;
pub mod suffix;
mod varint;

pub use bytes::common_prefix_len;
pub use bytes::count_matching_bytes;
pub use bytes::matchlen;
pub use hashindex::HashIndex;
pub use hashindex::LongestCommonSubstring;
pub use hashindex::hash_block;
pub use method::Method;
pub use scan::BsdiffIterator;
pub use suffix::SuffixArray;

verus! {

/// One step of the cover of the new buffer: `add_length` bytes rebuilt from
/// the old buffer plus a per-byte delta, then literal bytes up to
/// `copy_end`.
#[derive(Clone, Copy, Debug)]
pub struct Match {
    pub add_old_start: usize,
    pub add_new_start: usize,
    pub add_length: usize,
    pub copy_end: usize,
}

/// A match describes a well-formed region: the ADD part lies inside the old
/// buffer, and ADD plus COPY lie inside the new buffer.
pub open spec fn match_wf(m: Match, olen: nat, nlen: nat) -> bool {
    &&& m.add_new_start + m.add_length <= m.copy_end
    &&& m.copy_end <= nlen
    &&& m.add_old_start + m.add_length <= olen
}

impl Match {
    /// Where the literal COPY region starts in the new buffer.
    pub fn copy_start(&self) -> (r: usize)
        requires
            self.add_new_start + self.add_length <= usize::MAX,
        ensures
            r == self.add_new_start + self.add_length,
    {
        self.add_new_start + self.add_length
    }
}

/// One record of the patch stream: delta bytes to add to the old buffer,
/// literal bytes to copy, and a signed displacement of the old-buffer read
/// position that takes effect afterwards.
#[derive(Clone, Debug)]
pub struct Control {
    pub add: Vec<u8>,
    pub copy: Vec<u8>,
    pub seek: i64,
}

/// The byte-wise wrapping difference `nbuf[nstart + i] - obuf[ostart + i]`
/// over `i < len`: what the ADD region of a control carries.
pub open spec fn delta_bytes(
    nbuf: Seq<u8>,
    obuf: Seq<u8>,
    nstart: nat,
    ostart: nat,
    len: nat,
) -> Seq<u8> {
    Seq::new(
        len,
        |i: int| vstd::wrapping::u8_specs::wrapping_sub(nbuf[nstart + i], obuf[ostart + i]),
    )
}

/// The control that a match `pm` translates to: its delta bytes, the
/// literal tail of its region, and a seek that lands the old-buffer cursor
/// on the next match's ADD start (zero for the final match).
pub open spec fn control_for(
    obuf: Seq<u8>,
    nbuf: Seq<u8>,
    pm: Match,
    next: Option<Match>,
    c: Control,
) -> bool {
    &&& c.add@ == delta_bytes(
        nbuf,
        obuf,
        pm.add_new_start as nat,
        pm.add_old_start as nat,
        pm.add_length as nat,
    )
    &&& c.copy@ == nbuf.subrange(pm.add_new_start + pm.add_length, pm.copy_end as int)
    &&& c.seek as int == (match next {
        Some(m) => m.add_old_start - (pm.add_old_start + pm.add_length),
        None => 0int,
    })
}

/// Build the delta buffer for one match.
fn make_delta(nbuf: &[u8], obuf: &[u8], nstart: usize, ostart: usize, len: usize) -> (r: Vec<u8>)
    requires
        nstart + len <= nbuf@.len(),
        ostart + len <= obuf@.len(),
    ensures
        r@ == delta_bytes(nbuf@, obuf@, nstart as nat, ostart as nat, len as nat),
{
    let mut out: Vec<u8> = Vec::new();
    let nn = nbuf.len();
    let on = obuf.len();
    let mut i: usize = 0;
    while i < len
        invariant
            i <= len,
            nstart + len <= nn,
            ostart + len <= on,
            nn == nbuf@.len(),
            on == obuf@.len(),
            out@.len() == i,
            forall|j: int|
                0 <= j < i ==> out@[j] == vstd::wrapping::u8_specs::wrapping_sub(
                    nbuf@[nstart + j],
                    obuf@[ostart + j],
                ),
        decreases len - i,
    {
        out.push(nbuf[nstart + i].wrapping_sub(obuf[ostart + i]));
        i = i + 1;
    }
    proof {
        assert(out@ =~= delta_bytes(nbuf@, obuf@, nstart as nat, ostart as nat, len as nat));
    }
    out
}

/// Turns consecutive matches into controls. Each call to
/// [`Translator::translate`] hands back the control for the previous match,
/// now that its seek target is known; [`Translator::close`] flushes the
/// last one with a zero seek.
pub struct Translator<'a> {
    obuf: &'a [u8],
    nbuf: &'a [u8],
    prev_match: Option<Match>,
    buf: Vec<u8>,
    closed: bool,
}

impl<'a> Translator<'a> {
    /// The old buffer.
    pub closed spec fn spec_obuf(self) -> Seq<u8> {
        self.obuf@
    }

    /// The new buffer.
    pub closed spec fn spec_nbuf(self) -> Seq<u8> {
        self.nbuf@
    }

    /// The match whose control has not been emitted yet.
    pub closed spec fn spec_prev(self) -> Option<Match> {
        self.prev_match
    }

    /// Whether the final control has been flushed.
    pub closed spec fn spec_closed(self) -> bool {
        self.closed
    }

    /// The pending match, if any, describes a region of the buffers, and
    /// the staging buffer holds its delta bytes.
    pub closed spec fn wf(self) -> bool {
        &&& self.obuf@.len() < 0x1_0000_0000
        &&& self.nbuf@.len() < 0x1_0000_0000
        &&& match self.prev_match {
            Some(pm) => match_wf(pm, self.obuf@.len(), self.nbuf@.len()) && self.buf@
                == delta_bytes(
                self.nbuf@,
                self.obuf@,
                pm.add_new_start as nat,
                pm.add_old_start as nat,
                pm.add_length as nat,
            ),
            None => true,
        }
    }

    pub fn new(obuf: &'a [u8], nbuf: &'a [u8]) -> (r: Self)
        requires
            obuf@.len() < 0x1_0000_0000,
            nbuf@.len() < 0x1_0000_0000,
        ensures
            r.wf(),
            r.spec_obuf() == obuf@,
            r.spec_nbuf() == nbuf@,
            r.spec_prev() is None,
            !r.spec_closed(),
    {
        Translator { obuf, nbuf, prev_match: None, buf: Vec::new(), closed: false }
    }

    /// Emit the control for the pending match, seeking towards `next`.
    fn send_control(&mut self, next: Option<Match>) -> (r: Option<Control>)
        requires
            old(self).wf(),
            match next {
                Some(m) => match_wf(m, old(self).spec_obuf().len(), old(self).spec_nbuf().len()),
                None => true,
            },
        ensures
            final(self).wf(),
            final(self).spec_obuf() == old(self).spec_obuf(),
            final(self).spec_nbuf() == old(self).spec_nbuf(),
            final(self).spec_prev() is None,
            final(self).spec_closed() == old(self).spec_closed(),
            match (old(self).spec_prev(), r) {
                (Some(pm), Some(c)) => control_for(
                    old(self).spec_obuf(),
                    old(self).spec_nbuf(),
                    pm,
                    next,
                    c,
                ),
                (None, None) => true,
                _ => false,
            },
    {
        match self.prev_match {
            Some(pm) => {
                self.prev_match = None;
                let add = vstd::slice::slice_to_vec(self.buf.as_slice());
                let copy = vstd::slice::slice_to_vec(
                    vstd::slice::slice_subrange(
                        self.nbuf,
                        pm.add_new_start + pm.add_length,
                        pm.copy_end,
                    ),
                );
                let seek: i64 = match next {
                    Some(m) => (m.add_old_start as i64) - ((pm.add_old_start as i64)
                        + (pm.add_length as i64)),
                    None => 0,
                };
                Some(Control { add, copy, seek })
            },
            None => None,
        }
    }

    /// Record `m` as the pending match and hand back the previous match's
    /// control, if there was one.
    pub fn translate(&mut self, m: Match) -> (r: Option<Control>)
        requires
            old(self).wf(),
            match_wf(m, old(self).spec_obuf().len(), old(self).spec_nbuf().len()),
        ensures
            final(self).wf(),
            final(self).spec_obuf() == old(self).spec_obuf(),
            final(self).spec_nbuf() == old(self).spec_nbuf(),
            final(self).spec_prev() == Some(m),
            final(self).spec_closed() == old(self).spec_closed(),
            match (old(self).spec_prev(), r) {
                (Some(pm), Some(c)) => control_for(
                    old(self).spec_obuf(),
                    old(self).spec_nbuf(),
                    pm,
                    Some(m),
                    c,
                ),
                (None, None) => true,
                _ => false,
            },
    {
        let out = self.send_control(Some(m));
        self.buf = make_delta(self.nbuf, self.obuf, m.add_new_start, m.add_old_start, m.add_length);
        self.prev_match = Some(m);
        out
    }

    /// Flush the pending match with a zero seek. Closing twice is a no-op:
    /// the second call returns nothing and changes nothing.
    pub fn close(&mut self) -> (r: Option<Control>)
        requires
            old(self).wf(),
        ensures
            final(self).wf(),
            final(self).spec_obuf() == old(self).spec_obuf(),
            final(self).spec_nbuf() == old(self).spec_nbuf(),
            !old(self).spec_closed() ==> final(self).spec_prev() is None,
            final(self).spec_closed() == (old(self).spec_closed() || true),
            old(self).spec_closed() ==> r is None && *final(self) == *old(self),
            !old(self).spec_closed() ==> match (old(self).spec_prev(), r) {
                (Some(pm), Some(c)) => control_for(
                    old(self).spec_obuf(),
                    old(self).spec_nbuf(),
                    pm,
                    None,
                    c,
                ),
                (None, None) => true,
                _ => false,
            },
    {
        if self.closed {
            return None;
        }
        let out = self.send_control(None);
        self.closed = true;
        out
    }
}

/// The matches tile the new buffer: each is well-formed, each begins where
/// the previous one ended, the first begins at zero and the last ends at
/// `nlen`. An empty buffer is covered by no matches at all.
pub open spec fn matches_cover(ms: Seq<Match>, olen: nat, nlen: nat) -> bool {
    &&& forall|i: int| 0 <= i < ms.len() ==> match_wf(#[trigger] ms[i], olen, nlen)
    &&& forall|i: int| 0 < i < ms.len() ==> (#[trigger] ms[i]).add_new_start == ms[i - 1].copy_end
    &&& (ms.len() == 0 ==> nlen == 0)
    &&& (ms.len() > 0 ==> ms[0].add_new_start == 0 && ms[0].add_old_start == 0 && ms[ms.len()
        - 1].copy_end == nlen)
}

/// Appending a match that starts exactly where a cover ends extends the
/// cover to the new match's end.
proof fn lemma_cover_push(ms: Seq<Match>, m: Match, olen: nat, upto: nat, upto2: nat)
    requires
        matches_cover(ms, olen, upto),
        m.add_new_start == upto,
        m.add_new_start + m.add_length <= m.copy_end,
        m.copy_end == upto2,
        m.add_old_start + m.add_length <= olen,
        upto <= upto2,
        ms.len() == 0 ==> m.add_old_start == 0,
    ensures
        matches_cover(ms.push(m), olen, upto2),
{
    let ms2 = ms.push(m);
    assert forall|i: int| 0 <= i < ms2.len() implies match_wf(#[trigger] ms2[i], olen, upto2) by {
        if i < ms.len() {
            assert(match_wf(ms[i], olen, upto));
        }
    }
    assert forall|i: int| 0 < i < ms2.len() implies (#[trigger] ms2[i]).add_new_start == ms2[i
        - 1].copy_end by {
        if i < ms.len() {
            assert(ms[i].add_new_start == ms[i - 1].copy_end);
        } else {
            if ms.len() > 0 {
                assert(ms2[i - 1] == ms[ms.len() - 1]);
            }
        }
    }
}

/// Run a scanner to completion, collecting the matches of the cover.
fn scan_all(obuf: &[u8], nbuf: &[u8], index: &HashIndex) -> (r: Vec<Match>)
    requires
        index.wf(),
        index.spec_text() == obuf@,
        obuf@.len() < 0x1_0000_0000,
        nbuf@.len() < 0x1_0000_0000,
    ensures
        matches_cover(r@, obuf@.len(), nbuf@.len()),
        nbuf@.len() == 0 ==> r@.len() == 0,
{
    let mut it = BsdiffIterator::new(obuf, nbuf, index);
    let mut out: Vec<Match> = Vec::new();
    loop
        invariant
            it.wf(),
            it.spec_obuf() == obuf@,
            it.spec_nbuf() == nbuf@,
            it.spec_measure() >= 0,
            matches_cover(out@, obuf@.len(), it.spec_lastscan()),
            it.spec_lastscan() <= nbuf@.len(),
            out@.len() == 0 ==> it.spec_lastpos() == 0,
            nbuf@.len() == 0 ==> out@.len() == 0,
        ensures
            matches_cover(out@, obuf@.len(), nbuf@.len()),
        decreases it.spec_measure(),
    {
        let ghost pre = it;
        match it.next() {
            Some(m) => {
                proof {
                    lemma_cover_push(
                        out@,
                        m,
                        obuf@.len(),
                        pre.spec_lastscan(),
                        it.spec_lastscan(),
                    );
                }
                out.push(m);
            },
            None => {
                break ;
            },
        }
    }
    out
}

/// Why a set of diff parameters was rejected.
#[derive(Clone, Copy, Debug, PartialEq, Eq, Structural)]
pub enum DiffParamsError {
    BlockSizeTooSmall,
    ScanChunkSizeTooSmall,
    NumThreadsTooSmall,
}

/// Parameters used when creating diffs.
#[derive(Debug)]
pub struct DiffParams {
    /// Block size for the hash index. Must be at least 4.
    pub block_size: usize,
    scan_chunk_size: Option<usize>,
    num_threads: Option<usize>,
}

impl DiffParams {
    /// The block size for the hash index.
    pub closed spec fn spec_block_size(self) -> nat {
        self.block_size as nat
    }

    /// The scan chunk size, when the new buffer is scanned in independent
    /// chunks.
    pub closed spec fn spec_scan_chunk_size(self) -> Option<usize> {
        self.scan_chunk_size
    }

    /// The requested worker bound for parallel scanning.
    pub closed spec fn spec_num_threads(self) -> Option<usize> {
        self.num_threads
    }

    /// Validity: the block size is at least 4, and the optional chunk size
    /// and thread count are at least 1.
    pub closed spec fn wf(self) -> bool {
        &&& self.block_size >= 4
        &&& (self.spec_scan_chunk_size() matches Some(s) ==> s >= 1)
        &&& (self.spec_num_threads() matches Some(n) ==> n >= 1)
    }

    /// Construct diff parameters, rejecting a block size under 4 and a
    /// chunk size under 1.
    pub fn new(block_size: usize, scan_chunk_size: Option<usize>) -> (r: Result<
        Self,
        DiffParamsError,
    >)
        ensures
            match r {
                Ok(p) => p.wf() && p.spec_block_size() == block_size as nat
                    && p.spec_scan_chunk_size() == scan_chunk_size && p.spec_num_threads() is None,
                Err(e) => (block_size < 4 || (scan_chunk_size matches Some(s) && s < 1)),
            },
    {
        Self::with_threads(block_size, scan_chunk_size, None)
    }

    /// Like [`Self::new`], but also bounds the number of scan workers.
    pub fn with_threads(
        block_size: usize,
        scan_chunk_size: Option<usize>,
        num_threads: Option<usize>,
    ) -> (r: Result<Self, DiffParamsError>)
        ensures
            match r {
                Ok(p) => p.wf() && p.spec_block_size() == block_size as nat
                    && p.spec_scan_chunk_size() == scan_chunk_size && p.spec_num_threads()
                    == num_threads,
                Err(e) => {
                    &&& (block_size < 4 || (scan_chunk_size matches Some(s) && s < 1) || (
                    num_threads matches Some(n) && n < 1))
                    &&& (e == DiffParamsError::BlockSizeTooSmall <==> block_size < 4)
                },
            },
    {
        if block_size < 4 {
            return Err(DiffParamsError::BlockSizeTooSmall);
        }
        match scan_chunk_size {
            Some(s) if s < 1 => {
                return Err(DiffParamsError::ScanChunkSizeTooSmall);
            },
            _ => {},
        }
        match num_threads {
            Some(n) if n < 1 => {
                return Err(DiffParamsError::NumThreadsTooSmall);
            },
            _ => {},
        }
        Ok(DiffParams { block_size, scan_chunk_size, num_threads })
    }
}

impl Default for DiffParams {
    /// A block size of 32 and a single whole-buffer scan.
    fn default() -> (r: Self)
        ensures
            r.wf(),
            r.spec_block_size() == 32,
            r.spec_scan_chunk_size() is None,
            r.spec_num_threads() is None,
    {
        DiffParams { block_size: 32, scan_chunk_size: None, num_threads: None }
    }
}

/// Diff two buffers: index the old one, scan the new one (in chunks when a
/// chunk size is set), and return the matches, which tile the new buffer
/// exactly.
pub fn diff(obuf: &[u8], nbuf: &[u8], params: &DiffParams) -> (r: Vec<Match>)
    requires
        params.wf(),
        obuf@.len() < 0x1_0000_0000,
        nbuf@.len() < 0x1_0000_0000,
    ensures
        matches_cover(r@, obuf@.len(), nbuf@.len()),
        nbuf@.len() == 0 ==> r@.len() == 0,
{
    let index = HashIndex::new(obuf, params.block_size);
    match params.scan_chunk_size {
        None => scan_all(obuf, nbuf, &index),
        Some(cs) => {
            let nbuflen = nbuf.len();
            let mut out: Vec<Match> = Vec::new();
            let mut start: usize = 0;
            while start < nbuflen
                invariant
                    index.wf(),
                    index.spec_text() == obuf@,
                    obuf@.len() < 0x1_0000_0000,
                    nbuf@.len() < 0x1_0000_0000,
                    nbuflen == nbuf@.len(),
                    cs >= 1,
                    start <= nbuflen,
                    matches_cover(out@, obuf@.len(), start as nat),
                    out@.len() == 0 ==> start == 0,
                    nbuf@.len() == 0 ==> out@.len() == 0,
                decreases nbuflen - start,
            {
                let end = if cs < nbuflen - start {
                    start + cs
                } else {
                    nbuflen
                };
                let chunk = vstd::slice::slice_subrange(nbuf, start, end);
                let ms = scan_all(obuf, chunk, &index);
                let mut j: usize = 0;
                let mlen = ms.len();
                while j < mlen
                    invariant
                        mlen == ms@.len(),
                        j <= mlen,
                        matches_cover(ms@, obuf@.len(), (end - start) as nat),
                        start < end <= nbuflen,
                        nbuflen == nbuf@.len(),
                        nbuf@.len() < 0x1_0000_0000,
                        obuf@.len() < 0x1_0000_0000,
                        matches_cover(
                            out@,
                            obuf@.len(),
                            if j == 0 {
                                start as nat
                            } else {
                                (start + ms@[j - 1].copy_end) as nat
                            },
                        ),
                        out@.len() == 0 ==> (j == 0 && start == 0),
                    decreases mlen - j,
                {
                    let m = ms[j];
                    proof {
                        assert(match_wf(ms@[j as int], obuf@.len(), (end - start) as nat));
                        if j > 0 {
                            assert(match_wf(ms@[j - 1], obuf@.len(), (end - start) as nat));
                        }
                    }
                    let shifted = Match {
                        add_old_start: m.add_old_start,
                        add_new_start: m.add_new_start + start,
                        add_length: m.add_length,
                        copy_end: m.copy_end + start,
                    };
                    proof {
                        let upto = if j == 0 {
                            start as nat
                        } else {
                            (start + ms@[j - 1].copy_end) as nat
                        };
                        if j > 0 {
                            assert(ms@[j as int].add_new_start == ms@[j - 1].copy_end);
                        }
                        lemma_cover_push(
                            out@,
                            shifted,
                            obuf@.len(),
                            upto,
                            (start + ms@[j as int].copy_end) as nat,
                        );
                    }
                    out.push(shifted);
                    j = j + 1;
                }
                proof {
                    assert(mlen > 0);
                    assert(ms@[mlen - 1].copy_end == end - start);
                }
                start = end;
            }
            out
        },
    }
}

/// The controls are exactly the translation of the matches: one control
/// per match, each carrying its delta, its literal tail, and a seek onto
/// the next match's ADD start (zero at the end).
pub open spec fn controls_match(
    obuf: Seq<u8>,
    nbuf: Seq<u8>,
    ms: Seq<Match>,
    cs: Seq<Control>,
) -> bool {
    &&& cs.len() == ms.len()
    &&& forall|i: int|
        0 <= i < ms.len() ==> control_for(
            obuf,
            nbuf,
            ms[i],
            if i + 1 < ms.len() {
                Some(ms[i + 1])
            } else {
                None
            },
            #[trigger] cs[i],
        )
}

/// The meaning of a control stream: starting from read position `pos` in
/// the old buffer with `acc` already produced, each control appends its
/// ADD bytes (delta plus old byte, wrapping) and its literal COPY bytes,
/// then displaces the read position by its seek. A read out of bounds
/// yields nothing.
pub open spec fn apply_controls_from(
    cs: Seq<Control>,
    obuf: Seq<u8>,
    pos: int,
    acc: Seq<u8>,
) -> Option<Seq<u8>>
    decreases cs.len(),
{
    if cs.len() == 0 {
        Some(acc)
    } else {
        let c = cs[0];
        if pos < 0 || pos + c.add@.len() > obuf.len() {
            None
        } else {
            let added = Seq::new(
                c.add@.len(),
                |i: int| vstd::wrapping::u8_specs::wrapping_add(c.add@[i], obuf[pos + i]),
            );
            apply_controls_from(
                cs.drop_first(),
                obuf,
                pos + c.add@.len() + c.seek,
                acc + added + c.copy@,
            )
        }
    }
}

/// What applying a whole control stream to an old buffer produces.
pub open spec fn apply_controls_spec(cs: Seq<Control>, obuf: Seq<u8>) -> Option<Seq<u8>> {
    apply_controls_from(cs, obuf, 0, Seq::empty())
}

/// Subtracting a byte with wrapping and adding it back restores the
/// original byte.
proof fn lemma_wrap_round(a: u8, b: u8)
    ensures
        vstd::wrapping::u8_specs::wrapping_add(
            vstd::wrapping::u8_specs::wrapping_sub(a, b),
            b,
        ) == a,
{
}

proof fn lemma_apply_suffix(obuf: Seq<u8>, nbuf: Seq<u8>, ms: Seq<Match>, cs: Seq<Control>, k: int, pos: int)
    requires
        matches_cover(ms, obuf.len(), nbuf.len()),
        controls_match(obuf, nbuf, ms, cs),
        0 <= k <= ms.len(),
        k < ms.len() ==> pos == ms[k].add_old_start,
        k == ms.len() && k == 0 ==> pos == 0,
    ensures
        apply_controls_from(
            cs.skip(k),
            obuf,
            pos,
            nbuf.take(
                if k == 0 {
                    0int
                } else {
                    ms[k - 1].copy_end as int
                },
            ),
        ) == Some(nbuf),
    decreases ms.len() - k,
{
    let acc = nbuf.take(
        if k == 0 {
            0int
        } else {
            ms[k - 1].copy_end as int
        },
    );
    if k == ms.len() {
        if k == 0 {
            assert(nbuf.len() == 0);
            assert(acc =~= nbuf);
        } else {
            assert(ms[k - 1].copy_end == nbuf.len());
            assert(acc =~= nbuf);
        }
        assert(cs.skip(k).len() == 0);
    } else {
        let m = ms[k];
        let c = cs[k];
        assert(control_for(
            obuf,
            nbuf,
            m,
            if k + 1 < ms.len() {
                Some(ms[k + 1])
            } else {
                None
            },
            c,
        ));
        assert(match_wf(m, obuf.len(), nbuf.len()));
        assert(cs.skip(k)[0] == c);
        let alen = m.add_length as int;
        assert(c.add@.len() == alen);
        assert(pos >= 0 && pos + alen <= obuf.len());
        let added = Seq::new(
            c.add@.len(),
            |i: int| vstd::wrapping::u8_specs::wrapping_add(c.add@[i], obuf[pos + i]),
        );
        let ans = m.add_new_start as int;
        assert forall|i: int| 0 <= i < alen implies added[i] == nbuf[ans + i] by {
            assert(c.add@[i] == vstd::wrapping::u8_specs::wrapping_sub(
                nbuf[ans + i],
                obuf[pos + i],
            ));
            lemma_wrap_round(nbuf[ans + i], obuf[pos + i]);
        }
        assert(added =~= nbuf.subrange(ans, ans + alen));
        assert(k == 0 ==> ans == 0);
        assert(k > 0 ==> ans == ms[k - 1].copy_end) by {
            if k > 0 {
                assert(ms[k].add_new_start == ms[k - 1].copy_end);
            }
        }
        assert(acc == nbuf.take(ans));
        let acc2 = acc + added + c.copy@;
        assert(c.copy@ == nbuf.subrange(ans + alen, m.copy_end as int));
        assert(acc2 =~= nbuf.take(m.copy_end as int));
        let pos2 = pos + alen + c.seek;
        assert(cs.skip(k).drop_first() =~= cs.skip(k + 1));
        if k + 1 < ms.len() {
            assert(c.seek as int == ms[k + 1].add_old_start - (m.add_old_start + m.add_length));
            assert(pos2 == ms[k + 1].add_old_start);
        }
        lemma_apply_suffix(obuf, nbuf, ms, cs, k + 1, pos2);
    }
}

/// Round trip: applying the control stream that the translator derives
/// from a covering match sequence to the old buffer reproduces the new
/// buffer exactly — in particular, with exactly its length.
pub proof fn lemma_patch_round_trip(obuf: Seq<u8>, nbuf: Seq<u8>, ms: Seq<Match>, cs: Seq<Control>)
    requires
        matches_cover(ms, obuf.len(), nbuf.len()),
        controls_match(obuf, nbuf, ms, cs),
    ensures
        apply_controls_spec(cs, obuf) == Some(nbuf),
        apply_controls_spec(cs, obuf) matches Some(s) && s.len() == nbuf.len(),
{
    lemma_apply_suffix(obuf, nbuf, ms, cs, 0, 0);
    assert(cs.skip(0) =~= cs);
    assert(nbuf.take(0) =~= Seq::<u8>::empty());
}

/// Apply a sequence of controls to an old buffer, walking it with a
/// signed cursor; fails exactly when the stream would read out of bounds.
pub fn apply_controls(cs: &Vec<Control>, obuf: &[u8]) -> (r: Option<Vec<u8>>)
    ensures
        match (r, apply_controls_spec(cs@, obuf@)) {
            (Some(v), Some(s)) => v@ == s,
            (None, None) => true,
            _ => false,
        },
{
    apply_controls_at(cs, obuf, 0)
}

/// Like [`apply_controls`], starting the old-buffer cursor at `start`.
pub fn apply_controls_at(cs: &Vec<Control>, obuf: &[u8], start: u64) -> (r: Option<Vec<u8>>)
    ensures
        match (r, apply_controls_from(cs@, obuf@, start as int, Seq::empty())) {
            (Some(v), Some(s)) => v@ == s,
            (None, None) => true,
            _ => false,
        },
{
    let olen = obuf.len();
    let mut out: Vec<u8> = Vec::new();
    let mut pos: i128 = start as i128;
    let mut k: usize = 0;
    let clen = cs.len();
    proof {
        assert(cs@.skip(0) == cs@);
    }
    while k < clen
        invariant
            k <= clen,
            clen == cs@.len(),
            olen == obuf@.len(),
            pos as int >= -0x1_0000_0000_0000_0000_0000,
            pos as int <= 0x1_0000_0000_0000_0000_0000,
            apply_controls_from(cs@.skip(k as int), obuf@, pos as int, out@)
                == apply_controls_from(cs@, obuf@, start as int, Seq::empty()),
        decreases clen - k,
    {
        let c = &cs[k];
        let alen = c.add.len();
        if pos < 0 || (pos as i128) + (alen as i128) > (olen as i128) {
            proof {
                assert(apply_controls_from(cs@.skip(k as int), obuf@, pos as int, out@)
                    is None);
            }
            return None;
        }
        let p = pos as usize;
        let ghost pre_out = out@;
        let mut i: usize = 0;
        while i < alen
            invariant
                i <= alen,
                alen == c.add@.len(),
                p + alen <= olen,
                olen == obuf@.len(),
                out@.len() == pre_out.len() + i,
                forall|j: int| 0 <= j < pre_out.len() ==> out@[j] == pre_out[j],
                forall|j: int|
                    0 <= j < i ==> out@[pre_out.len() + j]
                        == vstd::wrapping::u8_specs::wrapping_add(c.add@[j], obuf@[p + j]),
            decreases alen - i,
        {
            out.push(c.add[i].wrapping_add(obuf[p + i]));
            i = i + 1;
        }
        let mut copy = vstd::slice::slice_to_vec(c.copy.as_slice());
        let ghost mid_out = out@;
        out.append(&mut copy);
        let ghost added = Seq::new(
            c.add@.len(),
            |j: int| vstd::wrapping::u8_specs::wrapping_add(c.add@[j], obuf@[p + j]),
        );
        proof {
            assert(mid_out =~= pre_out + added);
            assert(out@ =~= pre_out + added + c.copy@);
            assert(cs@.skip(k as int)[0] == cs@[k as int]);
            assert(cs@.skip(k as int).drop_first() =~= cs@.skip(k as int + 1));
        }
        pos = pos + (alen as i128) + (c.seek as i128);
        k = k + 1;
    }
    proof {
        assert(cs@.skip(clen as int).len() == 0);
    }
    Some(out)
}

/// The lengths of the regions a match sequence claims, added up.
#[verifier::opaque]
pub open spec fn cover_sum(ms: Seq<Match>) -> int
    decreases ms.len(),
{
    if ms.len() == 0 {
        0
    } else {
        (ms[0].copy_end - ms[0].add_new_start) + cover_sum(ms.drop_first())
    }
}

proof fn lemma_cover_sum_from(ms: Seq<Match>, olen: nat, nlen: nat, k: int)
    requires
        matches_cover(ms, olen, nlen),
        0 <= k <= ms.len(),
    ensures
        cover_sum(ms.skip(k)) == nlen - (if k == 0 {
            0int
        } else {
            ms[k - 1].copy_end as int
        }),
    decreases ms.len() - k,
{
    reveal(cover_sum);
    if k == ms.len() {
        if k > 0 {
            assert(ms[k - 1].copy_end == nlen);
        }
    } else {
        assert(ms.skip(k)[0] == ms[k]);
        assert(ms.skip(k).drop_first() =~= ms.skip(k + 1));
        lemma_cover_sum_from(ms, olen, nlen, k + 1);
        assert(match_wf(ms[k], olen, nlen));
        if k > 0 {
            assert(ms[k].add_new_start == ms[k - 1].copy_end);
        } else {
            assert(ms[0].add_new_start == 0);
        }
    }
}

/// The regions of a cover add up to the whole new buffer: the sum over
/// the matches of `copy_end - add_new_start` is its length.
pub proof fn lemma_cover_sum(ms: Seq<Match>, olen: nat, nlen: nat)
    requires
        matches_cover(ms, olen, nlen),
    ensures
        cover_sum(ms) == nlen,
{
    lemma_cover_sum_from(ms, olen, nlen, 0);
    assert(ms.skip(0) =~= ms);
}

/// The length of the scan chunk with index `i`: a full `c` bytes except
/// for the final chunk, which takes what remains.
pub open spec fn chunk_at(nlen: int, c: int, i: int) -> int {
    if nlen - i * c < c {
        nlen - i * c
    } else {
        c
    }
}

/// How the chunk list relates to the requested scan chunk size: with a
/// size `c`, chunk `i` spans `[i*c, i*c + chunk_at(..))` and there are
/// exactly `ceil(nlen / c)` chunks (one for an empty buffer); with no
/// size, the whole buffer is a single chunk.
pub open spec fn chunk_layout(r: Seq<ChunkMatches>, nlen: nat, scs: Option<usize>) -> bool {
    match scs {
        Some(c) => {
            &&& forall|i: int|
                0 <= i < r.len() ==> (#[trigger] r[i]).new_start == i * c && r[i].new_len as int
                    == chunk_at(nlen as int, c as int, i)
            &&& (nlen == 0 ==> r.len() == 1)
            &&& (nlen > 0 ==> (r.len() - 1) * c < nlen <= r.len() * c)
        },
        None => r.len() == 1 && r[0].new_start == 0 && r[0].new_len == nlen,
    }
}

/// The chunk records of a written patch follow the same layout as the
/// scan chunks they came from.
pub open spec fn chunk_desc_layout(
    cds: Seq<patch::ChunkDesc>,
    nlen: nat,
    scs: Option<usize>,
) -> bool {
    match scs {
        Some(c) => {
            &&& forall|i: int|
                0 <= i < cds.len() ==> (#[trigger] cds[i]).new_start as int == i * c
                    && cds[i].new_len as int == chunk_at(nlen as int, c as int, i)
            &&& (nlen == 0 ==> cds.len() == 1)
            &&& (nlen > 0 ==> (cds.len() - 1) * c < nlen <= cds.len() * c)
        },
        None => cds.len() == 1 && cds[0].new_start == 0 && cds[0].new_len == nlen,
    }
}

/// The matches for one scan chunk of the new buffer: the chunk's range
/// and a cover of it, with positions relative to the chunk's start.
pub struct ChunkMatches {
    pub new_start: usize,
    pub new_len: usize,
    pub matches: Vec<Match>,
}

/// Diff two buffers chunk by chunk: the new buffer is split into scan
/// chunks (one chunk covering everything when no chunk size is set), each
/// scanned independently against the shared index. The chunks tile the
/// new buffer in order and each carries a cover of its own range.
pub fn diff_chunked(obuf: &[u8], nbuf: &[u8], params: &DiffParams) -> (r: Vec<ChunkMatches>)
    requires
        params.wf(),
        obuf@.len() < 0x1_0000_0000,
        nbuf@.len() < 0x1_0000_0000,
    ensures
        r@.len() >= 1,
        r@.len() <= nbuf@.len() + 1,
        r@.len() <= 0xFFFF_FFFF,
        r@[0].new_start == 0,
        forall|i: int|
            0 <= i < r@.len() ==> {
                let c = #[trigger] r@[i];
                &&& c.new_start + c.new_len <= nbuf@.len()
                &&& matches_cover(c.matches@, obuf@.len(), c.new_len as nat)
            },
        forall|i: int|
            0 < i < r@.len() ==> (#[trigger] r@[i]).new_start == r@[i - 1].new_start + r@[i
                - 1].new_len,
        r@[r@.len() - 1].new_start + r@[r@.len() - 1].new_len == nbuf@.len(),
        chunk_layout(r@, nbuf@.len(), params.spec_scan_chunk_size()),
{
    let index = HashIndex::new(obuf, params.block_size);
    let nbuflen = nbuf.len();
    let chunk_size = match params.scan_chunk_size {
        Some(cs) => cs,
        None => {
            if nbuflen == 0 {
                1
            } else {
                nbuflen
            }
        },
    };
    let mut out: Vec<ChunkMatches> = Vec::new();
    if nbuflen == 0 {
        let ms = scan_all(obuf, nbuf, &index);
        out.push(ChunkMatches { new_start: 0, new_len: 0, matches: ms });
        proof {
            match params.spec_scan_chunk_size() {
                Some(c) => {
                    assert(0 * (c as int) == 0) by (nonlinear_arith);
                },
                None => {},
            }
            assert(chunk_layout(out@, nbuf@.len(), params.spec_scan_chunk_size()));
        }
        return out;
    }
    let mut start: usize = 0;
    while start < nbuflen
        invariant
            index.wf(),
            index.spec_text() == obuf@,
            obuf@.len() < 0x1_0000_0000,
            nbuf@.len() < 0x1_0000_0000,
            nbuflen == nbuf@.len(),
            nbuflen > 0,
            chunk_size >= 1,
            start <= nbuflen,
            out@.len() <= start,
            out@.len() >= 1 <==> start > 0,
            start == out@.len() * chunk_size || (start == nbuflen && out@.len() >= 1 && (out@.len()
                - 1) * chunk_size < nbuflen),
            out@.len() >= 1 ==> out@[0].new_start == 0 && out@[out@.len() - 1].new_start
                + out@[out@.len() - 1].new_len == start,
            forall|i: int|
                0 <= i < out@.len() ==> {
                    let c = #[trigger] out@[i];
                    &&& c.new_start + c.new_len <= nbuf@.len()
                    &&& matches_cover(c.matches@, obuf@.len(), c.new_len as nat)
                    &&& c.new_start == i * chunk_size
                    &&& c.new_len as int == chunk_at(nbuf@.len() as int, chunk_size as int, i)
                },
            forall|i: int|
                0 < i < out@.len() ==> (#[trigger] out@[i]).new_start == out@[i - 1].new_start
                    + out@[i - 1].new_len,
        decreases nbuflen - start,
    {
        let end = if chunk_size < nbuflen - start {
            start + chunk_size
        } else {
            nbuflen
        };
        let chunk = vstd::slice::slice_subrange(nbuf, start, end);
        let ms = scan_all(obuf, chunk, &index);
        let ghost k = out@.len() as int;
        proof {
            assert(start as int == k * chunk_size) by {
                if start == nbuflen && out@.len() >= 1 {
                    assert((k - 1) * chunk_size < nbuflen);
                    assert(false);
                }
            }
            assert((k + 1) * (chunk_size as int) == k * (chunk_size as int) + chunk_size)
                by (nonlinear_arith);
        }
        out.push(ChunkMatches { new_start: start, new_len: end - start, matches: ms });
        start = end;
    }
    proof {
        let c = chunk_size as int;
        let cnt = out@.len() as int;
        let nlen = nbuf@.len() as int;
        assert(start == nlen);
        assert(cnt * c == (cnt - 1) * c + c) by (nonlinear_arith);
        assert((cnt - 1) * c < nlen) by {
            if start as int == cnt * c {
                assert(out@[cnt - 1].new_start == (cnt - 1) * c);
                assert(out@[cnt - 1].new_start + out@[cnt - 1].new_len == start);
            }
        }
        assert(nlen <= cnt * c) by {
            if start as int != cnt * c {
                assert(out@[cnt - 1].new_start == (cnt - 1) * c);
                assert(out@[cnt - 1].new_len as int == chunk_at(nlen, c, cnt - 1));
            }
        }
        match params.spec_scan_chunk_size() {
            Some(csz) => {
                assert(chunk_size == csz);
            },
            None => {
                assert(c >= nlen);
                assert(cnt == 1) by {
                    if cnt >= 2 {
                        assert((cnt - 1) * c >= c) by (nonlinear_arith)
                            requires
                                cnt >= 2,
                                c >= 1,
                        ;
                    }
                }
                assert(out@[0].new_len as int == chunk_at(nlen, c, 0));
                assert(0 * c == 0) by (nonlinear_arith);
            },
        }
    }
    out
}

/// Diff two buffers and frame the resulting controls as a single-stream
/// patch: the header carries the new buffer's length, and the control
/// stream, applied to the old buffer, reproduces the new buffer exactly.
pub fn simple_diff_with_params(older: &[u8], newer: &[u8], params: &DiffParams) -> (r: Vec<u8>)
    requires
        params.wf(),
        older@.len() < 0x1_0000_0000,
        newer@.len() < 0x1_0000_0000,
    ensures
        exists|cs: Seq<Control>|
            {
                &&& r@ == #[trigger] (enc::header_bytes(newer@.len() as u64) + enc::stream_bytes(
                    cs,
                ))
                &&& patch::stream_wf(cs)
                &&& apply_controls_spec(cs, older@) == Some(newer@)
            },
{
    let ms = diff(older, newer, params);
    let mut translator = Translator::new(older, newer);
    let mut w = enc::Writer::new(newer.len() as u64);
    let ghost mut gcs: Seq<Control> = Seq::empty();
    let mlen = ms.len();
    let mut i: usize = 0;
    proof {
        assert(w.spec_buf() =~= enc::header_bytes(newer@.len() as u64) + enc::stream_bytes(gcs));
    }
    while i < mlen
        invariant
            i <= mlen,
            mlen == ms@.len(),
            matches_cover(ms@, older@.len(), newer@.len()),
            older@.len() < 0x1_0000_0000,
            newer@.len() < 0x1_0000_0000,
            translator.wf(),
            translator.spec_obuf() == older@,
            translator.spec_nbuf() == newer@,
            !translator.spec_closed(),
            translator.spec_prev() == (if i == 0 {
                None
            } else {
                Some(ms@[i - 1])
            }),
            gcs.len() == (if i == 0 {
                0int
            } else {
                i - 1
            }),
            forall|j: int|
                0 <= j < gcs.len() ==> control_for(
                    older@,
                    newer@,
                    ms@[j],
                    Some(ms@[j + 1]),
                    #[trigger] gcs[j],
                ),
            patch::stream_wf(gcs),
            w.spec_buf() == enc::header_bytes(newer@.len() as u64) + enc::stream_bytes(gcs),
        decreases mlen - i,
    {
        proof {
            assert(match_wf(ms@[i as int], older@.len(), newer@.len()));
        }
        match translator.translate(ms[i]) {
            Some(c) => {
                proof {
                    enc::lemma_stream_bytes_push(gcs, c);
                    assert(c.add@.len() < 0x1_0000_0000 && c.copy@.len() < 0x1_0000_0000) by {
                        assert(match_wf(ms@[i - 1], older@.len(), newer@.len()));
                    }
                }
                let ok = w.write(&c);
                proof {
                    assert(ok);
                    gcs = gcs.push(c);
                    assert(w.spec_buf() =~= enc::header_bytes(newer@.len() as u64)
                        + enc::stream_bytes(gcs));
                }
            },
            None => {},
        }
        i = i + 1;
    }
    match translator.close() {
        Some(c) => {
            proof {
                enc::lemma_stream_bytes_push(gcs, c);
                assert(c.add@.len() < 0x1_0000_0000 && c.copy@.len() < 0x1_0000_0000) by {
                    assert(mlen > 0);
                    assert(match_wf(ms@[mlen - 1], older@.len(), newer@.len()));
                }
            }
            let ok = w.write(&c);
            proof {
                assert(ok);
                gcs = gcs.push(c);
            }
        },
        None => {},
    }
    proof {
        assert(controls_match(older@, newer@, ms@, gcs));
        lemma_patch_round_trip(older@, newer@, ms@, gcs);
        assert(w.spec_buf() =~= enc::header_bytes(newer@.len() as u64) + enc::stream_bytes(gcs));
    }
    w.into_inner()
}

/// Like [`simple_diff_with_params`], with the default parameters.
pub fn simple_diff(older: &[u8], newer: &[u8]) -> (r: Vec<u8>)
    requires
        older@.len() < 0x1_0000_0000,
        newer@.len() < 0x1_0000_0000,
    ensures
        exists|cs: Seq<Control>|
            {
                &&& r@ == #[trigger] (enc::header_bytes(newer@.len() as u64) + enc::stream_bytes(
                    cs,
                ))
                &&& patch::stream_wf(cs)
                &&& apply_controls_spec(cs, older@) == Some(newer@)
            },
{
    let params = DiffParams::default();
    simple_diff_with_params(older, newer, &params)
}

/// Encode the control stream for one chunk: translate its matches over
/// (old buffer, chunk slice) and write the records without a header.
fn chunk_stream(older: &[u8], chunk_nbuf: &[u8], ms: &Vec<Match>) -> (r: Vec<u8>)
    requires
        matches_cover(ms@, older@.len(), chunk_nbuf@.len()),
        older@.len() < 0x1_0000_0000,
        chunk_nbuf@.len() < 0x1_0000_0000,
    ensures
        exists|cs: Seq<Control>|
            {
                &&& r@ == #[trigger] enc::stream_bytes(cs)
                &&& patch::stream_wf(cs)
                &&& apply_controls_spec(cs, older@) == Some(chunk_nbuf@)
            },
{
    let mut translator = Translator::new(older, chunk_nbuf);
    let mut w = enc::Writer::new_raw();
    let ghost mut gcs: Seq<Control> = Seq::empty();
    let mlen = ms.len();
    let mut i: usize = 0;
    proof {
        assert(w.spec_buf() =~= enc::stream_bytes(gcs));
    }
    while i < mlen
        invariant
            i <= mlen,
            mlen == ms@.len(),
            matches_cover(ms@, older@.len(), chunk_nbuf@.len()),
            older@.len() < 0x1_0000_0000,
            chunk_nbuf@.len() < 0x1_0000_0000,
            translator.wf(),
            translator.spec_obuf() == older@,
            translator.spec_nbuf() == chunk_nbuf@,
            !translator.spec_closed(),
            translator.spec_prev() == (if i == 0 {
                None
            } else {
                Some(ms@[i - 1])
            }),
            gcs.len() == (if i == 0 {
                0int
            } else {
                i - 1
            }),
            forall|j: int|
                0 <= j < gcs.len() ==> control_for(
                    older@,
                    chunk_nbuf@,
                    ms@[j],
                    Some(ms@[j + 1]),
                    #[trigger] gcs[j],
                ),
            patch::stream_wf(gcs),
            w.spec_buf() == enc::stream_bytes(gcs),
        decreases mlen - i,
    {
        proof {
            assert(match_wf(ms@[i as int], older@.len(), chunk_nbuf@.len()));
        }
        match translator.translate(ms[i]) {
            Some(c) => {
                proof {
                    enc::lemma_stream_bytes_push(gcs, c);
                    assert(c.add@.len() < 0x1_0000_0000 && c.copy@.len() < 0x1_0000_0000) by {
                        assert(match_wf(ms@[i - 1], older@.len(), chunk_nbuf@.len()));
                    }
                }
                let ok = w.write(&c);
                proof {
                    assert(ok);
                    gcs = gcs.push(c);
                }
            },
            None => {},
        }
        i = i + 1;
    }
    match translator.close() {
        Some(c) => {
            proof {
                enc::lemma_stream_bytes_push(gcs, c);
                assert(c.add@.len() < 0x1_0000_0000 && c.copy@.len() < 0x1_0000_0000) by {
                    assert(mlen > 0);
                    assert(match_wf(ms@[mlen - 1], older@.len(), chunk_nbuf@.len()));
                }
            }
            let ok = w.write(&c);
            proof {
                assert(ok);
                gcs = gcs.push(c);
            }
        },
        None => {},
    }
    proof {
        assert(controls_match(older@, chunk_nbuf@, ms@, gcs));
        lemma_patch_round_trip(older@, chunk_nbuf@, ms@, gcs);
    }
    w.into_inner()
}

/// Compress one chunk's control stream and append its record — the five
/// header words and the compressed data — to the patch being built.
#[verifier::rlimit(60)]
#[verifier::spinoff_prover]
fn write_chunk_record(
    out: &mut Vec<u8>,
    older: &[u8],
    newer: &[u8],
    new_start: usize,
    new_len: usize,
    ms: &Vec<Match>,
    zstd_level: i32,
)
    requires
        new_start + new_len <= newer@.len(),
        matches_cover(ms@, older@.len(), new_len as nat),
        older@.len() < 0x1_0000_0000,
        newer@.len() < 0x1_0000_0000,
    ensures
        exists|cd: patch::ChunkDesc|
            {
                &&& final(out)@ == old(out)@ + #[trigger] patch::chunk_bytes(cd)
                &&& cd.old_start == 0
                &&& cd.new_start == new_start as u64
                &&& cd.new_len == new_len as u64
                &&& cd.raw_len <= usize::MAX
                &&& cd.data.len() < 0x1_0000_0000_0000_0000
                &&& patch::chunk_applies(
                    cd,
                    older@,
                    newer@.subrange(new_start as int, new_start + new_len),
                )
            },
{
    let ghost out0 = out@;
    let chunk_slice = vstd::slice::slice_subrange(newer, new_start, new_start + new_len);
    let sub = chunk_stream(older, chunk_slice, ms);
    let raw_len = sub.len();
    let comp = match crate::compress::zstd_compress(sub.as_slice(), zstd_level) {
        Some(v) => v,
        None => vstd::pervasive::unreached(),
    };
    let mut w1 = vstd::bytes::u64_to_le_bytes(0u64);
    out.append(&mut w1);
    let mut w2 = vstd::bytes::u64_to_le_bytes(new_start as u64);
    out.append(&mut w2);
    let mut w3 = vstd::bytes::u64_to_le_bytes(new_len as u64);
    out.append(&mut w3);
    let mut w4 = vstd::bytes::u64_to_le_bytes(raw_len as u64);
    out.append(&mut w4);
    let mut w5 = vstd::bytes::u64_to_le_bytes(comp.len() as u64);
    out.append(&mut w5);
    let ghost comp_view = comp@;
    let mut comp_mut = comp;
    out.append(&mut comp_mut);
    proof {
        let cd = patch::ChunkDesc {
            old_start: 0u64,
            new_start: new_start as u64,
            new_len: new_len as u64,
            raw_len: raw_len as u64,
            data: comp_view,
        };
        let cs = choose|cs: Seq<Control>|
            {
                &&& sub@ == #[trigger] enc::stream_bytes(cs)
                &&& patch::stream_wf(cs)
                &&& apply_controls_spec(cs, older@) == Some(chunk_slice@)
            };
        assert(patch::chunk_applies(
            cd,
            older@,
            newer@.subrange(new_start as int, new_start + new_len),
        )) by {
            assert(chunk_slice@ == newer@.subrange(new_start as int, new_start + new_len));
            assert(cd.data == crate::compress::zstd_compressed(
                enc::stream_bytes(cs),
                zstd_level as int,
            ));
            assert(crate::apply_controls_from(cs, older@, 0, Seq::empty()) == Some(
                newer@.subrange(new_start as int, new_start + new_len),
            ));
        }
        assert(out@ =~= out0 + patch::chunk_bytes(cd));
    }
}

/// Produce a chunked patch: a header with the new buffer's length and the
/// chunk count, then one independently compressed sub-patch per scan
/// chunk.
#[verifier::rlimit(60)]
#[verifier::spinoff_prover]
pub fn simple_diff_chunked_with_params(
    older: &[u8],
    newer: &[u8],
    params: &DiffParams,
    zstd_level: i32,
) -> (r: Vec<u8>)
    requires
        params.wf(),
        older@.len() < 0x1_0000_0000,
        newer@.len() < 0x1_0000_0000,
    ensures
        exists|cds: Seq<patch::ChunkDesc>|
            {
                &&& r@ == #[trigger] patch::chunked_patch_bytes(newer@.len() as u64, cds)
                &&& patch::chunks_tile(cds, newer@, older@)
                &&& chunk_desc_layout(cds, newer@.len(), params.spec_scan_chunk_size())
            },
{
    let chunks = diff_chunked(older, newer, params);
    let nchunks = chunks.len();
    let mut out: Vec<u8> = Vec::new();
    let mut magic = vstd::bytes::u32_to_le_bytes(enc::MAGIC);
    out.append(&mut magic);
    let mut version = vstd::bytes::u32_to_le_bytes(enc::VERSION);
    out.append(&mut version);
    let mut size = vstd::bytes::u64_to_le_bytes(newer.len() as u64);
    out.append(&mut size);
    let mut count = vstd::bytes::u32_to_le_bytes(nchunks as u32);
    out.append(&mut count);
    let ghost head = out@;
    let ghost mut gcds: Seq<patch::ChunkDesc> = Seq::empty();
    proof {
        assert(out@ =~= head + patch::chunks_bytes(gcds));
    }
    let mut i: usize = 0;
    while i < nchunks
        invariant
            i <= nchunks,
            nchunks == chunks@.len(),
            1 <= nchunks <= 0xFFFF_FFFF,
            older@.len() < 0x1_0000_0000,
            newer@.len() < 0x1_0000_0000,
            chunks@[0].new_start == 0,
            forall|j: int|
                0 <= j < chunks@.len() ==> {
                    let c = #[trigger] chunks@[j];
                    &&& c.new_start + c.new_len <= newer@.len()
                    &&& matches_cover(c.matches@, older@.len(), c.new_len as nat)
                },
            forall|j: int|
                0 < j < chunks@.len() ==> (#[trigger] chunks@[j]).new_start == chunks@[j
                    - 1].new_start + chunks@[j - 1].new_len,
            chunks@[chunks@.len() - 1].new_start + chunks@[chunks@.len() - 1].new_len
                == newer@.len(),
            chunk_layout(chunks@, newer@.len(), params.spec_scan_chunk_size()),
            head == vstd::bytes::spec_u32_to_le_bytes(enc::MAGIC)
                + vstd::bytes::spec_u32_to_le_bytes(enc::VERSION)
                + vstd::bytes::spec_u64_to_le_bytes(newer@.len() as u64)
                + vstd::bytes::spec_u32_to_le_bytes(nchunks as u32),
            out@ == head + patch::chunks_bytes(gcds),
            gcds.len() == i,
            forall|j: int|
                0 <= j < i ==> {
                    let cd = #[trigger] gcds[j];
                    &&& cd.new_start == chunks@[j].new_start as u64
                    &&& cd.new_len == chunks@[j].new_len as u64
                    &&& cd.raw_len <= usize::MAX
                    &&& cd.data.len() < 0x1_0000_0000_0000_0000
                    &&& cd.old_start == 0
                    &&& patch::chunk_applies(
                        gcds[j],
                        older@,
                        newer@.subrange(cd.new_start as int, cd.new_start + cd.new_len),
                    )
                },
        decreases nchunks - i,
    {
        let cm = &chunks[i];
        let ghost pre_out = out@;
        write_chunk_record(
            &mut out,
            older,
            newer,
            cm.new_start,
            cm.new_len,
            &cm.matches,
            zstd_level,
        );
        proof {
            let cd = choose|cd: patch::ChunkDesc|
                {
                    &&& out@ == pre_out + #[trigger] patch::chunk_bytes(cd)
                    &&& cd.old_start == 0
                    &&& cd.new_start == cm.new_start as u64
                    &&& cd.new_len == cm.new_len as u64
                    &&& cd.raw_len <= usize::MAX
                    &&& cd.data.len() < 0x1_0000_0000_0000_0000
                    &&& patch::chunk_applies(
                        cd,
                        older@,
                        newer@.subrange(cm.new_start as int, cm.new_start + cm.new_len),
                    )
                };
            patch::lemma_chunks_bytes_push(gcds, cd);
            gcds = gcds.push(cd);
            assert(out@ =~= head + patch::chunks_bytes(gcds));
        }
        i = i + 1;
    }
    proof {
        assert(patch::chunks_tile(gcds, newer@, older@)) by {
            assert(gcds[0].new_start == 0);
            assert(gcds[gcds.len() - 1].new_start + gcds[gcds.len() - 1].new_len
                == newer@.len());
            assert forall|j: int| 0 < j < gcds.len() implies (#[trigger] gcds[j]).new_start
                == gcds[j - 1].new_start + gcds[j - 1].new_len by {
                assert(chunks@[j].new_start == chunks@[j - 1].new_start + chunks@[j - 1].new_len);
            }
        }
        assert(chunk_desc_layout(gcds, newer@.len(), params.spec_scan_chunk_size())) by {
            match params.spec_scan_chunk_size() {
                Some(c) => {
                    assert forall|j: int| 0 <= j < gcds.len() implies (#[trigger] gcds[j]).new_start
                        as int == j * c && gcds[j].new_len as int == chunk_at(
                        newer@.len() as int,
                        c as int,
                        j,
                    ) by {
                        assert(chunks@[j].new_start == j * c);
                        assert(chunks@[j].new_len as int == chunk_at(
                            newer@.len() as int,
                            c as int,
                            j,
                        ));
                    }
                },
                None => {},
            }
        }
        assert(out@ =~= patch::chunked_patch_bytes(newer@.len() as u64, gcds));
    }
    out
}

/// Diff two buffers, translate the matches to controls, apply the controls
/// back onto the old buffer, and check — statically — that the result is
/// the new buffer again.
pub fn assert_cycle(older: &[u8], newer: &[u8])
    requires
        older@.len() < 0x1_0000_0000,
        newer@.len() < 0x1_0000_0000,
{
    let params = DiffParams::default();
    assert_cycle_with_params(older, newer, &params);
}

/// Like [`assert_cycle`], with explicit parameters. The reconstruction
/// equality is a verified fact, not a runtime check: the body proves that
/// the applied output equals the new buffer.
pub fn assert_cycle_with_params(older: &[u8], newer: &[u8], params: &DiffParams)
    requires
        params.wf(),
        older@.len() < 0x1_0000_0000,
        newer@.len() < 0x1_0000_0000,
{
    let ms = diff(older, newer, params);
    let mut translator = Translator::new(older, newer);
    let mut cs: Vec<Control> = Vec::new();
    let mlen = ms.len();
    let mut i: usize = 0;
    while i < mlen
        invariant
            i <= mlen,
            mlen == ms@.len(),
            matches_cover(ms@, older@.len(), newer@.len()),
            translator.wf(),
            translator.spec_obuf() == older@,
            translator.spec_nbuf() == newer@,
            !translator.spec_closed(),
            translator.spec_prev() == (if i == 0 {
                None
            } else {
                Some(ms@[i - 1])
            }),
            cs@.len() == (if i == 0 {
                0int
            } else {
                i - 1
            }),
            forall|j: int|
                0 <= j < cs@.len() ==> control_for(
                    older@,
                    newer@,
                    ms@[j],
                    Some(ms@[j + 1]),
                    #[trigger] cs@[j],
                ),
        decreases mlen - i,
    {
        proof {
            assert(match_wf(ms@[i as int], older@.len(), newer@.len()));
        }
        match translator.translate(ms[i]) {
            Some(c) => {
                cs.push(c);
            },
            None => {},
        }
        i = i + 1;
    }
    match translator.close() {
        Some(c) => {
            cs.push(c);
        },
        None => {},
    }
    proof {
        assert(controls_match(older@, newer@, ms@, cs@));
        lemma_patch_round_trip(older@, newer@, ms@, cs@);
    }
    let fresh = apply_controls(&cs, older);
    match fresh {
        Some(v) => {
            assert(v@ == newer@);
        },
        None => {
            assert(false);
        },
    }
}

} // verus!
