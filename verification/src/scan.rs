//! The bsdiff scan loop.
//!
//! The scanner walks the new buffer, querying the index for the longest
//! block-aligned match at each position and scoring it against how well the
//! previous match's alignment already explains the bytes. When a new match
//! is significantly better (or exactly as good, a stalemate that restarts
//! the scan), the region since the last emitted match is split into an ADD
//! prefix (extended forward from the last match), a literal COPY tail, and
//! the next alignment (extended backward from the new match), and one
//! [`Match`] is emitted. Successive matches tile the new buffer exactly.

use vstd::prelude::*;

use crate::Match;
use crate::match_wf;
use crate::bytes::count_matching_bytes;
use crate::hashindex::HashIndex;

verus! {

/// Scanner state: cursors into the new buffer (`scan`, `lastscan`), into
/// the old buffer (`pos`, `lastpos`), the last match's alignment shift
/// (`lastoffset`), and a block hash carried over from the previous lookup.
pub struct BsdiffIterator<'a> {
    scan: usize,
    pos: usize,
    length: usize,
    lastscan: usize,
    lastpos: usize,
    lastoffset: i64,
    cached_hash: Option<u64>,
    obuf: &'a [u8],
    nbuf: &'a [u8],
    sa: &'a HashIndex<'a>,
}

impl<'a> BsdiffIterator<'a> {
    /// The old buffer the scanner reads from.
    pub closed spec fn spec_obuf(self) -> Seq<u8> {
        self.obuf@
    }

    /// The new buffer the scanner covers.
    pub closed spec fn spec_nbuf(self) -> Seq<u8> {
        self.nbuf@
    }

    /// Everything before this position is covered by emitted matches.
    pub closed spec fn spec_lastscan(self) -> nat {
        self.lastscan as nat
    }

    /// Where the next match's ADD region begins in the old buffer.
    pub closed spec fn spec_lastpos(self) -> nat {
        self.lastpos as nat
    }

    /// A bound on the work left; every emitted match shrinks it.
    pub closed spec fn spec_measure(self) -> int {
        2 * (self.nbuf@.len() - self.scan) + (if self.length == 0 {
            1int
        } else {
            0int
        })
    }

    /// Structural soundness of the cursors.
    pub closed spec fn wf(self) -> bool {
        &&& self.sa.wf()
        &&& self.sa.spec_text() == self.obuf@
        &&& self.obuf@.len() < 0x1_0000_0000
        &&& self.nbuf@.len() < 0x1_0000_0000
        &&& self.scan <= self.nbuf@.len()
        &&& self.lastscan <= self.scan
        &&& self.lastpos <= self.obuf@.len()
        &&& self.pos <= self.obuf@.len()
        &&& -0x1_0000_0000 <= self.lastoffset <= 0x1_0000_0000
        &&& (self.scan < self.nbuf@.len() ==> self.scan + self.length <= self.nbuf@.len())
        &&& (self.scan == self.nbuf@.len() ==> self.lastscan == self.nbuf@.len())
    }

    /// A fresh scanner over `obuf` and `nbuf`, using `sa` as the substring
    /// index over `obuf`.
    pub fn new(obuf: &'a [u8], nbuf: &'a [u8], sa: &'a HashIndex<'a>) -> (r: Self)
        requires
            sa.wf(),
            sa.spec_text() == obuf@,
            obuf@.len() < 0x1_0000_0000,
            nbuf@.len() < 0x1_0000_0000,
        ensures
            r.wf(),
            r.spec_obuf() == obuf@,
            r.spec_nbuf() == nbuf@,
            r.spec_lastscan() == 0,
            r.spec_lastpos() == 0,
            r.spec_measure() >= 0,
    {
        BsdiffIterator {
            scan: 0,
            pos: 0,
            length: 0,
            lastscan: 0,
            lastpos: 0,
            lastoffset: 0,
            cached_hash: None,
            obuf,
            nbuf,
            sa,
        }
    }

    /// Produce the next match of the cover, or nothing once the matches
    /// emitted so far reach the end of the new buffer.
    pub fn next(&mut self) -> (r: Option<Match>)
        requires
            old(self).wf(),
        ensures
            final(self).wf(),
            final(self).spec_obuf() == old(self).spec_obuf(),
            final(self).spec_nbuf() == old(self).spec_nbuf(),
            final(self).spec_measure() >= 0,
            match r {
                Some(m) => {
                    &&& m.add_new_start == old(self).spec_lastscan()
                    &&& m.add_old_start == old(self).spec_lastpos()
                    &&& match_wf(m, old(self).spec_obuf().len(), old(self).spec_nbuf().len())
                    &&& final(self).spec_lastscan() == m.copy_end
                    &&& final(self).spec_measure() < old(self).spec_measure()
                },
                None => {
                    &&& old(self).spec_lastscan() == old(self).spec_nbuf().len()
                    &&& *final(self) == *old(self)
                },
            },
            old(self).spec_nbuf().len() == 0 ==> r is None,
    {
        let obuflen = self.obuf.len();
        let nbuflen = self.nbuf.len();
        let ghost g_scan0 = self.scan;
        let ghost g_len0 = self.length;

        while self.scan < nbuflen
            invariant
                self.wf(),
                self.sa == old(self).sa,
                self.obuf == old(self).obuf,
                self.nbuf == old(self).nbuf,
                self.lastscan == old(self).lastscan,
                self.lastpos == old(self).lastpos,
                self.lastoffset == old(self).lastoffset,
                obuflen == self.obuf@.len(),
                nbuflen == self.nbuf@.len(),
                g_scan0 == old(self).scan,
                g_len0 == old(self).length,
                self.scan >= g_scan0,
                self.scan == g_scan0 && self.length == 0 ==> g_len0 == 0,
                self.scan == g_scan0 ==> self.length == g_len0 || self.length > 0,
                self.scan >= nbuflen ==> self.scan == old(self).scan && self.pos == old(
                    self,
                ).pos && self.length == old(self).length && self.cached_hash == old(
                    self,
                ).cached_hash,
            ensures
                self.wf(),
                self.sa == old(self).sa,
                self.obuf == old(self).obuf,
                self.nbuf == old(self).nbuf,
                self.lastscan == old(self).lastscan,
                self.lastpos == old(self).lastpos,
                self.scan >= nbuflen,
                nbuflen == self.nbuf@.len(),
                self.scan == old(self).scan && self.pos == old(self).pos && self.length == old(
                    self,
                ).length && self.cached_hash == old(self).cached_hash,
                self.lastoffset == old(self).lastoffset,
            decreases 2 * (nbuflen - self.scan) + (if self.length == 0 {
                1int
            } else {
                0int
            }),
        {
            let mut oldscore: i64 = 0;
            self.scan = self.scan + self.length;
            let ghost g_iscan0 = self.scan;

            let mut scsc = self.scan;
            let mut broke = false;
            while self.scan < nbuflen && !broke
                invariant
                    self.sa.wf(),
                    self.sa.spec_text() == self.obuf@,
                    self.sa == old(self).sa,
                    self.obuf == old(self).obuf,
                    self.nbuf == old(self).nbuf,
                    self.lastscan == old(self).lastscan,
                    self.lastpos == old(self).lastpos,
                    self.lastoffset == old(self).lastoffset,
                    obuflen == self.obuf@.len(),
                    nbuflen == self.nbuf@.len(),
                    obuflen < 0x1_0000_0000,
                    nbuflen < 0x1_0000_0000,
                    self.scan <= nbuflen,
                    self.lastpos <= obuflen,
                    self.pos <= obuflen,
                    -0x1_0000_0000 <= self.lastoffset <= 0x1_0000_0000,
                    g_iscan0 <= self.scan,
                    self.lastscan <= g_iscan0,
                    scsc <= nbuflen,
                    (g_iscan0 as int) - (self.scan as int) <= oldscore as int <= scsc as int,
                    broke ==> self.scan < nbuflen && self.scan + self.length <= nbuflen
                        && self.pos + self.length <= obuflen && (self.length as int > oldscore + 8
                        || (self.length as int == oldscore as int && self.length != 0)),
                decreases nbuflen - self.scan, 1int - (if broke {
                    1int
                } else {
                    0int
                }),
            {
                let needle = vstd::slice::slice_subrange(self.nbuf, self.scan, nbuflen);
                let res = match self.cached_hash {
                    Some(h) => {
                        self.cached_hash = None;
                        self.sa.longest_substring_match_with_hash(needle, h)
                    },
                    None => self.sa.longest_substring_match(needle),
                };
                self.cached_hash = if self.scan + 1 < nbuflen {
                    self.sa.prefetch_block(
                        vstd::slice::slice_subrange(self.nbuf, self.scan + 1, nbuflen),
                    )
                } else {
                    None
                };
                self.pos = res.start;
                self.length = res.len;

                let end = self.scan + self.length;
                if scsc < end {
                    let o_start_s: i64 = scsc as i64 + self.lastoffset;
                    let o_end_s: i64 = end as i64 + self.lastoffset;
                    if o_start_s >= 0 && o_end_s <= obuflen as i64 {
                        let o_start = o_start_s as usize;
                        let c = count_matching_bytes(
                            vstd::slice::slice_subrange(self.obuf, o_start, o_start + (end - scsc)),
                            vstd::slice::slice_subrange(self.nbuf, scsc, end),
                        );
                        oldscore = oldscore + c as i64;
                    } else {
                        let ghost pre_score = oldscore;
                        let mut i = scsc;
                        while i < end
                            invariant
                                scsc <= i <= end,
                                end <= nbuflen,
                                obuflen == self.obuf@.len(),
                                nbuflen == self.nbuf@.len(),
                                obuflen < 0x1_0000_0000,
                                nbuflen < 0x1_0000_0000,
                                -0x1_0000_0000 <= self.lastoffset <= 0x1_0000_0000,
                                pre_score as int <= oldscore as int <= pre_score as int + i - scsc,
                                pre_score as int <= scsc as int,
                                pre_score as int >= -0x1_0000_0000,
                            decreases end - i,
                        {
                            let oi_s: i64 = i as i64 + self.lastoffset;
                            if oi_s >= 0 && oi_s < obuflen as i64 {
                                if self.obuf[oi_s as usize] == self.nbuf[i] {
                                    oldscore = oldscore + 1;
                                }
                            }
                            i = i + 1;
                        }
                    }
                    scsc = end;
                }

                let significantly_better = (self.length as i64) > oldscore + 8;
                let same_length = (self.length as i64) == oldscore && self.length != 0;

                if same_length || significantly_better {
                    self.cached_hash = if self.scan + self.length < nbuflen {
                        self.sa.prefetch_block(
                            vstd::slice::slice_subrange(
                                self.nbuf,
                                self.scan + self.length,
                                nbuflen,
                            ),
                        )
                    } else {
                        None
                    };
                    broke = true;
                } else {
                    let oi_s: i64 = self.scan as i64 + self.lastoffset;
                    if oi_s >= 0 && oi_s < obuflen as i64 {
                        if self.obuf[oi_s as usize] == self.nbuf[self.scan] {
                            oldscore = oldscore - 1;
                        }
                    }
                    self.scan = self.scan + 1;
                }
            }

            let done_scanning = self.scan == nbuflen;
            if (self.length as i64) != oldscore || done_scanning {
                // Forward extension from the end of the last emitted match.
                let lenf = {
                    let d = self.scan - self.lastscan;
                    let rem = obuflen - self.lastpos;
                    let n = if d < rem {
                        d
                    } else {
                        rem
                    };
                    let mut s: i64 = 0;
                    let mut sf: i64 = 0;
                    let mut lenf: usize = 0;
                    let mut i: usize = 0;
                    while i < n
                        invariant
                            i <= n,
                            n <= self.scan - self.lastscan,
                            self.lastpos + n <= obuflen,
                            self.lastscan + n <= self.scan <= nbuflen,
                            obuflen == self.obuf@.len(),
                            nbuflen == self.nbuf@.len(),
                            nbuflen < 0x1_0000_0000,
                            obuflen < 0x1_0000_0000,
                            0 <= s <= i,
                            0 <= sf <= i,
                            lenf <= i,
                        decreases n - i,
                    {
                        if self.obuf[self.lastpos + i] == self.nbuf[self.lastscan + i] {
                            s = s + 1;
                        }
                        let ip1 = i + 1;
                        if s * 2 - (ip1 as i64) > sf * 2 - (lenf as i64) {
                            sf = s;
                            lenf = ip1;
                        }
                        i = i + 1;
                    }
                    lenf
                };

                // Backward extension from the new match.
                let lenb = if self.scan >= nbuflen {
                    0usize
                } else {
                    let d = self.scan - self.lastscan;
                    let n = if d < self.pos {
                        d
                    } else {
                        self.pos
                    };
                    let mut s: i64 = 0;
                    let mut sb: i64 = 0;
                    let mut lenb: usize = 0;
                    let mut i: usize = 0;
                    while i < n
                        invariant
                            0 <= i <= n,
                            n <= self.scan - self.lastscan,
                            n <= self.pos <= obuflen,
                            self.scan <= nbuflen,
                            obuflen == self.obuf@.len(),
                            nbuflen == self.nbuf@.len(),
                            nbuflen < 0x1_0000_0000,
                            obuflen < 0x1_0000_0000,
                            0 <= s <= i,
                            0 <= sb <= i,
                            lenb <= i,
                        decreases n - i,
                    {
                        let j = i + 1;
                        if self.obuf[self.pos - j] == self.nbuf[self.scan - j] {
                            s = s + 1;
                        }
                        if s * 2 - (j as i64) > sb * 2 - (lenb as i64) {
                            sb = s;
                            lenb = j;
                        }
                        i = j;
                    }
                    lenb
                };

                // Resolve an overlap between the forward and backward
                // extensions by scoring which side owns each byte.
                let (lenf, lenb) = if self.lastscan + lenf > self.scan - lenb {
                    let overlap = (self.lastscan + lenf) - (self.scan - lenb);
                    let lens = {
                        let mut s: i64 = 0;
                        let mut ss: i64 = 0;
                        let mut lens: usize = 0;
                        let mut i: usize = 0;
                        while i < overlap
                            invariant
                                i <= overlap,
                                overlap <= lenb,
                                overlap <= lenf,
                                self.lastscan + lenf <= nbuflen,
                                self.lastpos + lenf <= obuflen,
                                self.scan - lenb + overlap <= nbuflen,
                                lenb <= self.pos <= obuflen,
                                lenb <= self.scan,
                                obuflen == self.obuf@.len(),
                                nbuflen == self.nbuf@.len(),
                                nbuflen < 0x1_0000_0000,
                                obuflen < 0x1_0000_0000,
                                -(i as int) <= s as int <= i as int,
                                0 <= ss <= i,
                                lens <= i,
                            decreases overlap - i,
                        {
                            if self.nbuf[self.lastscan + lenf - overlap + i] == self.obuf[self.lastpos
                                + lenf - overlap + i] {
                                s = s + 1;
                            }
                            if self.nbuf[self.scan - lenb + i] == self.obuf[self.pos - lenb + i] {
                                s = s - 1;
                            }
                            if s > ss {
                                ss = s;
                                lens = i + 1;
                            }
                            i = i + 1;
                        }
                        lens
                    };
                    ((lenf - overlap) + lens, lenb - lens)
                } else {
                    (lenf, lenb)
                };

                let m = Match {
                    add_old_start: self.lastpos,
                    add_new_start: self.lastscan,
                    add_length: lenf,
                    copy_end: self.scan - lenb,
                };

                self.lastscan = self.scan - lenb;
                self.lastpos = self.pos - lenb;
                self.lastoffset = (self.pos as i64) - (self.scan as i64);

                return Some(m);
            }
        }

        None
    }
}

} // verus!
