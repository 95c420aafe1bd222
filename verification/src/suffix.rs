//! A suffix-array substring index: the heavyweight alternative to the
//! block-hash index, finding matches at arbitrary (not only block-aligned)
//! positions at the price of a full sort of the text's suffixes.
//!
//! The array holds every suffix start of the text, including the empty
//! suffix at its very end, ordered lexicographically; a query walks the
//! array by binary search and extends the best candidate byte by byte.

use vstd::prelude::*;

use crate::bytes::common_prefix;
use crate::bytes::lemma_common_prefix_spec;
use crate::bytes::matchlen;
use crate::hashindex::LongestCommonSubstring;

verus! {

/// Strict lexicographic order on byte sequences: the empty sequence comes
/// first, otherwise the first differing byte decides.
pub open spec fn seq_lt(a: Seq<u8>, b: Seq<u8>) -> bool
    decreases a.len(),
{
    if b.len() == 0 {
        false
    } else if a.len() == 0 {
        true
    } else if a[0] < b[0] {
        true
    } else if a[0] > b[0] {
        false
    } else {
        seq_lt(a.drop_first(), b.drop_first())
    }
}

/// The order is total: two sequences compare one way, the other way, or
/// are equal.
pub proof fn lemma_seq_lt_total(a: Seq<u8>, b: Seq<u8>)
    ensures
        seq_lt(a, b) || seq_lt(b, a) || a == b,
    decreases a.len(),
{
    if a.len() != 0 && b.len() != 0 && a[0] == b[0] {
        lemma_seq_lt_total(a.drop_first(), b.drop_first());
        if a.drop_first() == b.drop_first() {
            assert forall|q: int| 0 <= q < a.len() implies a[q] == b[q] by {
                if q > 0 {
                    assert(a.drop_first()[q - 1] == b.drop_first()[q - 1]);
                }
            }
            assert(a =~= b);
        }
    } else if a.len() == 0 && b.len() == 0 {
        assert(a =~= b);
    }
}

/// Whether `a` comes strictly before `b` lexicographically.
fn lex_less(a: &[u8], b: &[u8]) -> (r: bool)
    ensures
        r == seq_lt(a@, b@),
{
    let an = a.len();
    let bn = b.len();
    let mut k: usize = 0;
    proof {
        assert(a@.skip(0) == a@);
        assert(b@.skip(0) == b@);
    }
    while k < an && k < bn
        invariant
            k <= an,
            k <= bn,
            an == a@.len(),
            bn == b@.len(),
            seq_lt(a@, b@) == seq_lt(a@.skip(k as int), b@.skip(k as int)),
        decreases an - k,
    {
        proof {
            assert(a@.skip(k as int)[0] == a@[k as int]);
            assert(b@.skip(k as int)[0] == b@[k as int]);
            assert(a@.skip(k as int).drop_first() == a@.skip(k + 1));
            assert(b@.skip(k as int).drop_first() == b@.skip(k + 1));
        }
        if a[k] < b[k] {
            return true;
        }
        if a[k] > b[k] {
            return false;
        }
        k = k + 1;
    }
    proof {
        assert(a@.skip(k as int).len() == 0 || b@.skip(k as int).len() == 0);
    }
    k >= an && k < bn
}

/// An index over all suffixes of a text, in lexicographic order.
pub struct SuffixArray<'a> {
    text: &'a [u8],
    indices: Vec<usize>,
}

/// Some entry of `indices` equals `v`.
pub open spec fn has_position(indices: Seq<usize>, v: int) -> bool {
    exists|k: int| 0 <= k < indices.len() && (#[trigger] indices[k]) == v as usize
}

/// The suffix of `text` starting at `indices[k]`.
pub open spec fn suffix_at(text: Seq<u8>, indices: Seq<usize>, k: int) -> Seq<u8> {
    text.skip(indices[k] as int)
}

impl<'a> SuffixArray<'a> {
    /// The indexed text.
    pub closed spec fn spec_text(self) -> Seq<u8> {
        self.text@
    }

    /// The suffix starts, in order.
    pub closed spec fn spec_indices(self) -> Seq<usize> {
        self.indices@
    }

    /// One entry per suffix (the empty one included), every entry inside
    /// the text, every position present, no entry twice, and suffixes in
    /// strictly increasing lexicographic order.
    pub closed spec fn wf(self) -> bool {
        &&& self.indices@.len() == self.text@.len() + 1
        &&& forall|k: int| 0 <= k < self.indices@.len() ==> (#[trigger] self.indices@[k]) <= self.text@.len()
        &&& forall|p: int, q: int|
            0 <= p < q < self.indices@.len() ==> (#[trigger] self.indices@[p]) != (
            #[trigger] self.indices@[q])
        &&& forall|p: int, q: int|
            0 <= p < q < self.indices@.len() ==> seq_lt(
                suffix_at(self.text@, self.indices@, p),
                suffix_at(self.text@, self.indices@, q),
            )
        &&& forall|v: int|
            0 <= v <= self.text@.len() ==> #[trigger] has_position(self.indices@, v)
    }

    /// Build the array by sorting every suffix start of `text`.
    pub fn new(text: &'a [u8]) -> (r: Self)
        requires
            text@.len() < usize::MAX,
        ensures
            r.wf(),
            r.spec_text() == text@,
    {
        let n = text.len();
        let mut indices: Vec<usize> = Vec::new();
        let mut v: usize = 0;
        while v <= n
            invariant
                v <= n + 1,
                n == text@.len(),
                n < usize::MAX,
                indices@.len() == v,
                forall|k: int| 0 <= k < v ==> (#[trigger] indices@[k]) == k,
            decreases n + 1 - v,
        {
            indices.push(v);
            v = v + 1;
        }
        let len = indices.len();
        proof {
            assert forall|v: int| 0 <= v <= n implies #[trigger] has_position(indices@, v) by {
                assert(indices@[v] == v as usize);
            }
        }
        let mut i: usize = 0;
        while i < len
            invariant
                i <= len,
                len == indices@.len(),
                len == text@.len() + 1,
                n == text@.len(),
                forall|k: int| 0 <= k < len ==> (#[trigger] indices@[k]) <= n,
                forall|p: int, q: int|
                    0 <= p < q < len ==> (#[trigger] indices@[p]) != (#[trigger] indices@[q]),
                forall|v: int| 0 <= v <= n ==> #[trigger] has_position(indices@, v),
                forall|p: int, q: int|
                    0 <= p < q < i ==> seq_lt(
                        suffix_at(text@, indices@, p),
                        suffix_at(text@, indices@, q),
                    ),
                forall|p: int, q: int|
                    0 <= p < i <= q < len ==> seq_lt(
                        suffix_at(text@, indices@, p),
                        suffix_at(text@, indices@, q),
                    ),
            decreases len - i,
        {
            let mut m = i;
            let mut j = i + 1;
            while j < len
                invariant
                    i <= m < j <= len,
                    len == indices@.len(),
                    n == text@.len(),
                    forall|k: int| 0 <= k < len ==> (#[trigger] indices@[k]) <= n,
                    forall|q: int|
                        i <= q < j ==> !seq_lt(
                            suffix_at(text@, indices@, q),
                            suffix_at(text@, indices@, m as int),
                        ) || q == m,
                decreases len - j,
            {
                let a = vstd::slice::slice_subrange(text, indices[j], n);
                let b = vstd::slice::slice_subrange(text, indices[m], n);
                let ghost m0 = m as int;
                if lex_less(a, b) {
                    m = j;
                    proof {
                        let sj = suffix_at(text@, indices@, j as int);
                        let sm0 = suffix_at(text@, indices@, m0);
                        assert(seq_lt(sj, sm0));
                        assert forall|q: int|
                            i <= q < j + 1 implies !seq_lt(
                            suffix_at(text@, indices@, q),
                            suffix_at(text@, indices@, j as int),
                        ) || q == j by {
                            let sq = suffix_at(text@, indices@, q);
                            if q == m0 {
                                lemma_seq_lt_asymmetric(sj, sm0);
                            } else if q < j {
                                if seq_lt(sq, sj) {
                                    lemma_seq_lt_trans(sq, sj, sm0);
                                }
                            }
                        }
                    }
                } else {
                    proof {
                        assert(!seq_lt(
                            suffix_at(text@, indices@, j as int),
                            suffix_at(text@, indices@, m as int),
                        ));
                    }
                }
                j = j + 1;
            }
            let ghost pre = indices@;
            let vi = indices[i];
            let vm = indices[m];
            indices.set(i, vm);
            indices.set(m, vi);
            proof {
                let ghost mf = m as int;
                // Where each new entry sat before the swap.
                let at = |q: int|
                    if q == i as int {
                        mf
                    } else if q == mf {
                        i as int
                    } else {
                        q
                    };
                assert forall|q: int| 0 <= q < len implies indices@[q] == pre[at(q)] by {}
                // Every entry before the hole still comes before every
                // entry from the hole on.
                assert forall|p: int, q: int|
                    0 <= p < i && i <= q < len implies seq_lt(
                    suffix_at(text@, indices@, p),
                    suffix_at(text@, indices@, q),
                ) by {
                    assert(indices@[p] == pre[p]);
                    assert(indices@[q] == pre[at(q)]);
                    assert(i as int <= at(q) < len);
                    assert(seq_lt(suffix_at(text@, pre, p), suffix_at(text@, pre, at(q))));
                }
                // The entry swapped into the hole comes before the rest of
                // the tail: it was the minimum.
                assert forall|q: int| i < q < len implies seq_lt(
                    suffix_at(text@, indices@, i as int),
                    suffix_at(text@, indices@, q),
                ) by {
                    let qv = at(q);
                    assert(indices@[i as int] == pre[mf]);
                    assert(indices@[q] == pre[qv]);
                    assert(i as int <= qv < len);
                    let sv = suffix_at(text@, pre, mf);
                    let sq = suffix_at(text@, pre, qv);
                    if qv != mf {
                        assert(!seq_lt(sq, sv));
                        lemma_seq_lt_total(sv, sq);
                        if sv == sq {
                            assert(sv.len() == text@.len() - pre[mf]);
                            assert(sq.len() == text@.len() - pre[qv]);
                            assert(pre[mf] != pre[qv]);
                            assert(false);
                        }
                        assert(seq_lt(sv, sq));
                    } else {
                        // Both q and i point at the old minimum only when
                        // the swap was a no-op and q is the hole itself,
                        // which q > i rules out.
                        assert(q == i as int || q == mf);
                        assert(mf == i as int);
                        assert(false);
                    }
                }
                // Pairs fully inside the sorted prefix are untouched.
                assert forall|p: int, q: int| 0 <= p < q < i implies seq_lt(
                    suffix_at(text@, indices@, p),
                    suffix_at(text@, indices@, q),
                ) by {
                    assert(indices@[p] == pre[p]);
                    assert(indices@[q] == pre[q]);
                    assert(seq_lt(suffix_at(text@, pre, p), suffix_at(text@, pre, q)));
                }
                // The swap moves values, it loses none.
                assert forall|v: int| 0 <= v <= n implies #[trigger] has_position(
                    indices@,
                    v,
                ) by {
                    assert(has_position(pre, v));
                    let k0 = choose|k0: int| 0 <= k0 < pre.len() && (#[trigger] pre[k0]) == v as usize;
                    let k1: int = if k0 == i as int {
                        mf
                    } else if k0 == mf {
                        i as int
                    } else {
                        k0
                    };
                    assert(indices@[k1] == pre[k0]);
                }
            }
            i = i + 1;
        }
        SuffixArray { text, indices }
    }

    /// Every adjacent pair of indexed suffixes is in order. The array is
    /// sorted by construction, so this always holds.
    pub fn check_valid(&self) -> (r: bool)
        requires
            self.wf(),
        ensures
            r,
    {
        let n = self.text.len();
        let len = self.indices.len();
        let mut k: usize = 0;
        while k + 1 < len
            invariant
                self.wf(),
                k < len,
                len == self.indices@.len(),
                n == self.text@.len(),
            decreases len - k,
        {
            let a = vstd::slice::slice_subrange(self.text, self.indices[k], n);
            let b = vstd::slice::slice_subrange(self.text, self.indices[k + 1], n);
            if lex_less(b, a) {
                proof {
                    assert(seq_lt(
                        suffix_at(self.text@, self.indices@, k as int),
                        suffix_at(self.text@, self.indices@, k + 1),
                    ));
                    lemma_seq_lt_asymmetric(
                        suffix_at(self.text@, self.indices@, k as int),
                        suffix_at(self.text@, self.indices@, k + 1),
                    );
                }
                return false;
            }
            k = k + 1;
        }
        true
    }

    /// The longest match the array finds for a prefix of `needle`: a
    /// substring of the text equal to the first `len` bytes of the needle,
    /// and no suffix of the text shares a longer prefix with the needle.
    pub fn search(&self, needle: &[u8]) -> (r: LongestCommonSubstring<'a>)
        requires
            self.wf(),
        ensures
            r.text@ == self.spec_text(),
            r.start + r.len <= self.spec_text().len(),
            r.len <= needle@.len(),
            self.spec_text().subrange(r.start as int, r.start + r.len) == needle@.take(
                r.len as int,
            ),
            forall|o: int|
                0 <= o <= self.spec_text().len() ==> common_prefix(
                    #[trigger] self.spec_text().skip(o),
                    needle@,
                ) <= r.len,
    {
        let r = self.do_search(needle, 0, self.text.len());
        proof {
            assert forall|o: int|
                0 <= o <= self.spec_text().len() implies common_prefix(
                #[trigger] self.spec_text().skip(o),
                needle@,
            ) <= r.len by {
                assert(has_position(self.indices@, o));
                let k = choose|k: int|
                    0 <= k < self.indices@.len() && (#[trigger] self.indices@[k]) == o as usize;
                assert(common_prefix(
                    self.spec_text().skip(self.spec_indices()[k] as int),
                    needle@,
                ) <= r.len);
            }
        }
        r
    }

    fn do_search(&self, needle: &[u8], st: usize, en: usize) -> (r: LongestCommonSubstring<'a>)
        requires
            self.wf(),
            st <= en <= self.spec_text().len(),
        ensures
            r.text@ == self.spec_text(),
            r.start + r.len <= self.spec_text().len(),
            r.len <= needle@.len(),
            self.spec_text().subrange(r.start as int, r.start + r.len) == needle@.take(
                r.len as int,
            ),
            forall|k: int|
                st <= k <= en ==> common_prefix(
                    #[trigger] self.spec_text().skip(self.spec_indices()[k] as int),
                    needle@,
                ) <= r.len,
        decreases en - st,
    {
        let n = self.text.len();
        if en - st < 2 {
            let is = self.indices[st];
            let ie = self.indices[en];
            let ts = vstd::slice::slice_subrange(self.text, is, n);
            let te = vstd::slice::slice_subrange(self.text, ie, n);
            let x = matchlen(ts, needle);
            let y = matchlen(te, needle);
            proof {
                assert(ts@ =~= self.text@.skip(is as int));
                assert(te@ =~= self.text@.skip(ie as int));
                lemma_common_prefix_spec(self.text@.skip(is as int), needle@);
                lemma_common_prefix_spec(self.text@.skip(ie as int), needle@);
            }
            if x > y {
                proof {
                    lemma_match_is_substring(self.text@, is as int, x as int, needle@);
                }
                self.lcs(is, x)
            } else {
                proof {
                    lemma_match_is_substring(self.text@, ie as int, y as int, needle@);
                }
                self.lcs(ie, y)
            }
        } else {
            let x = st + (en - st) / 2;
            let ix = self.indices[x];
            let rs = vstd::slice::slice_subrange(self.text, ix, n);
            proof {
                assert(rs@ =~= self.text@.skip(ix as int));
            }
            if lex_less(rs, needle) {
                let r = self.do_search(needle, x, en);
                proof {
                    let sx = self.spec_text().skip(self.spec_indices()[x as int] as int);
                    assert forall|k: int|
                        st <= k <= en implies common_prefix(
                        #[trigger] self.spec_text().skip(self.spec_indices()[k] as int),
                        needle@,
                    ) <= r.len by {
                        if k < x {
                            let sk = self.spec_text().skip(self.spec_indices()[k] as int);
                            assert(seq_lt(
                                suffix_at(self.text@, self.indices@, k),
                                suffix_at(self.text@, self.indices@, x as int),
                            ));
                            lemma_cp_sandwich(sk, sx, needle@);
                            assert(common_prefix(sx, needle@) <= r.len);
                        }
                    }
                }
                r
            } else {
                let r = self.do_search(needle, st, x);
                proof {
                    let sx = self.spec_text().skip(self.spec_indices()[x as int] as int);
                    lemma_seq_lt_total(needle@, sx);
                    assert forall|k: int|
                        st <= k <= en implies common_prefix(
                        #[trigger] self.spec_text().skip(self.spec_indices()[k] as int),
                        needle@,
                    ) <= r.len by {
                        if k > x {
                            let sk = self.spec_text().skip(self.spec_indices()[k] as int);
                            assert(seq_lt(
                                suffix_at(self.text@, self.indices@, x as int),
                                suffix_at(self.text@, self.indices@, k),
                            ));
                            lemma_cp_sandwich(needle@, sx, sk);
                            lemma_cp_sym(needle@, sk);
                            lemma_cp_sym(needle@, sx);
                            assert(common_prefix(sx, needle@) <= r.len);
                        }
                    }
                }
                r
            }
        }
    }

    fn lcs(&self, start: usize, len: usize) -> (r: LongestCommonSubstring<'a>)
        requires
            start + len <= self.spec_text().len(),
        ensures
            r.text@ == self.spec_text(),
            r.start == start,
            r.len == len,
    {
        LongestCommonSubstring { text: self.text, start, len }
    }
}

/// The common prefix length is symmetric in its arguments.
proof fn lemma_cp_sym(a: Seq<u8>, b: Seq<u8>)
    ensures
        common_prefix(a, b) == common_prefix(b, a),
    decreases a.len(),
{
    if a.len() != 0 && b.len() != 0 && a[0] == b[0] {
        lemma_cp_sym(a.drop_first(), b.drop_first());
    }
}

/// Between two ordered neighbours, the common prefix with anything beyond
/// them is no longer than with the nearer one.
proof fn lemma_cp_sandwich(a: Seq<u8>, b: Seq<u8>, c: Seq<u8>)
    requires
        seq_lt(a, b) || a == b,
        seq_lt(b, c) || b == c,
    ensures
        common_prefix(a, c) <= common_prefix(b, c),
        common_prefix(a, c) <= common_prefix(a, b),
    decreases a.len(),
{
    if common_prefix(a, c) > 0 {
        assert(a.len() != 0 && c.len() != 0 && a[0] == c[0]);
        assert(b.len() != 0) by {
            if b.len() == 0 {
                assert(!(seq_lt(a, b) || a == b));
            }
        }
        assert(a[0] == b[0] && b[0] == c[0]) by {
            if a != b {
                assert(seq_lt(a, b));
            }
            if b != c {
                assert(seq_lt(b, c));
            }
        }
        assert(seq_lt(a.drop_first(), b.drop_first()) || a.drop_first() == b.drop_first()) by {
            if a != b {
                assert(seq_lt(a, b));
                if a.drop_first() != b.drop_first() {
                    assert(seq_lt(a.drop_first(), b.drop_first()));
                }
            }
        }
        assert(seq_lt(b.drop_first(), c.drop_first()) || b.drop_first() == c.drop_first()) by {
            if b != c {
                assert(seq_lt(b, c));
                if b.drop_first() != c.drop_first() {
                    assert(seq_lt(b.drop_first(), c.drop_first()));
                }
            }
        }
        lemma_cp_sandwich(a.drop_first(), b.drop_first(), c.drop_first());
    }
}

/// The order composes: what comes before `b` comes before anything after
/// `b`.
proof fn lemma_seq_lt_trans(a: Seq<u8>, b: Seq<u8>, c: Seq<u8>)
    requires
        seq_lt(a, b),
        seq_lt(b, c),
    ensures
        seq_lt(a, c),
    decreases a.len(),
{
    if a.len() != 0 && b.len() != 0 && c.len() != 0 && a[0] == b[0] && b[0] == c[0] {
        lemma_seq_lt_trans(a.drop_first(), b.drop_first(), c.drop_first());
    }
}

/// Two sequences cannot each come strictly before the other.
proof fn lemma_seq_lt_asymmetric(a: Seq<u8>, b: Seq<u8>)
    requires
        seq_lt(a, b),
    ensures
        !seq_lt(b, a),
    decreases a.len(),
{
    if a.len() != 0 && b.len() != 0 && a[0] == b[0] {
        lemma_seq_lt_asymmetric(a.drop_first(), b.drop_first());
    }
}

/// A common prefix of a suffix of the text and the needle is a substring
/// of the text matching the needle's prefix.
proof fn lemma_match_is_substring(text: Seq<u8>, start: int, len: int, needle: Seq<u8>)
    requires
        0 <= start <= text.len(),
        0 <= len,
        len == common_prefix(text.skip(start), needle),
    ensures
        start + len <= text.len(),
        len <= needle.len(),
        text.subrange(start, start + len) == needle.take(len),
{
    lemma_common_prefix_spec(text.skip(start), needle);
    assert forall|q: int| 0 <= q < len implies text.subrange(start, start + len)[q]
        == needle.take(len)[q] by {
        assert(text.skip(start)[q] == needle[q]);
    }
    assert(text.subrange(start, start + len) =~= needle.take(len));
}

} // verus!
