//! Byte-comparison helpers shared by the index and the differ.

use vstd::prelude::*;

verus! {

/// Number of positions `i < min(|a|, |b|)` at which `a[i] == b[i]`.
pub open spec fn matching_bytes(a: Seq<u8>, b: Seq<u8>) -> nat
    decreases a.len(),
{
    if a.len() == 0 || b.len() == 0 {
        0
    } else {
        (if a[0] == b[0] {
            1nat
        } else {
            0nat
        }) + matching_bytes(a.drop_first(), b.drop_first())
    }
}

pub proof fn lemma_matching_bytes_bound(a: Seq<u8>, b: Seq<u8>)
    ensures
        matching_bytes(a, b) <= a.len(),
        matching_bytes(a, b) <= b.len(),
    decreases a.len(),
{
    if a.len() != 0 && b.len() != 0 {
        lemma_matching_bytes_bound(a.drop_first(), b.drop_first());
    }
}

/// Length of the longest common prefix of `a` and `b`.
pub open spec fn common_prefix(a: Seq<u8>, b: Seq<u8>) -> nat
    decreases a.len(),
{
    if a.len() == 0 || b.len() == 0 {
        0
    } else if a[0] != b[0] {
        0
    } else {
        1 + common_prefix(a.drop_first(), b.drop_first())
    }
}

pub proof fn lemma_common_prefix_spec(a: Seq<u8>, b: Seq<u8>)
    ensures
        common_prefix(a, b) <= a.len(),
        common_prefix(a, b) <= b.len(),
        forall|i: int| 0 <= i < common_prefix(a, b) ==> a[i] == b[i],
        common_prefix(a, b) < a.len() && common_prefix(a, b) < b.len() ==> a[common_prefix(
            a,
            b,
        ) as int] != b[common_prefix(a, b) as int],
    decreases a.len(),
{
    if a.len() != 0 && b.len() != 0 && a[0] == b[0] {
        lemma_common_prefix_spec(a.drop_first(), b.drop_first());
        assert forall|i: int| 0 <= i < common_prefix(a, b) implies a[i] == b[i] by {
            if i > 0 {
                assert(a.drop_first()[i - 1] == b.drop_first()[i - 1]);
            }
        }
    }
}

/// Largest `k` with `a[..k] == b[..k]` and `k <= min(|a|, |b|)`.
pub fn common_prefix_len(a: &[u8], b: &[u8]) -> (r: usize)
    ensures
        r == common_prefix(a@, b@),
{
    let n = if a.len() < b.len() {
        a.len()
    } else {
        b.len()
    };
    let mut i: usize = 0;
    while i < n
        invariant
            0 <= i <= n,
            n == if a@.len() < b@.len() {
                a@.len()
            } else {
                b@.len()
            },
            forall|j: int| 0 <= j < i ==> a@[j] == b@[j],
        decreases n - i,
    {
        if a[i] != b[i] {
            proof {
                lemma_common_prefix_is(a@, b@, i as nat);
            }
            return i;
        }
        i = i + 1;
    }
    proof {
        lemma_common_prefix_is(a@, b@, n as nat);
    }
    n
}

/// A `k` that matches byte for byte and is either at the end of one input or
/// sits just before a mismatch is exactly the common prefix length.
proof fn lemma_common_prefix_is(a: Seq<u8>, b: Seq<u8>, k: nat)
    requires
        k <= a.len(),
        k <= b.len(),
        forall|j: int| 0 <= j < k ==> a[j] == b[j],
        k < a.len() && k < b.len() ==> a[k as int] != b[k as int],
    ensures
        common_prefix(a, b) == k,
    decreases k,
{
    if k == 0 {
    } else {
        assert(a[0] == b[0]);
        assert forall|j: int| 0 <= j < k - 1 implies a.drop_first()[j] == b.drop_first()[j] by {
            assert(a[j + 1] == b[j + 1]);
        }
        if (k - 1) < a.drop_first().len() && (k - 1) < b.drop_first().len() {
            assert(a.drop_first()[k - 1] == a[k as int]);
            assert(b.drop_first()[k - 1] == b[k as int]);
        }
        lemma_common_prefix_is(a.drop_first(), b.drop_first(), (k - 1) as nat);
    }
}

/// Number of bytes common to the fronts of `a` and `b`; same quantity as
/// [`common_prefix_len`], kept under the name the substring searcher uses.
pub fn matchlen(a: &[u8], b: &[u8]) -> (r: usize)
    ensures
        r == common_prefix(a@, b@),
{
    common_prefix_len(a, b)
}

/// Count matching bytes between two slices (up to the shorter length).
pub fn count_matching_bytes(a: &[u8], b: &[u8]) -> (r: usize)
    ensures
        r == matching_bytes(a@, b@),
        r <= a@.len(),
        r <= b@.len(),
{
    let n = if a.len() < b.len() {
        a.len()
    } else {
        b.len()
    };
    let mut i: usize = 0;
    let mut count: usize = 0;
    proof {
        lemma_matching_bytes_bound(a@, b@);
        assert(a@.skip(0) == a@);
        assert(b@.skip(0) == b@);
    }
    while i < n
        invariant
            0 <= i <= n,
            count <= i,
            n == if a@.len() < b@.len() {
                a@.len()
            } else {
                b@.len()
            },
            matching_bytes(a@, b@) == count + matching_bytes(a@.skip(i as int), b@.skip(i as int)),
        decreases n - i,
    {
        proof {
            assert(a@.skip(i as int).drop_first() == a@.skip(i + 1));
            assert(b@.skip(i as int).drop_first() == b@.skip(i + 1));
            assert(a@.skip(i as int)[0] == a@[i as int]);
            assert(b@.skip(i as int)[0] == b@[i as int]);
        }
        if a[i] == b[i] {
            count = count + 1;
        }
        i = i + 1;
    }
    proof {
        assert(a@.skip(i as int).len() == 0 || b@.skip(i as int).len() == 0);
    }
    count
}

/// `a[ai .. ai + len] == b[bi .. bi + len]`, compared byte by byte.
pub fn slice_eq_range(a: &[u8], ai: usize, b: &[u8], bi: usize, len: usize) -> (r: bool)
    requires
        ai + len <= a@.len(),
        bi + len <= b@.len(),
    ensures
        r <==> a@.subrange(ai as int, ai + len) == b@.subrange(bi as int, bi + len),
{
    let an = a.len();
    let bn = b.len();
    let mut i: usize = 0;
    while i < len
        invariant
            0 <= i <= len,
            ai + len <= an,
            bi + len <= bn,
            an == a@.len(),
            bn == b@.len(),
            forall|j: int| 0 <= j < i ==> #[trigger] a@[ai + j] == b@[bi + j],
        decreases len - i,
    {
        if a[ai + i] != b[bi + i] {
            proof {
                let sa = a@.subrange(ai as int, ai + len);
                let sb = b@.subrange(bi as int, bi + len);
                assert(sa[i as int] != sb[i as int]);
            }
            return false;
        }
        i = i + 1;
    }
    proof {
        let sa = a@.subrange(ai as int, ai + len);
        let sb = b@.subrange(bi as int, bi + len);
        assert forall|k: int| 0 <= k < len implies sa[k] == sb[k] by {
            assert(a@[ai + k] == b@[bi + k]);
        }
        assert(sa =~= sb);
    }
    true
}

} // verus!
