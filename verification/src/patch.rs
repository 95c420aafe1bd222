//! Reading patches back: parsing the control stream and applying it.
//!
//! The parser accepts both forms of each tagged varint: a literal ADD
//! (delta bytes in the stream) or an all-zero ADD (no bytes), and a
//! literal COPY or a copy out of the old file. Parsing a stream that the
//! writer produced yields the very controls that were written.

use vstd::prelude::*;

use crate::Control;
use crate::enc::MAGIC;
use crate::enc::VERSION;
use crate::enc::all_zero;
use crate::enc::control_bytes;
use crate::enc::control_wf;
use crate::enc::header_bytes;
use crate::enc::stream_bytes;
use crate::varint::read_varint_i64;
use crate::varint::read_varint_u64;
use crate::varint::varint_bytes;
use crate::varint::zigzag;

verus! {

/// Why a patch could not be decoded.
#[derive(Clone, Copy, Debug, PartialEq, Eq, Structural)]
pub enum DecodeError {
    /// The input ended inside a header, a varint, or a record's bytes.
    Truncated,
    /// The first header word is not the patch magic.
    WrongMagic(u32),
    /// The second header word is not the supported version.
    WrongVersion(u32),
    /// A record refers to data that does not exist.
    Corrupt,
}

/// Every control in the stream respects the format's size discipline.
pub open spec fn stream_wf(cs: Seq<Control>) -> bool {
    forall|i: int| 0 <= i < cs.len() ==> control_wf(#[trigger] cs[i])
}

/// Field-wise sameness of two control sequences; enough for them to apply
/// identically.
pub open spec fn controls_equiv(a: Seq<Control>, b: Seq<Control>) -> bool {
    &&& a.len() == b.len()
    &&& forall|i: int|
        0 <= i < a.len() ==> (#[trigger] a[i]).add@ == b[i].add@ && a[i].copy@ == b[i].copy@
            && a[i].seek == b[i].seek
}

/// Controls that agree field-wise apply identically.
pub proof fn lemma_equiv_apply(a: Seq<Control>, b: Seq<Control>, obuf: Seq<u8>, pos: int, acc: Seq<u8>)
    requires
        controls_equiv(a, b),
    ensures
        crate::apply_controls_from(a, obuf, pos, acc) == crate::apply_controls_from(
            b,
            obuf,
            pos,
            acc,
        ),
    decreases a.len(),
{
    if a.len() > 0 {
        assert(a[0].add@ == b[0].add@ && a[0].copy@ == b[0].copy@ && a[0].seek == b[0].seek);
        assert(controls_equiv(a.drop_first(), b.drop_first())) by {
            assert forall|i: int| 0 <= i < a.drop_first().len() implies (#[trigger] a.drop_first()[i]).add@
                == b.drop_first()[i].add@ && a.drop_first()[i].copy@ == b.drop_first()[i].copy@
                && a.drop_first()[i].seek == b.drop_first()[i].seek by {
                assert(a[i + 1].add@ == b[i + 1].add@ && a[i + 1].copy@ == b[i + 1].copy@ && a[i
                    + 1].seek == b[i + 1].seek);
            }
        }
        if !(pos < 0 || pos + a[0].add@.len() > obuf.len()) {
            lemma_equiv_apply(
                a.drop_first(),
                b.drop_first(),
                obuf,
                pos + a[0].add@.len() + a[0].seek,
                acc + Seq::new(
                    a[0].add@.len(),
                    |i: int| vstd::wrapping::u8_specs::wrapping_add(a[0].add@[i], obuf[pos + i]),
                ) + a[0].copy@,
            );
        }
    }
}

/// A vector of `n` zero bytes.
fn zeros(n: usize) -> (r: Vec<u8>)
    ensures
        r@.len() == n,
        all_zero(r@),
{
    let mut out: Vec<u8> = Vec::new();
    let mut i: usize = 0;
    while i < n
        invariant
            i <= n,
            out@.len() == i,
            forall|j: int| 0 <= j < i ==> out@[j] == 0,
        decreases n - i,
    {
        out.push(0);
        i = i + 1;
    }
    out
}

/// Splitting a concatenation: the first part is a prefix and skipping it
/// leaves the second.
proof fn lemma_concat_split(x: Seq<u8>, a: Seq<u8>, b: Seq<u8>)
    requires
        x == a + b,
    ensures
        a.is_prefix_of(x),
        x.skip(a.len() as int) == b,
    {
    assert(a =~= x.take(a.len() as int));
    assert(x.skip(a.len() as int) =~= b);
}

/// A non-empty encoded stream comes from a non-empty control sequence,
/// and decomposes into its first record and the rest.
proof fn lemma_stream_step(cs: Seq<Control>, k: int)
    requires
        0 <= k < cs.len(),
    ensures
        stream_bytes(cs.skip(k)) == control_bytes(cs[k]) + stream_bytes(cs.skip(k + 1)),
{
    assert(cs.skip(k)[0] == cs[k]);
    assert(cs.skip(k).drop_first() =~= cs.skip(k + 1));
}

/// The three consecutive parts of one encoded control record.
pub open spec fn add_part(c: Control) -> Seq<u8> {
    if all_zero(c.add@) {
        varint_bytes(2 * c.add@.len() + 1)
    } else {
        varint_bytes(2 * c.add@.len()) + c.add@
    }
}

pub open spec fn copy_part(c: Control) -> Seq<u8> {
    varint_bytes(2 * c.copy@.len()) + c.copy@
}

pub open spec fn seek_part(c: Control) -> Seq<u8> {
    varint_bytes(zigzag(c.seek as int))
}

/// The COPY part in its copy-from-old form: a tagged length with the low
/// bit set, then the position in the old file the bytes come from.
pub open spec fn copy_part_old(c: Control, po: usize) -> Seq<u8> {
    varint_bytes(2 * c.copy@.len() + 1) + varint_bytes(po as nat)
}

proof fn lemma_control_parts(c: Control)
    ensures
        control_bytes(c) == add_part(c) + (copy_part(c) + seek_part(c)),
{
    assert(control_bytes(c) =~= add_part(c) + (copy_part(c) + seek_part(c)));
}

/// Parse the ADD part of a record: its tagged length varint and, unless
/// the tag marks an all-zero delta, its literal delta bytes.
#[verifier::rlimit(100)]
#[verifier::spinoff_prover]
fn parse_add(ctrl: &[u8], pos: usize) -> (r: Result<(Vec<u8>, usize), DecodeError>)
    requires
        pos <= ctrl@.len(),
    ensures
        match r {
            Ok((a, end)) => pos < end <= ctrl@.len(),
            Err(e) => e == DecodeError::Truncated || e == DecodeError::Corrupt,
        },
        forall|c: Control, rest: Seq<u8>|
            control_wf(c) && ctrl@.skip(pos as int) == #[trigger] (control_bytes(c) + rest) ==> (
            r matches Ok(x) && x.0@ == c.add@ && x.1 == pos + add_part(c).len() && ctrl@.skip(
                x.1 as int,
            ) == copy_part(c) + (seek_part(c) + rest)),
{
    let ctrl_len = ctrl.len();
    let add_tag_r = read_varint_u64(ctrl, pos);
    proof {
        assert forall|c: Control, rest: Seq<u8>|
            control_wf(c) && ctrl@.skip(pos as int) == #[trigger] (control_bytes(c) + rest)
            implies {
            let va: u64 = (if all_zero(c.add@) {
                2 * c.add@.len() + 1
            } else {
                2 * c.add@.len()
            }) as u64;
            add_tag_r == Some::<(u64, usize)>(
                (va, (pos + varint_bytes(va as nat).len()) as usize),
            )
        } by {
            lemma_control_parts(c);
            let va: nat = if all_zero(c.add@) {
                2 * c.add@.len() + 1
            } else {
                2 * c.add@.len()
            };
            if all_zero(c.add@) {
                assert(ctrl@.skip(pos as int) =~= varint_bytes(va) + (copy_part(c) + seek_part(c)
                    + rest));
                lemma_concat_split(
                    ctrl@.skip(pos as int),
                    varint_bytes(va),
                    copy_part(c) + seek_part(c) + rest,
                );
            } else {
                assert(ctrl@.skip(pos as int) =~= varint_bytes(va) + (c.add@ + (copy_part(c)
                    + seek_part(c) + rest)));
                lemma_concat_split(
                    ctrl@.skip(pos as int),
                    varint_bytes(va),
                    c.add@ + (copy_part(c) + seek_part(c) + rest),
                );
            }
        }
    }
    let (add_tag, p1) = match add_tag_r {
        Some(x) => x,
        None => {
            return Err(DecodeError::Truncated);
        },
    };
    let zero_add = add_tag % 2 == 1;
    let add_len_u64 = add_tag / 2;
    if add_len_u64 > (usize::MAX as u64) {
        return Err(DecodeError::Corrupt);
    }
    let add_len = add_len_u64 as usize;
    if zero_add {
        let a = zeros(add_len);
        proof {
            assert forall|c: Control, rest: Seq<u8>|
                control_wf(c) && ctrl@.skip(pos as int) == #[trigger] (control_bytes(c) + rest)
                implies a@ == c.add@ && p1 == pos + add_part(c).len() && ctrl@.skip(p1 as int)
                == copy_part(c) + (seek_part(c) + rest) by {
                lemma_control_parts(c);
                assert(all_zero(c.add@) && add_len == c.add@.len());
                assert(a@ =~= c.add@);
                let va: nat = 2 * c.add@.len() + 1;
                assert(ctrl@.skip(pos as int) =~= varint_bytes(va) + (copy_part(c) + (seek_part(c)
                    + rest)));
                lemma_concat_split(
                    ctrl@.skip(pos as int),
                    varint_bytes(va),
                    copy_part(c) + (seek_part(c) + rest),
                );
                assert(ctrl@.skip(p1 as int) =~= ctrl@.skip(pos as int).skip(
                    varint_bytes(va).len() as int,
                ));
            }
        }
        return Ok((a, p1));
    }
    if add_len > ctrl_len - p1 {
        proof {
            assert forall|c: Control, rest: Seq<u8>|
                control_wf(c) && ctrl@.skip(pos as int) == #[trigger] (control_bytes(c) + rest)
                implies false by {
                lemma_control_parts(c);
                assert(!all_zero(c.add@) && add_len == c.add@.len());
                let va: nat = 2 * c.add@.len();
                assert(ctrl@.skip(pos as int) =~= varint_bytes(va) + (c.add@ + (copy_part(c) + (
                seek_part(c) + rest))));
                lemma_concat_split(
                    ctrl@.skip(pos as int),
                    varint_bytes(va),
                    c.add@ + (copy_part(c) + (seek_part(c) + rest)),
                );
                assert(ctrl@.skip(p1 as int) == c.add@ + (copy_part(c) + (seek_part(c) + rest)))
                    by {
                    assert(ctrl@.skip(p1 as int) =~= ctrl@.skip(pos as int).skip(
                        varint_bytes(va).len() as int,
                    ));
                }
                assert(ctrl@.skip(p1 as int).len() == ctrl_len - p1);
            }
        }
        return Err(DecodeError::Truncated);
    }
    let a = vstd::slice::slice_to_vec(vstd::slice::slice_subrange(ctrl, p1, p1 + add_len));
    let end = p1 + add_len;
    proof {
        assert forall|c: Control, rest: Seq<u8>|
            control_wf(c) && ctrl@.skip(pos as int) == #[trigger] (control_bytes(c) + rest)
            implies a@ == c.add@ && end == pos + add_part(c).len() && ctrl@.skip(end as int)
            == copy_part(c) + (seek_part(c) + rest) by {
            lemma_control_parts(c);
            assert(!all_zero(c.add@) && add_len == c.add@.len());
            let va: nat = 2 * c.add@.len();
            assert(ctrl@.skip(pos as int) =~= (varint_bytes(va) + c.add@) + (copy_part(c) + (
            seek_part(c) + rest)));
            lemma_concat_split(
                ctrl@.skip(pos as int),
                varint_bytes(va) + c.add@,
                copy_part(c) + (seek_part(c) + rest),
            );
            assert(ctrl@.skip(end as int) =~= ctrl@.skip(pos as int).skip(
                (varint_bytes(va).len() + c.add@.len()) as int,
            ));
            assert(a@ =~= c.add@) by {
                assert forall|i: int| 0 <= i < c.add@.len() implies a@[i] == c.add@[i] by {
                    assert(ctrl@.skip(pos as int)[varint_bytes(va).len() + i] == (varint_bytes(va)
                        + c.add@)[varint_bytes(va).len() + i]);
                    assert(a@[i] == ctrl@[p1 + i]);
                    assert(ctrl@[pos + varint_bytes(va).len() + i] == ctrl@.skip(pos as int)[
                        varint_bytes(va).len() + i]);
                }
            }
        }
    }
    Ok((a, end))
}

/// Parse the COPY part of a record: its tagged length varint and either
/// literal bytes from the stream or a reference into the old file.
#[verifier::rlimit(60)]
#[verifier::spinoff_prover]
fn parse_copy(ctrl: &[u8], old: &[u8], pos: usize) -> (r: Result<(Vec<u8>, usize), DecodeError>)
    requires
        pos <= ctrl@.len(),
    ensures
        match r {
            Ok((cp, end)) => pos < end <= ctrl@.len(),
            Err(e) => e == DecodeError::Truncated || e == DecodeError::Corrupt,
        },
        forall|c: Control, rest: Seq<u8>|
            control_wf(c) && ctrl@.skip(pos as int) == #[trigger] (copy_part(c) + (seek_part(c)
                + rest)) ==> (r matches Ok(x) && x.0@ == c.copy@ && x.1 == pos
                + copy_part(c).len() && ctrl@.skip(x.1 as int) == seek_part(c) + rest),
        forall|c: Control, po: usize, rest: Seq<u8>|
            control_wf(c) && po + c.copy@.len() <= old@.len() && c.copy@ == old@.subrange(
                po as int,
                po + c.copy@.len(),
            ) && ctrl@.skip(pos as int) == #[trigger] (copy_part_old(c, po) + (seek_part(c)
                + rest)) ==> (r matches Ok(x) && x.0@ == c.copy@ && x.1 == pos + copy_part_old(
                c,
                po,
            ).len() && ctrl@.skip(x.1 as int) == seek_part(c) + rest),
{
    let ctrl_len = ctrl.len();
    let old_len = old.len();
    let copy_tag_r = read_varint_u64(ctrl, pos);
    proof {
        assert forall|c: Control, rest: Seq<u8>|
            control_wf(c) && ctrl@.skip(pos as int) == #[trigger] (copy_part(c) + (seek_part(c)
                + rest)) implies {
            let vc: u64 = (2 * c.copy@.len()) as u64;
            copy_tag_r == Some::<(u64, usize)>(
                (vc, (pos + varint_bytes(vc as nat).len()) as usize),
            )
        } by {
            let vc: nat = 2 * c.copy@.len();
            assert(ctrl@.skip(pos as int) =~= varint_bytes(vc) + (c.copy@ + (seek_part(c)
                + rest)));
            lemma_concat_split(
                ctrl@.skip(pos as int),
                varint_bytes(vc),
                c.copy@ + (seek_part(c) + rest),
            );
        }
        assert forall|c: Control, po: usize, rest: Seq<u8>|
            control_wf(c) && ctrl@.skip(pos as int) == #[trigger] (copy_part_old(c, po) + (
        seek_part(c) + rest)) implies {
            let vc: u64 = (2 * c.copy@.len() + 1) as u64;
            copy_tag_r == Some::<(u64, usize)>(
                (vc, (pos + varint_bytes(vc as nat).len()) as usize),
            )
        } by {
            let vc: nat = 2 * c.copy@.len() + 1;
            assert(ctrl@.skip(pos as int) =~= varint_bytes(vc) + (varint_bytes(po as nat) + (
            seek_part(c) + rest)));
            lemma_concat_split(
                ctrl@.skip(pos as int),
                varint_bytes(vc),
                varint_bytes(po as nat) + (seek_part(c) + rest),
            );
        }
    }
    let (copy_tag, p1) = match copy_tag_r {
        Some(x) => x,
        None => {
            return Err(DecodeError::Truncated);
        },
    };
    let copy_from_old = copy_tag % 2 == 1;
    let copy_len_u64 = copy_tag / 2;
    if copy_len_u64 > (usize::MAX as u64) {
        return Err(DecodeError::Corrupt);
    }
    let copy_len = copy_len_u64 as usize;
    if copy_from_old {
        proof {
            assert forall|c: Control, rest: Seq<u8>|
                control_wf(c) && ctrl@.skip(pos as int) == #[trigger] (copy_part(c) + (seek_part(
                    c,
                ) + rest)) implies false by {
                assert((2 * c.copy@.len()) % 2 == 0);
            }
        }
        let p_r = read_varint_u64(ctrl, p1);
        proof {
            assert forall|c: Control, po: usize, rest: Seq<u8>|
                control_wf(c) && ctrl@.skip(pos as int) == #[trigger] (copy_part_old(c, po) + (
            seek_part(c) + rest)) implies {
                p_r == Some::<(u64, usize)>(
                    (po as u64, (p1 + varint_bytes(po as nat).len()) as usize),
                )
            } by {
                let vc: nat = 2 * c.copy@.len() + 1;
                let tail = varint_bytes(po as nat) + (seek_part(c) + rest);
                assert(ctrl@.skip(pos as int) =~= varint_bytes(vc) + tail);
                lemma_concat_split(ctrl@.skip(pos as int), varint_bytes(vc), tail);
                assert(ctrl@.skip(p1 as int) == tail);
                lemma_concat_split(ctrl@.skip(p1 as int), varint_bytes(po as nat), seek_part(c)
                    + rest);
            }
        }
        let (p_old, p2) = match p_r {
            Some(x) => x,
            None => {
                return Err(DecodeError::Truncated);
            },
        };
        if p_old > (usize::MAX as u64) || (p_old as usize) > old_len || copy_len > old_len - (
        p_old as usize) {
            proof {
                assert forall|c: Control, po: usize, rest: Seq<u8>|
                    control_wf(c) && po + c.copy@.len() <= old@.len() && c.copy@ == old@.subrange(
                        po as int,
                        po + c.copy@.len(),
                    ) && ctrl@.skip(pos as int) == #[trigger] (copy_part_old(c, po) + (seek_part(
                    c,
                ) + rest)) implies false by {
                    assert(p_old == po as u64);
                    assert(copy_len == c.copy@.len());
                }
            }
            return Err(DecodeError::Corrupt);
        }
        let cp = vstd::slice::slice_to_vec(
            vstd::slice::slice_subrange(old, p_old as usize, p_old as usize + copy_len),
        );
        proof {
            assert forall|c: Control, po: usize, rest: Seq<u8>|
                control_wf(c) && po + c.copy@.len() <= old@.len() && c.copy@ == old@.subrange(
                    po as int,
                    po + c.copy@.len(),
                ) && ctrl@.skip(pos as int) == #[trigger] (copy_part_old(c, po) + (seek_part(c)
                + rest)) implies cp@ == c.copy@ && p2 == pos + copy_part_old(c, po).len()
                && ctrl@.skip(p2 as int) == seek_part(c) + rest by {
                assert(p_old == po as u64);
                assert(copy_len == c.copy@.len());
                let vc: nat = 2 * c.copy@.len() + 1;
                let tail = varint_bytes(po as nat) + (seek_part(c) + rest);
                assert(ctrl@.skip(pos as int) =~= varint_bytes(vc) + tail);
                lemma_concat_split(ctrl@.skip(pos as int), varint_bytes(vc), tail);
                assert(ctrl@.skip(p1 as int) == tail);
                lemma_concat_split(ctrl@.skip(p1 as int), varint_bytes(po as nat), seek_part(c)
                    + rest);
                assert(ctrl@.skip(p2 as int) =~= ctrl@.skip(p1 as int).skip(
                    varint_bytes(po as nat).len() as int,
                ));
                assert(cp@ =~= old@.subrange(po as int, po + c.copy@.len()));
            }
        }
        return Ok((cp, p2));
    }
    if copy_len > ctrl_len - p1 {
        proof {
            assert forall|c: Control, po: usize, rest: Seq<u8>|
                control_wf(c) && ctrl@.skip(pos as int) == #[trigger] (copy_part_old(c, po) + (
            seek_part(c) + rest)) implies false by {
                assert((2 * c.copy@.len() + 1) % 2 == 1);
            }
            assert forall|c: Control, rest: Seq<u8>|
                control_wf(c) && ctrl@.skip(pos as int) == #[trigger] (copy_part(c) + (seek_part(
                    c,
                ) + rest)) implies false by {
                let vc: nat = 2 * c.copy@.len();
                assert(ctrl@.skip(pos as int) =~= varint_bytes(vc) + (c.copy@ + (seek_part(c)
                    + rest)));
                lemma_concat_split(
                    ctrl@.skip(pos as int),
                    varint_bytes(vc),
                    c.copy@ + (seek_part(c) + rest),
                );
                assert(ctrl@.skip(p1 as int) == c.copy@ + (seek_part(c) + rest)) by {
                    assert(ctrl@.skip(p1 as int) =~= ctrl@.skip(pos as int).skip(
                        varint_bytes(vc).len() as int,
                    ));
                }
                assert(ctrl@.skip(p1 as int).len() == ctrl_len - p1);
            }
        }
        return Err(DecodeError::Truncated);
    }
    let cp = vstd::slice::slice_to_vec(vstd::slice::slice_subrange(ctrl, p1, p1 + copy_len));
    let end = p1 + copy_len;
    proof {
        assert forall|c: Control, po: usize, rest: Seq<u8>|
            control_wf(c) && ctrl@.skip(pos as int) == #[trigger] (copy_part_old(c, po) + (
        seek_part(c) + rest)) implies false by {
            assert((2 * c.copy@.len() + 1) % 2 == 1);
        }
        assert forall|c: Control, rest: Seq<u8>|
            control_wf(c) && ctrl@.skip(pos as int) == #[trigger] (copy_part(c) + (seek_part(c)
                + rest)) implies cp@ == c.copy@ && end == pos + copy_part(c).len() && ctrl@.skip(
            end as int,
        ) == seek_part(c) + rest by {
            let vc: nat = 2 * c.copy@.len();
            assert(ctrl@.skip(pos as int) =~= (varint_bytes(vc) + c.copy@) + (seek_part(c)
                + rest));
            lemma_concat_split(
                ctrl@.skip(pos as int),
                varint_bytes(vc) + c.copy@,
                seek_part(c) + rest,
            );
            assert(ctrl@.skip(end as int) =~= ctrl@.skip(pos as int).skip(
                (varint_bytes(vc).len() + c.copy@.len()) as int,
            ));
            assert(cp@ =~= c.copy@) by {
                assert forall|i: int| 0 <= i < c.copy@.len() implies cp@[i] == c.copy@[i] by {
                    assert(ctrl@.skip(pos as int)[varint_bytes(vc).len() + i] == (varint_bytes(vc)
                        + c.copy@)[varint_bytes(vc).len() + i]);
                    assert(cp@[i] == ctrl@[p1 + i]);
                    assert(ctrl@[pos + varint_bytes(vc).len() + i] == ctrl@.skip(pos as int)[
                        varint_bytes(vc).len() + i]);
                }
            }
        }
    }
    Ok((cp, end))
}

/// Parse the SEEK part of a record: one zig-zag varint.
fn parse_seek(ctrl: &[u8], pos: usize) -> (r: Result<(i64, usize), DecodeError>)
    requires
        pos <= ctrl@.len(),
    ensures
        match r {
            Ok((sk, end)) => pos < end <= ctrl@.len(),
            Err(e) => e == DecodeError::Truncated || e == DecodeError::Corrupt,
        },
        forall|c: Control, rest: Seq<u8>|
            ctrl@.skip(pos as int) == #[trigger] (seek_part(c) + rest) ==> (r matches Ok(x) && x.0
                == c.seek && x.1 == pos + seek_part(c).len() && ctrl@.skip(x.1 as int) == rest),
{
    let ctrl_len = ctrl.len();
    let seek_r = read_varint_i64(ctrl, pos);
    proof {
        assert(ctrl@.len() == ctrl_len);
        assert forall|c: Control, rest: Seq<u8>|
            ctrl@.skip(pos as int) == #[trigger] (seek_part(c) + rest) implies seek_r
            == Some::<(i64, usize)>(
            (c.seek, (pos + varint_bytes(zigzag(c.seek as int)).len()) as usize),
        ) && ctrl@.skip(pos + seek_part(c).len()) == rest by {
            assert(seek_part(c).len() + rest.len() == ctrl@.len() - pos);
            lemma_concat_split(
                ctrl@.skip(pos as int),
                varint_bytes(zigzag(c.seek as int)),
                rest,
            );
            assert(ctrl@.skip(pos + seek_part(c).len()) =~= ctrl@.skip(pos as int).skip(
                seek_part(c).len() as int,
            ));
        }
    }
    match seek_r {
        Some(x) => {
            proof {
                assert forall|c: Control, rest: Seq<u8>|
                    ctrl@.skip(pos as int) == #[trigger] (seek_part(c) + rest) implies x.0
                    == c.seek && x.1 == pos + seek_part(c).len() && ctrl@.skip(x.1 as int)
                    == rest by {
                    assert(ctrl@.skip(pos as int).len() == ctrl@.len() - pos);
                    assert((seek_part(c) + rest).len() == seek_part(c).len() + rest.len());
                    assert(seek_part(c).len() + rest.len() == ctrl@.len() - pos);
                    assert(pos + seek_part(c).len() <= ctrl_len);
                    assert(seek_r == Some::<(i64, usize)>(
                        (c.seek, (pos + varint_bytes(zigzag(c.seek as int)).len()) as usize),
                    ));
                    assert(x.1 as int == pos + seek_part(c).len());
                    assert(ctrl@.skip(pos + seek_part(c).len()) == rest);
                }
            }
            Ok(x)
        },
        None => Err(DecodeError::Truncated),
    }
}

/// Parse one control record at `pos`. For any well-formed control whose
/// encoding starts there, parsing succeeds with that control's fields and
/// consumes exactly its encoding.
#[verifier::rlimit(60)]
#[verifier::spinoff_prover]
fn parse_control(ctrl: &[u8], old: &[u8], pos: usize) -> (r: Result<(Control, usize), DecodeError>)
    requires
        pos <= ctrl@.len(),
    ensures
        match r {
            Ok((c, end)) => pos < end <= ctrl@.len(),
            Err(e) => e == DecodeError::Truncated || e == DecodeError::Corrupt,
        },
        forall|c: Control, rest: Seq<u8>|
            control_wf(c) && ctrl@.skip(pos as int) == #[trigger] (control_bytes(c) + rest)
                ==> (r matches Ok(rc) && rc.0.add@ == c.add@ && rc.0.copy@ == c.copy@
                && rc.0.seek == c.seek && rc.1 == pos + control_bytes(c).len()),
{
    let a_r = parse_add(ctrl, pos);
    let (add, p1) = match a_r {
        Ok(x) => x,
        Err(e) => {
            return Err(e);
        },
    };
    let c_r = parse_copy(ctrl, old, p1);
    let (copy, p2) = match c_r {
        Ok(x) => x,
        Err(e) => {
            proof {
                assert forall|c: Control, rest: Seq<u8>|
                    control_wf(c) && ctrl@.skip(pos as int) == #[trigger] (control_bytes(c)
                        + rest) implies false by {
                    assert(ctrl@.skip(p1 as int) == copy_part(c) + (seek_part(c) + rest));
                }
            }
            return Err(e);
        },
    };
    let s_r = parse_seek(ctrl, p2);
    let (seek, p3) = match s_r {
        Ok(x) => x,
        Err(e) => {
            proof {
                assert forall|c: Control, rest: Seq<u8>|
                    control_wf(c) && ctrl@.skip(pos as int) == #[trigger] (control_bytes(c)
                        + rest) implies false by {
                    assert(ctrl@.skip(p1 as int) == copy_part(c) + (seek_part(c) + rest));
                    assert(ctrl@.skip(p2 as int) == seek_part(c) + rest);
                }
            }
            return Err(e);
        },
    };
    proof {
        assert forall|c: Control, rest: Seq<u8>|
            control_wf(c) && ctrl@.skip(pos as int) == #[trigger] (control_bytes(c) + rest)
            implies add@ == c.add@ && copy@ == c.copy@ && seek == c.seek && p3 == pos
            + control_bytes(c).len() by {
            assert(ctrl@.skip(p1 as int) == copy_part(c) + (seek_part(c) + rest));
            assert(ctrl@.skip(p2 as int) == seek_part(c) + rest);
            lemma_control_parts(c);
        }
    }
    Ok((Control { add, copy, seek }, p3))
}

/// Parse a control stream. For any well-formed control sequence whose
/// encoding these bytes are, parsing succeeds and yields controls that
/// agree with it field by field; copy-from-old records take their bytes
/// out of `old`.
#[verifier::rlimit(60)]
#[verifier::spinoff_prover]
pub fn parse_stream(ctrl: &[u8], old: &[u8]) -> (r: Result<Vec<Control>, DecodeError>)
    ensures
        r matches Err(e) ==> e == DecodeError::Truncated || e == DecodeError::Corrupt,
        forall|cs: Seq<Control>|
            stream_wf(cs) && ctrl@ == #[trigger] stream_bytes(cs) ==> r is Ok && controls_equiv(
                r->Ok_0@,
                cs,
            ),
{
    let ctrl_len = ctrl.len();
    let mut out: Vec<Control> = Vec::new();
    let mut pos: usize = 0;
    proof {
        assert(ctrl@.skip(0) =~= ctrl@);
        assert forall|cs: Seq<Control>|
            stream_wf(cs) && ctrl@ == #[trigger] stream_bytes(cs) implies {
            &&& controls_equiv(Seq::<Control>::empty(), cs.take(0))
            &&& ctrl@.skip(0) == stream_bytes(cs.skip(0))
        } by {
            assert(cs.skip(0) =~= cs);
            assert(cs.take(0) =~= Seq::<Control>::empty());
        }
    }
    while pos < ctrl_len
        invariant
            pos <= ctrl_len,
            ctrl_len == ctrl@.len(),
            forall|cs: Seq<Control>|
                stream_wf(cs) && ctrl@ == #[trigger] stream_bytes(cs) ==> {
                    &&& out@.len() <= cs.len()
                    &&& controls_equiv(out@, cs.take(out@.len() as int))
                    &&& ctrl@.skip(pos as int) == stream_bytes(cs.skip(out@.len() as int))
                },
        decreases ctrl_len - pos,
    {
        let ghost pre_pos = pos as int;
        let ghost k = out@.len() as int;
        proof {
            assert forall|cs: Seq<Control>|
                stream_wf(cs) && ctrl@ == #[trigger] stream_bytes(cs) implies k < cs.len()
                && ctrl@.skip(pre_pos) == control_bytes(cs[k]) + stream_bytes(cs.skip(k + 1)) by {
                if k == cs.len() {
                    assert(ctrl@.skip(pre_pos) == stream_bytes(cs.skip(k)));
                    assert(cs.skip(k).len() == 0);
                    assert(ctrl@.skip(pre_pos).len() == 0);
                }
                lemma_stream_step(cs, k);
            }
        }
        let step = parse_control(ctrl, old, pos);
        let (c_out, new_pos) = match step {
            Ok(x) => x,
            Err(e) => {
                proof {
                    assert forall|cs: Seq<Control>|
                        stream_wf(cs) && ctrl@ == #[trigger] stream_bytes(cs) implies false by {
                        assert(control_wf(cs[k]));
                        assert(ctrl@.skip(pre_pos) == control_bytes(cs[k]) + stream_bytes(
                            cs.skip(k + 1),
                        ));
                    }
                }
                return Err(e);
            },
        };
        proof {
            assert forall|cs: Seq<Control>|
                stream_wf(cs) && ctrl@ == #[trigger] stream_bytes(cs) implies {
                &&& out@.push(c_out).len() <= cs.len()
                &&& controls_equiv(out@.push(c_out), cs.take(k + 1))
                &&& ctrl@.skip(new_pos as int) == stream_bytes(cs.skip(k + 1))
            } by {
                let c = cs[k];
                assert(control_wf(c));
                assert(ctrl@.skip(pre_pos) == control_bytes(c) + stream_bytes(cs.skip(k + 1)));
                assert(c_out.add@ == c.add@ && c_out.copy@ == c.copy@ && c_out.seek == c.seek);
                assert(new_pos as int == pre_pos + control_bytes(c).len());
                lemma_concat_split(
                    ctrl@.skip(pre_pos),
                    control_bytes(c),
                    stream_bytes(cs.skip(k + 1)),
                );
                assert(ctrl@.skip(new_pos as int) =~= ctrl@.skip(pre_pos).skip(
                    control_bytes(c).len() as int,
                ));
                assert(cs.take(k + 1) =~= cs.take(k).push(c));
                let a2 = out@.push(c_out);
                let b2 = cs.take(k + 1);
                assert forall|i: int|
                    0 <= i < a2.len() implies (#[trigger] a2[i]).add@ == b2[i].add@ && a2[i].copy@
                    == b2[i].copy@ && a2[i].seek == b2[i].seek by {
                    if i < k {
                        assert((#[trigger] out@[i]).add@ == cs.take(k)[i].add@ && out@[i].copy@
                            == cs.take(k)[i].copy@ && out@[i].seek == cs.take(k)[i].seek);
                    }
                }
            }
        }
        out.push(c_out);
        pos = new_pos;
    }
    proof {
        assert forall|cs: Seq<Control>|
            stream_wf(cs) && ctrl@ == #[trigger] stream_bytes(cs) implies out@.len() == cs.len()
            && controls_equiv(out@, cs) by {
            let k = out@.len() as int;
            if k < cs.len() {
                lemma_stream_step(cs, k);
                assert(ctrl@.skip(pos as int) == stream_bytes(cs.skip(k)));
                assert(ctrl@.skip(pos as int).len() == 0);
                let c = cs[k];
                let va: nat = if all_zero(c.add@) {
                    2 * c.add@.len() + 1
                } else {
                    2 * c.add@.len()
                };
                assert(varint_bytes(va).len() >= 1);
                assert(control_bytes(c).len() >= 1);
            }
            assert(cs.take(out@.len() as int) =~= cs);
        }
    }
    Ok(out)
}

/// Read a little-endian 32-bit word at `*off`, advancing it.
fn get_u32_le(data: &[u8], off: &mut usize) -> (r: Result<u32, DecodeError>)
    requires
        *old(off) <= data@.len(),
    ensures
        match r {
            Ok(v) => *old(off) + 4 <= data@.len() && v == vstd::bytes::spec_u32_from_le_bytes(
                data@.subrange(*old(off) as int, *old(off) + 4),
            ) && *final(off) == *old(off) + 4,
            Err(e) => e == DecodeError::Truncated && *old(off) + 4 > data@.len() && *final(off)
                == *old(off),
        },
{
    let n = data.len();
    if n - *off < 4 {
        return Err(DecodeError::Truncated);
    }
    let v = vstd::bytes::u32_from_le_bytes(vstd::slice::slice_subrange(data, *off, *off + 4));
    *off = *off + 4;
    Ok(v)
}

/// Read a little-endian 64-bit word at `*off`, advancing it.
fn get_u64_le(data: &[u8], off: &mut usize) -> (r: Result<u64, DecodeError>)
    requires
        *old(off) <= data@.len(),
    ensures
        match r {
            Ok(v) => *old(off) + 8 <= data@.len() && v == vstd::bytes::spec_u64_from_le_bytes(
                data@.subrange(*old(off) as int, *old(off) + 8),
            ) && *final(off) == *old(off) + 8,
            Err(e) => e == DecodeError::Truncated && *old(off) + 8 > data@.len() && *final(off)
                == *old(off),
        },
{
    let n = data.len();
    if n - *off < 8 {
        return Err(DecodeError::Truncated);
    }
    let v = vstd::bytes::u64_from_le_bytes(vstd::slice::slice_subrange(data, *off, *off + 8));
    *off = *off + 8;
    Ok(v)
}

/// The header is sixteen bytes, and its words read back as written.
proof fn lemma_header_shape(ns: u64)
    ensures
        header_bytes(ns).len() == 16,
        vstd::bytes::spec_u32_from_le_bytes(header_bytes(ns).subrange(0, 4)) == MAGIC,
        vstd::bytes::spec_u32_from_le_bytes(header_bytes(ns).subrange(4, 8)) == VERSION,
        vstd::bytes::spec_u64_from_le_bytes(header_bytes(ns).subrange(8, 16)) == ns,
{
    vstd::bytes::lemma_auto_spec_u32_to_from_le_bytes();
    vstd::bytes::lemma_auto_spec_u64_to_from_le_bytes();
    assert(header_bytes(ns).subrange(0, 4) =~= vstd::bytes::spec_u32_to_le_bytes(MAGIC));
    assert(header_bytes(ns).subrange(4, 8) =~= vstd::bytes::spec_u32_to_le_bytes(VERSION));
    assert(header_bytes(ns).subrange(8, 16) =~= vstd::bytes::spec_u64_to_le_bytes(ns));
}

/// Apply a whole single-stream patch to an old buffer.
///
/// The header is validated first: a wrong magic or version is reported as
/// such, distinctly from truncation. For any well-formed control sequence
/// whose framed encoding this patch is, the result is exactly what those
/// controls produce on the old buffer.
#[verifier::rlimit(60)]
#[verifier::spinoff_prover]
pub fn apply_single(patch: &[u8], old: &[u8]) -> (r: Result<Vec<u8>, DecodeError>)
    ensures
        patch@.len() < 4 ==> r == Err::<Vec<u8>, DecodeError>(DecodeError::Truncated),
        patch@.len() >= 4 && vstd::bytes::spec_u32_from_le_bytes(patch@.subrange(0, 4)) != MAGIC
            ==> r == Err::<Vec<u8>, DecodeError>(
            DecodeError::WrongMagic(vstd::bytes::spec_u32_from_le_bytes(patch@.subrange(0, 4))),
        ),
        patch@.len() >= 8 && vstd::bytes::spec_u32_from_le_bytes(patch@.subrange(0, 4)) == MAGIC
            && vstd::bytes::spec_u32_from_le_bytes(patch@.subrange(4, 8)) != VERSION ==> r
            == Err::<Vec<u8>, DecodeError>(
            DecodeError::WrongVersion(vstd::bytes::spec_u32_from_le_bytes(patch@.subrange(4, 8))),
        ),
        match r {
            Err(DecodeError::WrongMagic(m)) => patch@.len() >= 4 && m
                == vstd::bytes::spec_u32_from_le_bytes(patch@.subrange(0, 4)) && m != MAGIC,
            Err(DecodeError::WrongVersion(v)) => patch@.len() >= 8
                && vstd::bytes::spec_u32_from_le_bytes(patch@.subrange(0, 4)) == MAGIC && v
                == vstd::bytes::spec_u32_from_le_bytes(patch@.subrange(4, 8)) && v != VERSION,
            _ => true,
        },
        forall|cs: Seq<Control>, ns: u64|
            stream_wf(cs) && patch@ == #[trigger] (header_bytes(ns) + stream_bytes(cs)) ==> (
            match crate::apply_controls_spec(cs, old@) {
                Some(s) => r matches Ok(v) && v@ == s,
                None => r is Err,
            }),
{
    let mut off: usize = 0;
    let magic = match get_u32_le(patch, &mut off) {
        Ok(v) => v,
        Err(e) => {
            proof {
                assert forall|cs: Seq<Control>, ns: u64|
                    stream_wf(cs) && patch@ == #[trigger] (header_bytes(ns) + stream_bytes(cs))
                    implies false by {
                    lemma_header_shape(ns);
                }
            }
            return Err(e);
        },
    };
    if magic != MAGIC {
        proof {
            assert forall|cs: Seq<Control>, ns: u64|
                stream_wf(cs) && patch@ == #[trigger] (header_bytes(ns) + stream_bytes(cs))
                implies false by {
                lemma_header_shape(ns);
                assert(patch@.subrange(0, 4) =~= header_bytes(ns).subrange(0, 4));
            }
        }
        return Err(DecodeError::WrongMagic(magic));
    }
    let version = match get_u32_le(patch, &mut off) {
        Ok(v) => v,
        Err(e) => {
            proof {
                assert forall|cs: Seq<Control>, ns: u64|
                    stream_wf(cs) && patch@ == #[trigger] (header_bytes(ns) + stream_bytes(cs))
                    implies false by {
                    lemma_header_shape(ns);
                }
            }
            return Err(e);
        },
    };
    if version != VERSION {
        proof {
            assert forall|cs: Seq<Control>, ns: u64|
                stream_wf(cs) && patch@ == #[trigger] (header_bytes(ns) + stream_bytes(cs))
                implies false by {
                lemma_header_shape(ns);
                assert(patch@.subrange(4, 8) =~= header_bytes(ns).subrange(4, 8));
            }
        }
        return Err(DecodeError::WrongVersion(version));
    }
    let _new_size = match get_u64_le(patch, &mut off) {
        Ok(v) => v,
        Err(e) => {
            proof {
                assert forall|cs: Seq<Control>, ns: u64|
                    stream_wf(cs) && patch@ == #[trigger] (header_bytes(ns) + stream_bytes(cs))
                    implies false by {
                    lemma_header_shape(ns);
                }
            }
            return Err(e);
        },
    };
    let ctrl = vstd::slice::slice_subrange(patch, off, patch.len());
    let controls = match parse_stream(ctrl, old) {
        Ok(cs) => cs,
        Err(e) => {
            proof {
                assert forall|cs: Seq<Control>, ns: u64|
                    stream_wf(cs) && patch@ == #[trigger] (header_bytes(ns) + stream_bytes(cs))
                    implies false by {
                    lemma_header_shape(ns);
                    lemma_concat_split(patch@, header_bytes(ns), stream_bytes(cs));
                    assert(ctrl@ =~= stream_bytes(cs));
                }
            }
            return Err(e);
        },
    };
    let applied = crate::apply_controls(&controls, old);
    proof {
        assert forall|cs: Seq<Control>, ns: u64|
            stream_wf(cs) && patch@ == #[trigger] (header_bytes(ns) + stream_bytes(cs)) implies (
        match crate::apply_controls_spec(cs, old@) {
            Some(s) => applied matches Some(v) && v@ == s,
            None => applied is None,
        }) by {
            lemma_header_shape(ns);
            lemma_concat_split(patch@, header_bytes(ns), stream_bytes(cs));
            assert(ctrl@ =~= stream_bytes(cs));
            assert(controls_equiv(controls@, cs));
            lemma_equiv_apply(controls@, cs, old@, 0, Seq::<u8>::empty());
        }
    }
    match applied {
        Some(v) => Ok(v),
        None => Err(DecodeError::Corrupt),
    }
}

/// A chunk of the chunked patch format, described abstractly: where it
/// reads in the old file, where its output goes in the new file, and the
/// compressed control stream it carries.
pub struct ChunkDesc {
    pub old_start: u64,
    pub new_start: u64,
    pub new_len: u64,
    pub raw_len: u64,
    pub data: Seq<u8>,
}

/// The wire form of one chunk record: five little-endian words, then the
/// compressed data.
pub open spec fn chunk_bytes(cd: ChunkDesc) -> Seq<u8> {
    vstd::bytes::spec_u64_to_le_bytes(cd.old_start) + vstd::bytes::spec_u64_to_le_bytes(
        cd.new_start,
    ) + vstd::bytes::spec_u64_to_le_bytes(cd.new_len) + vstd::bytes::spec_u64_to_le_bytes(
        cd.raw_len,
    ) + vstd::bytes::spec_u64_to_le_bytes(cd.data.len() as u64) + cd.data
}

/// The wire form of a list of chunk records.
pub open spec fn chunks_bytes(cds: Seq<ChunkDesc>) -> Seq<u8>
    decreases cds.len(),
{
    if cds.len() == 0 {
        Seq::empty()
    } else {
        chunk_bytes(cds[0]) + chunks_bytes(cds.drop_first())
    }
}

pub proof fn lemma_chunks_bytes_push(cds: Seq<ChunkDesc>, cd: ChunkDesc)
    ensures
        chunks_bytes(cds.push(cd)) == chunks_bytes(cds) + chunk_bytes(cd),
    decreases cds.len(),
{
    if cds.len() == 0 {
        assert(cds.push(cd).drop_first() =~= cds);
        assert(chunks_bytes(cds.push(cd)) =~= chunks_bytes(cds) + chunk_bytes(cd));
    } else {
        assert(cds.push(cd).drop_first() =~= cds.drop_first().push(cd));
        lemma_chunks_bytes_push(cds.drop_first(), cd);
        assert(chunks_bytes(cds.push(cd)) =~= chunks_bytes(cds) + chunk_bytes(cd));
    }
}

/// A whole chunked patch: the single-stream header words, a chunk count,
/// and the chunk records.
pub open spec fn chunked_patch_bytes(new_size: u64, cds: Seq<ChunkDesc>) -> Seq<u8> {
    vstd::bytes::spec_u32_to_le_bytes(MAGIC) + vstd::bytes::spec_u32_to_le_bytes(VERSION)
        + vstd::bytes::spec_u64_to_le_bytes(new_size) + vstd::bytes::spec_u32_to_le_bytes(
        cds.len() as u32,
    ) + chunks_bytes(cds)
}

/// The chunk's data is a compressed well-formed control stream whose
/// application to the old buffer, starting at the chunk's old position,
/// yields `out`.
pub open spec fn chunk_applies(cd: ChunkDesc, old: Seq<u8>, out: Seq<u8>) -> bool {
    exists|cs: Seq<Control>, level: int|
        {
            &&& stream_wf(cs)
            &&& cd.data == #[trigger] crate::compress::zstd_compressed(stream_bytes(cs), level)
            &&& stream_bytes(cs).len() == cd.raw_len
            &&& crate::apply_controls_from(cs, old, cd.old_start as int, Seq::empty()) == Some(out)
        }
}

/// The chunks tile the new buffer in order, each one reconstructing its
/// slice of it, with sizes the reader can work with.
pub open spec fn chunks_tile(cds: Seq<ChunkDesc>, new: Seq<u8>, old: Seq<u8>) -> bool {
    &&& cds.len() >= 1
    &&& cds.len() < 0x1_0000_0000
    &&& cds[0].new_start == 0
    &&& forall|i: int|
        0 < i < cds.len() ==> (#[trigger] cds[i]).new_start == cds[i - 1].new_start + cds[i
            - 1].new_len
    &&& cds[cds.len() - 1].new_start + cds[cds.len() - 1].new_len == new.len()
    &&& forall|i: int|
        0 <= i < cds.len() ==> {
            let cd = #[trigger] cds[i];
            &&& cd.new_start + cd.new_len <= new.len()
            &&& cd.raw_len <= usize::MAX
            &&& cd.data.len() < 0x1_0000_0000_0000_0000
            &&& cd.old_start <= old.len()
            &&& chunk_applies(cd, old, new.subrange(cd.new_start as int, cd.new_start + cd.new_len))
        }
}

/// One chunk of a chunked patch, borrowing its compressed data from the
/// patch bytes.
pub struct ChunkRef<'a> {
    pub old_start: u64,
    pub new_start: u64,
    pub new_len: u64,
    pub raw_len: u64,
    pub data: &'a [u8],
}

/// A parsed chunked patch: the new file's length and its chunks.
pub struct PatchRef<'a> {
    pub new_size: u64,
    pub chunks: Vec<ChunkRef<'a>>,
}

/// The five header words of a chunk record encoded at `off`, and its
/// data bytes, read back as written.
proof fn lemma_chunk_words(data: Seq<u8>, off: int, cd: ChunkDesc, rest: Seq<u8>)
    requires
        0 <= off <= data.len(),
        cd.data.len() < 0x1_0000_0000_0000_0000,
        data.skip(off) == chunk_bytes(cd) + rest,
    ensures
        off + 40 + cd.data.len() <= data.len(),
        data.subrange(off, off + 8) == vstd::bytes::spec_u64_to_le_bytes(cd.old_start),
        data.subrange(off + 8, off + 16) == vstd::bytes::spec_u64_to_le_bytes(cd.new_start),
        data.subrange(off + 16, off + 24) == vstd::bytes::spec_u64_to_le_bytes(cd.new_len),
        data.subrange(off + 24, off + 32) == vstd::bytes::spec_u64_to_le_bytes(cd.raw_len),
        data.subrange(off + 32, off + 40) == vstd::bytes::spec_u64_to_le_bytes(
            cd.data.len() as u64,
        ),
        data.subrange(off + 40, off + 40 + cd.data.len()) == cd.data,
{
    vstd::bytes::lemma_auto_spec_u64_to_from_le_bytes();
    let w1 = vstd::bytes::spec_u64_to_le_bytes(cd.old_start);
    let w2 = vstd::bytes::spec_u64_to_le_bytes(cd.new_start);
    let w3 = vstd::bytes::spec_u64_to_le_bytes(cd.new_len);
    let w4 = vstd::bytes::spec_u64_to_le_bytes(cd.raw_len);
    let w5 = vstd::bytes::spec_u64_to_le_bytes(cd.data.len() as u64);
    let s0 = data.skip(off);
    assert(s0 =~= w1 + (w2 + (w3 + (w4 + (w5 + (cd.data + rest))))));
    lemma_concat_split(s0, w1, w2 + (w3 + (w4 + (w5 + (cd.data + rest)))));
    let s1 = data.skip(off + 8);
    assert(s1 =~= s0.skip(8));
    lemma_concat_split(s1, w2, w3 + (w4 + (w5 + (cd.data + rest))));
    let s2 = data.skip(off + 16);
    assert(s2 =~= s1.skip(8));
    lemma_concat_split(s2, w3, w4 + (w5 + (cd.data + rest)));
    let s3 = data.skip(off + 24);
    assert(s3 =~= s2.skip(8));
    lemma_concat_split(s3, w4, w5 + (cd.data + rest));
    let s4 = data.skip(off + 32);
    assert(s4 =~= s3.skip(8));
    lemma_concat_split(s4, w5, cd.data + rest);
    let s5 = data.skip(off + 40);
    assert(s5 =~= s4.skip(8));
    lemma_concat_split(s5, cd.data, rest);
    assert(data.subrange(off, off + 8) =~= s0.take(8));
    assert(data.subrange(off + 8, off + 16) =~= s1.take(8));
    assert(data.subrange(off + 16, off + 24) =~= s2.take(8));
    assert(data.subrange(off + 24, off + 32) =~= s3.take(8));
    assert(data.subrange(off + 32, off + 40) =~= s4.take(8));
    assert(data.subrange(off + 40, off + 40 + cd.data.len()) =~= s5.take(cd.data.len() as int));
    assert(s0.take(8) =~= w1);
    assert(s1.take(8) =~= w2);
    assert(s2.take(8) =~= w3);
    assert(s3.take(8) =~= w4);
    assert(s4.take(8) =~= w5);
    assert(s5.take(cd.data.len() as int) =~= cd.data);
}

/// Read one chunk record at `off`. For any chunk whose encoding starts
/// there, reading succeeds with its fields and consumes exactly its
/// encoding.
#[verifier::rlimit(100)]
#[verifier::spinoff_prover]
fn read_chunk<'a>(data: &'a [u8], off: usize) -> (r: Result<(ChunkRef<'a>, usize), DecodeError>)
    requires
        off <= data@.len(),
    ensures
        match r {
            Ok((c, end)) => off < end <= data@.len(),
            Err(e) => e == DecodeError::Truncated,
        },
        forall|cd: ChunkDesc, rest: Seq<u8>|
            cd.data.len() < 0x1_0000_0000_0000_0000 && data@.skip(off as int) == #[trigger] (
            chunk_bytes(cd) + rest) ==> (r matches Ok(x) && x.0.old_start == cd.old_start
                && x.0.new_start == cd.new_start && x.0.new_len == cd.new_len && x.0.raw_len
                == cd.raw_len && x.0.data@ == cd.data && x.1 == off + chunk_bytes(cd).len()),
{
    let dlen = data.len();
    let mut o = off;
    let old_start = match get_u64_le(data, &mut o) {
        Ok(v) => v,
        Err(e) => {
            proof {
                assert forall|cd: ChunkDesc, rest: Seq<u8>|
                    cd.data.len() < 0x1_0000_0000_0000_0000 && data@.skip(off as int)
                        == #[trigger] (chunk_bytes(cd) + rest) implies false by {
                    lemma_chunk_words(data@, off as int, cd, rest);
                }
            }
            return Err(e);
        },
    };
    let new_start = match get_u64_le(data, &mut o) {
        Ok(v) => v,
        Err(e) => {
            proof {
                assert forall|cd: ChunkDesc, rest: Seq<u8>|
                    cd.data.len() < 0x1_0000_0000_0000_0000 && data@.skip(off as int)
                        == #[trigger] (chunk_bytes(cd) + rest) implies false by {
                    lemma_chunk_words(data@, off as int, cd, rest);
                }
            }
            return Err(e);
        },
    };
    let new_len = match get_u64_le(data, &mut o) {
        Ok(v) => v,
        Err(e) => {
            proof {
                assert forall|cd: ChunkDesc, rest: Seq<u8>|
                    cd.data.len() < 0x1_0000_0000_0000_0000 && data@.skip(off as int)
                        == #[trigger] (chunk_bytes(cd) + rest) implies false by {
                    lemma_chunk_words(data@, off as int, cd, rest);
                }
            }
            return Err(e);
        },
    };
    let raw_len = match get_u64_le(data, &mut o) {
        Ok(v) => v,
        Err(e) => {
            proof {
                assert forall|cd: ChunkDesc, rest: Seq<u8>|
                    cd.data.len() < 0x1_0000_0000_0000_0000 && data@.skip(off as int)
                        == #[trigger] (chunk_bytes(cd) + rest) implies false by {
                    lemma_chunk_words(data@, off as int, cd, rest);
                }
            }
            return Err(e);
        },
    };
    let data_len = match get_u64_le(data, &mut o) {
        Ok(v) => v,
        Err(e) => {
            proof {
                assert forall|cd: ChunkDesc, rest: Seq<u8>|
                    cd.data.len() < 0x1_0000_0000_0000_0000 && data@.skip(off as int)
                        == #[trigger] (chunk_bytes(cd) + rest) implies false by {
                    lemma_chunk_words(data@, off as int, cd, rest);
                }
            }
            return Err(e);
        },
    };
    if data_len > (usize::MAX as u64) || (data_len as usize) > dlen - o {
        proof {
            vstd::bytes::lemma_auto_spec_u64_to_from_le_bytes();
            assert forall|cd: ChunkDesc, rest: Seq<u8>|
                cd.data.len() < 0x1_0000_0000_0000_0000 && data@.skip(off as int) == #[trigger] (
            chunk_bytes(cd) + rest) implies false by {
                lemma_chunk_words(data@, off as int, cd, rest);
                assert(data_len == cd.data.len() as u64);
            }
        }
        return Err(DecodeError::Truncated);
    }
    let dl = data_len as usize;
    let chunk_data = vstd::slice::slice_subrange(data, o, o + dl);
    let end = o + dl;
    proof {
        vstd::bytes::lemma_auto_spec_u64_to_from_le_bytes();
        assert forall|cd: ChunkDesc, rest: Seq<u8>|
            cd.data.len() < 0x1_0000_0000_0000_0000 && data@.skip(off as int) == #[trigger] (
        chunk_bytes(cd) + rest) implies old_start == cd.old_start && new_start == cd.new_start
            && new_len == cd.new_len && raw_len == cd.raw_len && chunk_data@ == cd.data && end
            == off + chunk_bytes(cd).len() by {
            lemma_chunk_words(data@, off as int, cd, rest);
            assert(data_len == cd.data.len() as u64);
            assert(chunk_data@ =~= cd.data);
        }
    }
    Ok((ChunkRef { old_start, new_start, new_len, raw_len, data: chunk_data }, end))
}

/// Read a chunked patch. The magic and version are checked first, each
/// mismatch reported distinctly from truncation; for any chunk list whose
/// framed encoding this is, reading succeeds with exactly those chunks.
#[verifier::rlimit(100)]
#[verifier::spinoff_prover]
pub fn read_patch<'a>(data: &'a [u8]) -> (r: Result<PatchRef<'a>, DecodeError>)
    ensures
        data@.len() < 4 ==> (r matches Err(e) && e == DecodeError::Truncated),
        data@.len() >= 4 && vstd::bytes::spec_u32_from_le_bytes(data@.subrange(0, 4)) != MAGIC
            ==> (r matches Err(e) && e == DecodeError::WrongMagic(
            vstd::bytes::spec_u32_from_le_bytes(data@.subrange(0, 4)),
        )),
        data@.len() >= 8 && vstd::bytes::spec_u32_from_le_bytes(data@.subrange(0, 4)) == MAGIC
            && vstd::bytes::spec_u32_from_le_bytes(data@.subrange(4, 8)) != VERSION ==> (r matches
            Err(e) && e == DecodeError::WrongVersion(
            vstd::bytes::spec_u32_from_le_bytes(data@.subrange(4, 8)),
        )),
        match r {
            Err(DecodeError::WrongMagic(m)) => data@.len() >= 4 && m
                == vstd::bytes::spec_u32_from_le_bytes(data@.subrange(0, 4)) && m != MAGIC,
            Err(DecodeError::WrongVersion(v)) => data@.len() >= 8
                && vstd::bytes::spec_u32_from_le_bytes(data@.subrange(0, 4)) == MAGIC && v
                == vstd::bytes::spec_u32_from_le_bytes(data@.subrange(4, 8)) && v != VERSION,
            _ => true,
        },
        forall|ns: u64, cds: Seq<ChunkDesc>|
            cds.len() < 0x1_0000_0000 && (forall|i: int|
                0 <= i < cds.len() ==> (#[trigger] cds[i]).data.len()
                    < 0x1_0000_0000_0000_0000) && data@ == #[trigger] chunked_patch_bytes(ns, cds)
                ==> (r matches Ok(p) && p.new_size == ns && p.chunks@.len() == cds.len() && (
            forall|i: int|
                0 <= i < cds.len() ==> {
                    let x = #[trigger] p.chunks@[i];
                    &&& x.old_start == cds[i].old_start
                    &&& x.new_start == cds[i].new_start
                    &&& x.new_len == cds[i].new_len
                    &&& x.raw_len == cds[i].raw_len
                    &&& x.data@ == cds[i].data
                })),
{
    let mut off: usize = 0;
    let magic = match get_u32_le(data, &mut off) {
        Ok(v) => v,
        Err(e) => {
            proof {
                lemma_no_chunked_candidate(data@);
            }
            return Err(e);
        },
    };
    if magic != MAGIC {
        proof {
            lemma_no_chunked_candidate(data@);
        }
        return Err(DecodeError::WrongMagic(magic));
    }
    let version = match get_u32_le(data, &mut off) {
        Ok(v) => v,
        Err(e) => {
            proof {
                lemma_no_chunked_candidate(data@);
            }
            return Err(e);
        },
    };
    if version != VERSION {
        proof {
            lemma_no_chunked_candidate(data@);
        }
        return Err(DecodeError::WrongVersion(version));
    }
    let new_size = match get_u64_le(data, &mut off) {
        Ok(v) => v,
        Err(e) => {
            proof {
                lemma_no_chunked_candidate(data@);
            }
            return Err(e);
        },
    };
    let num_chunks = match get_u32_le(data, &mut off) {
        Ok(v) => v,
        Err(e) => {
            proof {
                lemma_no_chunked_candidate(data@);
            }
            return Err(e);
        },
    };
    proof {
        assert forall|ns: u64, cds: Seq<ChunkDesc>|
            cds.len() < 0x1_0000_0000 && (forall|i: int|
                0 <= i < cds.len() ==> (#[trigger] cds[i]).data.len()
                    < 0x1_0000_0000_0000_0000) && data@ == #[trigger] chunked_patch_bytes(ns, cds)
            implies new_size == ns && num_chunks as nat == cds.len() && data@.skip(20)
            == chunks_bytes(cds) by {
            lemma_chunked_header_shape(ns, cds);
            assert(data@.subrange(0, 4) =~= chunked_patch_bytes(ns, cds).subrange(0, 4));
            assert(data@.subrange(4, 8) =~= chunked_patch_bytes(ns, cds).subrange(4, 8));
            assert(data@.subrange(8, 16) =~= chunked_patch_bytes(ns, cds).subrange(8, 16));
            assert(data@.subrange(16, 20) =~= chunked_patch_bytes(ns, cds).subrange(16, 20));
            assert(data@.skip(20) =~= chunked_patch_bytes(ns, cds).skip(20));
        }
    }
    let mut chunks: Vec<ChunkRef<'a>> = Vec::new();
    let mut j: usize = 0;
    let nc = num_chunks as usize;
    proof {
        assert forall|ns: u64, cds: Seq<ChunkDesc>|
            cds.len() < 0x1_0000_0000 && (forall|i: int|
                0 <= i < cds.len() ==> (#[trigger] cds[i]).data.len()
                    < 0x1_0000_0000_0000_0000) && data@ == #[trigger] chunked_patch_bytes(ns, cds)
            implies data@.skip(off as int) == chunks_bytes(cds.skip(0)) by {
            assert(cds.skip(0) =~= cds);
        }
    }
    while j < nc
        invariant
            j <= nc,
            20 <= off <= data@.len(),
            vstd::bytes::spec_u32_from_le_bytes(data@.subrange(0, 4)) == MAGIC,
            vstd::bytes::spec_u32_from_le_bytes(data@.subrange(4, 8)) == VERSION,
            chunks@.len() == j,
            forall|ns: u64, cds: Seq<ChunkDesc>|
                cds.len() < 0x1_0000_0000 && (forall|i: int|
                    0 <= i < cds.len() ==> (#[trigger] cds[i]).data.len()
                        < 0x1_0000_0000_0000_0000) && data@ == #[trigger] chunked_patch_bytes(
                    ns,
                    cds,
                ) ==> {
                    &&& nc == cds.len()
                    &&& j <= cds.len()
                    &&& data@.skip(off as int) == chunks_bytes(cds.skip(j as int))
                    &&& forall|i: int|
                        0 <= i < j ==> {
                            let x = #[trigger] chunks@[i];
                            &&& x.old_start == cds[i].old_start
                            &&& x.new_start == cds[i].new_start
                            &&& x.new_len == cds[i].new_len
                            &&& x.raw_len == cds[i].raw_len
                            &&& x.data@ == cds[i].data
                        }
                },
        decreases nc - j,
    {
        let step = read_chunk(data, off);
        let (c, new_off) = match step {
            Ok(x) => x,
            Err(e) => {
                proof {
                    assert forall|ns: u64, cds: Seq<ChunkDesc>|
                        cds.len() < 0x1_0000_0000 && (forall|i: int|
                            0 <= i < cds.len() ==> (#[trigger] cds[i]).data.len()
                                < 0x1_0000_0000_0000_0000) && data@
                        == #[trigger] chunked_patch_bytes(ns, cds) implies false by {
                        lemma_chunks_step(cds, j as int);
                        assert(data@.skip(off as int) == chunk_bytes(cds[j as int])
                            + chunks_bytes(cds.skip(j + 1)));
                    }
                }
                return Err(e);
            },
        };
        proof {
            assert forall|ns: u64, cds: Seq<ChunkDesc>|
                cds.len() < 0x1_0000_0000 && (forall|i: int|
                    0 <= i < cds.len() ==> (#[trigger] cds[i]).data.len()
                        < 0x1_0000_0000_0000_0000) && data@ == #[trigger] chunked_patch_bytes(
                ns,
                cds,
            ) implies {
                &&& data@.skip(new_off as int) == chunks_bytes(cds.skip(j + 1))
                &&& c.old_start == cds[j as int].old_start
                &&& c.new_start == cds[j as int].new_start
                &&& c.new_len == cds[j as int].new_len
                &&& c.raw_len == cds[j as int].raw_len
                &&& c.data@ == cds[j as int].data
            } by {
                lemma_chunks_step(cds, j as int);
                assert(data@.skip(off as int) == chunk_bytes(cds[j as int]) + chunks_bytes(
                    cds.skip(j + 1),
                ));
                lemma_concat_split(
                    data@.skip(off as int),
                    chunk_bytes(cds[j as int]),
                    chunks_bytes(cds.skip(j + 1)),
                );
                assert(data@.skip(new_off as int) =~= data@.skip(off as int).skip(
                    chunk_bytes(cds[j as int]).len() as int,
                ));
            }
        }
        chunks.push(c);
        off = new_off;
        j = j + 1;
    }
    proof {
        assert forall|ns: u64, cds: Seq<ChunkDesc>|
            cds.len() < 0x1_0000_0000 && (forall|i: int|
                0 <= i < cds.len() ==> (#[trigger] cds[i]).data.len()
                    < 0x1_0000_0000_0000_0000) && data@ == #[trigger] chunked_patch_bytes(ns, cds)
            implies chunks@.len() == cds.len() by {
            assert(cds.skip(nc as int) =~= Seq::<ChunkDesc>::empty());
        }
    }
    Ok(PatchRef { new_size, chunks })
}

/// A truncated or mislabelled header matches no chunked encoding.
proof fn lemma_no_chunked_candidate(data: Seq<u8>)
    ensures
        forall|ns: u64, cds: Seq<ChunkDesc>|
            cds.len() < 0x1_0000_0000 && data == #[trigger] chunked_patch_bytes(ns, cds) ==> {
                &&& data.len() >= 20
                &&& vstd::bytes::spec_u32_from_le_bytes(data.subrange(0, 4)) == MAGIC
                &&& vstd::bytes::spec_u32_from_le_bytes(data.subrange(4, 8)) == VERSION
            },
{
    assert forall|ns: u64, cds: Seq<ChunkDesc>|
        cds.len() < 0x1_0000_0000 && data == #[trigger] chunked_patch_bytes(ns, cds) implies {
        &&& data.len() >= 20
        &&& vstd::bytes::spec_u32_from_le_bytes(data.subrange(0, 4)) == MAGIC
        &&& vstd::bytes::spec_u32_from_le_bytes(data.subrange(4, 8)) == VERSION
    } by {
        lemma_chunked_header_shape(ns, cds);
        assert(data.subrange(0, 4) =~= chunked_patch_bytes(ns, cds).subrange(0, 4));
        assert(data.subrange(4, 8) =~= chunked_patch_bytes(ns, cds).subrange(4, 8));
    }
}

/// The chunked header is twenty bytes and its words read back as written.
proof fn lemma_chunked_header_shape(ns: u64, cds: Seq<ChunkDesc>)
    requires
        cds.len() < 0x1_0000_0000,
    ensures
        chunked_patch_bytes(ns, cds).len() == 20 + chunks_bytes(cds).len(),
        vstd::bytes::spec_u32_from_le_bytes(chunked_patch_bytes(ns, cds).subrange(0, 4)) == MAGIC,
        vstd::bytes::spec_u32_from_le_bytes(chunked_patch_bytes(ns, cds).subrange(4, 8))
            == VERSION,
        vstd::bytes::spec_u64_from_le_bytes(chunked_patch_bytes(ns, cds).subrange(8, 16)) == ns,
        vstd::bytes::spec_u32_from_le_bytes(chunked_patch_bytes(ns, cds).subrange(16, 20)) as nat
            == cds.len(),
        chunked_patch_bytes(ns, cds).skip(20) == chunks_bytes(cds),
{
    vstd::bytes::lemma_auto_spec_u32_to_from_le_bytes();
    vstd::bytes::lemma_auto_spec_u64_to_from_le_bytes();
    let b = chunked_patch_bytes(ns, cds);
    assert(b.subrange(0, 4) =~= vstd::bytes::spec_u32_to_le_bytes(MAGIC));
    assert(b.subrange(4, 8) =~= vstd::bytes::spec_u32_to_le_bytes(VERSION));
    assert(b.subrange(8, 16) =~= vstd::bytes::spec_u64_to_le_bytes(ns));
    assert(b.subrange(16, 20) =~= vstd::bytes::spec_u32_to_le_bytes((cds.len() as u32)));
    assert(b.skip(20) =~= chunks_bytes(cds));
}

/// A non-empty chunk list's encoding decomposes into its first record and
/// the rest.
proof fn lemma_chunks_step(cds: Seq<ChunkDesc>, k: int)
    requires
        0 <= k < cds.len(),
    ensures
        chunks_bytes(cds.skip(k)) == chunk_bytes(cds[k]) + chunks_bytes(cds.skip(k + 1)),
{
    assert(cds.skip(k)[0] == cds[k]);
    assert(cds.skip(k).drop_first() =~= cds.skip(k + 1));
}

/// Apply one chunk: decompress its control stream and run the controls
/// against the old buffer, starting at the chunk's old position. For a
/// chunk carrying a compressed well-formed stream of the stated raw
/// length, the result is exactly what those controls produce.
#[verifier::rlimit(60)]
#[verifier::spinoff_prover]
pub fn apply_chunk(chunk: &ChunkRef, old: &[u8]) -> (r: Result<Vec<u8>, DecodeError>)
    ensures
        r matches Err(e) ==> e == DecodeError::Truncated || e == DecodeError::Corrupt,
        forall|cs: Seq<Control>, level: int|
            stream_wf(cs) && chunk.data@ == #[trigger] crate::compress::zstd_compressed(
                stream_bytes(cs),
                level,
            ) && stream_bytes(cs).len() == chunk.raw_len && chunk.raw_len <= usize::MAX ==> (
            match crate::apply_controls_from(cs, old@, chunk.old_start as int, Seq::empty()) {
                Some(s) => r matches Ok(v) && v@ == s,
                None => r is Err,
            }),
{
    if chunk.raw_len > (usize::MAX as u64) {
        return Err(DecodeError::Corrupt);
    }
    let ctrl = match crate::compress::zstd_decompress(chunk.data, chunk.raw_len as usize) {
        Some(v) => v,
        None => {
            return Err(DecodeError::Corrupt);
        },
    };
    let controls = match parse_stream(ctrl.as_slice(), old) {
        Ok(cs) => cs,
        Err(e) => {
            return Err(e);
        },
    };
    let applied = crate::apply_controls_at(&controls, old, chunk.old_start);
    proof {
        assert forall|cs: Seq<Control>, level: int|
            stream_wf(cs) && chunk.data@ == #[trigger] crate::compress::zstd_compressed(
                stream_bytes(cs),
                level,
            ) && stream_bytes(cs).len() == chunk.raw_len && chunk.raw_len <= usize::MAX implies (
        match crate::apply_controls_from(cs, old@, chunk.old_start as int, Seq::empty()) {
            Some(s) => applied matches Some(v) && v@ == s,
            None => applied is None,
        }) by {
            assert(ctrl@ == stream_bytes(cs));
            assert(controls_equiv(controls@, cs));
            lemma_equiv_apply(controls@, cs, old@, chunk.old_start as int, Seq::<u8>::empty());
        }
    }
    match applied {
        Some(v) => Ok(v),
        None => Err(DecodeError::Corrupt),
    }
}

/// Apply a whole chunked patch: read the header and the chunks, apply
/// each chunk in order, and concatenate the outputs. For any chunk list
/// that tiles a new buffer over this old buffer, the result is that new
/// buffer, byte for byte — the same bytes a single-stream patch for the
/// same pair reconstructs.
#[verifier::rlimit(100)]
#[verifier::spinoff_prover]
pub fn apply_patch_chunked(patch: &[u8], old: &[u8]) -> (r: Result<Vec<u8>, DecodeError>)
    ensures
        forall|ns: u64, cds: Seq<ChunkDesc>, new: Seq<u8>|
            patch@ == #[trigger] chunked_patch_bytes(ns, cds) && #[trigger] chunks_tile(
                cds,
                new,
                old@,
            ) ==> (r matches Ok(v) && v@ == new),
{
    let p = match read_patch(patch) {
        Ok(p) => p,
        Err(e) => {
            return Err(e);
        },
    };
    let nchunks = p.chunks.len();
    let mut out: Vec<u8> = Vec::new();
    let mut i: usize = 0;
    while i < nchunks
        invariant
            i <= nchunks,
            nchunks == p.chunks@.len(),
            forall|ns: u64, cds: Seq<ChunkDesc>, new: Seq<u8>|
                patch@ == #[trigger] chunked_patch_bytes(ns, cds) && #[trigger] chunks_tile(
                    cds,
                    new,
                    old@,
                ) ==> {
                    &&& nchunks == cds.len()
                    &&& i <= cds.len()
                    &&& (forall|q: int|
                        0 <= q < cds.len() ==> {
                            let x = #[trigger] p.chunks@[q];
                            &&& x.old_start == cds[q].old_start
                            &&& x.new_start == cds[q].new_start
                            &&& x.new_len == cds[q].new_len
                            &&& x.raw_len == cds[q].raw_len
                            &&& x.data@ == cds[q].data
                        })
                    &&& out@ == new.take(
                        if i == 0 {
                            0int
                        } else {
                            cds[i - 1].new_start + cds[i - 1].new_len
                        },
                    )
                },
        decreases nchunks - i,
    {
        let step = apply_chunk(&p.chunks[i], old);
        let v = match step {
            Ok(v) => v,
            Err(e) => {
                proof {
                    assert forall|ns: u64, cds: Seq<ChunkDesc>, new: Seq<u8>|
                        patch@ == #[trigger] chunked_patch_bytes(ns, cds) && #[trigger] chunks_tile(
                            cds,
                            new,
                            old@,
                        ) implies false by {
                        let cd = cds[i as int];
                        assert(chunk_applies(cd, old@, new.subrange(
                            cd.new_start as int,
                            cd.new_start + cd.new_len,
                        )));
                        let (cs, level) = choose|cs: Seq<Control>, level: int|
                            {
                                &&& stream_wf(cs)
                                &&& cd.data == #[trigger] crate::compress::zstd_compressed(
                                    stream_bytes(cs),
                                    level,
                                )
                                &&& stream_bytes(cs).len() == cd.raw_len
                                &&& crate::apply_controls_from(
                                    cs,
                                    old@,
                                    cd.old_start as int,
                                    Seq::empty(),
                                ) == Some(new.subrange(cd.new_start as int, cd.new_start
                                    + cd.new_len))
                            };
                        assert(p.chunks@[i as int].data@ == crate::compress::zstd_compressed(
                            stream_bytes(cs),
                            level,
                        ));
                    }
                }
                return Err(e);
            },
        };
        let ghost pre_out = out@;
        let mut v_mut = v;
        out.append(&mut v_mut);
        proof {
            assert forall|ns: u64, cds: Seq<ChunkDesc>, new: Seq<u8>|
                patch@ == #[trigger] chunked_patch_bytes(ns, cds) && #[trigger] chunks_tile(
                    cds,
                    new,
                    old@,
                ) implies out@ == new.take(cds[i as int].new_start + cds[i as int].new_len) by {
                let cd = cds[i as int];
                assert(chunk_applies(cd, old@, new.subrange(
                    cd.new_start as int,
                    cd.new_start + cd.new_len,
                )));
                let (cs, level) = choose|cs: Seq<Control>, level: int|
                    {
                        &&& stream_wf(cs)
                        &&& cd.data == #[trigger] crate::compress::zstd_compressed(
                            stream_bytes(cs),
                            level,
                        )
                        &&& stream_bytes(cs).len() == cd.raw_len
                        &&& crate::apply_controls_from(
                            cs,
                            old@,
                            cd.old_start as int,
                            Seq::empty(),
                        ) == Some(new.subrange(cd.new_start as int, cd.new_start + cd.new_len))
                    };
                assert(p.chunks@[i as int].data@ == crate::compress::zstd_compressed(
                    stream_bytes(cs),
                    level,
                ));
                assert(pre_out == new.take(cd.new_start as int));
                assert(out@ =~= new.take(cd.new_start + cd.new_len));
            }
        }
        i = i + 1;
    }
    proof {
        assert forall|ns: u64, cds: Seq<ChunkDesc>, new: Seq<u8>|
            patch@ == #[trigger] chunked_patch_bytes(ns, cds) && #[trigger] chunks_tile(
                cds,
                new,
                old@,
            ) implies out@ == new by {
            assert(out@ == new.take(cds[cds.len() - 1].new_start + cds[cds.len() - 1].new_len));
            assert(new.take(new.len() as int) =~= new);
        }
    }
    Ok(out)
}

} // verus!
