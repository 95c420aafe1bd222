//! Variable-length integer encoding for the patch format.
//!
//! Unsigned values use the LEB128 layout: seven payload bits per byte,
//! least-significant group first, high bit set on every byte except the
//! last. Signed values are mapped to unsigned ones with the zig-zag
//! transform before encoding.

use vstd::prelude::*;

verus! {

/// The LEB128 encoding of `v`: low seven bits first, high bit marks
/// continuation.
pub open spec fn varint_bytes(v: nat) -> Seq<u8>
    decreases v,
{
    if v < 0x80 {
        seq![v as u8]
    } else {
        seq![((v % 0x80) + 0x80) as u8] + varint_bytes(v / 0x80)
    }
}

/// 128 to the power `k`.
pub open spec fn pow128(k: nat) -> nat
    decreases k,
{
    if k == 0 {
        1
    } else {
        0x80 * pow128((k - 1) as nat)
    }
}

pub proof fn lemma_varint_bytes_len(v: nat, k: nat)
    requires
        1 <= k,
        v < pow128(k),
    ensures
        1 <= varint_bytes(v).len() <= k,
    decreases v,
{
    if v < 0x80 {
    } else {
        assert(pow128(k) == 0x80 * pow128((k - 1) as nat));
        assert(v / 0x80 < pow128((k - 1) as nat)) by (nonlinear_arith)
            requires
                v < 0x80 * pow128((k - 1) as nat),
                0x80 <= v,
        ;
        lemma_varint_bytes_len(v / 0x80, (k - 1) as nat);
    }
}

pub proof fn lemma_u64_fits_pow128_10(v: nat)
    requires
        v < 0x1_0000_0000_0000_0000,
    ensures
        v < pow128(10),
{
    reveal_with_fuel(pow128, 11);
    assert(pow128(10) == 0x80 * (0x80 * (0x80 * (0x80 * (0x80 * (0x80 * (0x80 * (0x80 * (0x80 * (
    0x80 * 1))))))))));
}

/// The zig-zag image of a signed value: non-negative values map to even
/// numbers, negative ones to odd numbers.
pub open spec fn zigzag(v: int) -> nat {
    if v >= 0 {
        (2 * v) as nat
    } else {
        (-2 * v - 1) as nat
    }
}

pub proof fn lemma_zigzag_injective(a: int, b: int)
    requires
        zigzag(a) == zigzag(b),
    ensures
        a == b,
{
}

/// Append the LEB128 encoding of `v` to `out`.
pub fn write_varint_u64(out: &mut Vec<u8>, v: u64)
    ensures
        final(out)@ == old(out)@ + varint_bytes(v as nat),
    decreases v,
{
    if v < 0x80 {
        out.push(v as u8);
        assert(final(out)@ =~= old(out)@ + varint_bytes(v as nat));
    } else {
        let b: u8 = ((v % 0x80) + 0x80) as u8;
        out.push(b);
        write_varint_u64(out, v / 0x80);
        assert(final(out)@ =~= old(out)@ + varint_bytes(v as nat));
    }
}

/// Append the zig-zag LEB128 encoding of `v` to `out`.
pub fn write_varint_i64(out: &mut Vec<u8>, v: i64)
    ensures
        final(out)@ == old(out)@ + varint_bytes(zigzag(v as int)),
{
    let z: u64 = if v >= 0 {
        (v as u64) * 2
    } else {
        let m: u64 = (-(v + 1)) as u64;
        m * 2 + 1
    };
    assert(z as nat == zigzag(v as int));
    write_varint_u64(out, z);
}

fn read_varint_from(data: &[u8], pos: usize, depth: usize) -> (r: Option<(u64, usize)>)
    requires
        pos <= data@.len(),
        depth <= 10,
    ensures
        match r {
            Some((v, end)) => pos < end <= data@.len(),
            None => true,
        },
        forall|v: u64|
            (#[trigger] varint_bytes(v as nat)).len() <= 10 - depth && varint_bytes(v as nat).is_prefix_of(data@.skip(pos as int)) ==> r == Some::<(u64, usize)>(
                (v, (pos + varint_bytes(v as nat).len()) as usize),
            ),
    decreases 10 - depth,
{
    if depth >= 10 || pos >= data.len() {
        proof {
            assert forall|v: u64|
                (#[trigger] varint_bytes(v as nat)).len() <= 10 - depth && varint_bytes(v as nat).is_prefix_of(data@.skip(pos as int)) implies false by {
                lemma_u64_fits_pow128_10(v as nat);
                lemma_varint_bytes_len(v as nat, 10);
            }
        }
        return None;
    }
    let b = data[pos];
    if b < 0x80 {
        proof {
            assert forall|v: u64|
                (#[trigger] varint_bytes(v as nat)).len() <= 10 - depth && varint_bytes(v as nat).is_prefix_of(data@.skip(pos as int)) implies v == b as u64 && varint_bytes(v as nat).len()
                == 1 by {
                assert(varint_bytes(v as nat)[0] == data@.skip(pos as int)[0]);
                assert(data@.skip(pos as int)[0] == data@[pos as int]);
                if v as nat >= 0x80 {
                    assert(varint_bytes(v as nat)[0] == ((v as nat % 0x80) + 0x80) as u8);
                } else {
                    assert(varint_bytes(v as nat)[0] == v as u8);
                }
            }
        }
        Some((b as u64, pos + 1))
    } else {
        match read_varint_from(data, pos + 1, depth + 1) {
            None => {
                proof {
                    assert forall|v: u64|
                        (#[trigger] varint_bytes(v as nat)).len() <= 10 - depth && varint_bytes(
                            v as nat,
                        ).is_prefix_of(data@.skip(pos as int)) implies false by {
                        lemma_split_prefix(v as u64, data@, pos as int, b);
                    }
                }
                None
            },
            Some((rest, end)) => {
                let low: u64 = (b - 0x80) as u64;
                if rest > (0xFFFF_FFFF_FFFF_FFFFu64 - low) / 0x80 {
                    proof {
                        assert forall|v: u64|
                            (#[trigger] varint_bytes(v as nat)).len() <= 10 - depth && varint_bytes(
                                v as nat,
                            ).is_prefix_of(data@.skip(pos as int)) implies false by {
                            lemma_split_prefix(v as u64, data@, pos as int, b);
                            let w = (v as nat) / 0x80;
                            assert(varint_bytes(w).is_prefix_of(data@.skip(pos + 1)));
                            assert(rest == w as u64);
                            vstd::arithmetic::div_mod::lemma_fundamental_div_mod(v as int, 0x80);
                            assert(v as nat == 0x80 * w + (v as nat) % 0x80);
                            assert((v as nat) % 0x80 == low as nat);
                            assert(0x80 * (rest as nat) + (low as nat)
                                <= 0xFFFF_FFFF_FFFF_FFFFnat) by (nonlinear_arith)
                                requires
                                    0x80 * (rest as nat) + (low as nat) == v as nat,
                                    v as nat <= 0xFFFF_FFFF_FFFF_FFFFnat,
                            ;
                            assert(rest as nat <= ((0xFFFF_FFFF_FFFF_FFFFnat - low as nat))
                                / 0x80) by (nonlinear_arith)
                                requires
                                    0x80 * (rest as nat) + (low as nat)
                                        <= 0xFFFF_FFFF_FFFF_FFFFnat,
                            ;
                        }
                    }
                    None
                } else {
                    let v: u64 = rest * 0x80 + low;
                    proof {
                        assert(rest as nat * 0x80 + low as nat <= 0xFFFF_FFFF_FFFF_FFFFnat)
                            by (nonlinear_arith)
                            requires
                                rest as nat <= (0xFFFF_FFFF_FFFF_FFFFnat - low as nat) / 0x80,
                                low < 0x80,
                        ;
                        assert forall|w: u64|
                            (#[trigger] varint_bytes(w as nat)).len() <= 10 - depth && varint_bytes(
                                w as nat,
                            ).is_prefix_of(data@.skip(pos as int)) implies w == v && (pos + varint_bytes(
                            w as nat,
                        ).len()) as usize == end by {
                            lemma_split_prefix(w as u64, data@, pos as int, b);
                            let wr = (w as nat) / 0x80;
                            assert(rest == wr as u64);
                            assert(end == pos + 1 + varint_bytes(wr).len());
                            vstd::arithmetic::div_mod::lemma_fundamental_div_mod(w as int, 0x80);
                            assert(w as nat == 0x80 * wr + (w as nat) % 0x80);
                            assert((w as nat) % 0x80 == low as nat);
                        }
                    }
                    Some((v, end))
                }
            },
        }
    }
}

/// If a varint encoding of `v` sits at `pos` and the byte there carries the
/// continuation bit `b >= 0x80`, then `v` is at least `0x80`, its low group
/// is `b - 0x80`, and the encoding of `v / 0x80` sits at `pos + 1`.
proof fn lemma_split_prefix(v: u64, data: Seq<u8>, pos: int, b: u8)
    requires
        0 <= pos < data.len(),
        data[pos] == b,
        b >= 0x80,
        varint_bytes(v as nat).is_prefix_of(data.skip(pos)),
    ensures
        v >= 0x80,
        (v as nat) % 0x80 == (b - 0x80) as nat,
        varint_bytes((v as nat) / 0x80).is_prefix_of(data.skip(pos + 1)),
        varint_bytes((v as nat) / 0x80).len() == varint_bytes(v as nat).len() - 1,
{
    let s = varint_bytes(v as nat);
    assert(s[0] == data.skip(pos)[0]);
    assert(data.skip(pos)[0] == data[pos]);
    if (v as nat) < 0x80 {
        assert(s[0] == v as u8);
        assert(false);
    }
    assert(s == seq![((v as nat % 0x80) + 0x80) as u8] + varint_bytes((v as nat) / 0x80));
    let rest = varint_bytes((v as nat) / 0x80);
    assert forall|i: int| 0 <= i < rest.len() implies rest[i] == data.skip(pos + 1)[i] by {
        assert(s[i + 1] == data.skip(pos)[i + 1]);
        assert(s[i + 1] == rest[i]);
        assert(data.skip(pos)[i + 1] == data.skip(pos + 1)[i]);
    }
    assert(rest.is_prefix_of(data.skip(pos + 1))) by {
        assert(rest =~= data.skip(pos + 1).take(rest.len() as int));
    }
}

/// Read a LEB128 varint at `pos`; `None` when the bytes there are not the
/// encoding of any 64-bit value (truncation, or a run past ten bytes).
pub fn read_varint_u64(data: &[u8], pos: usize) -> (r: Option<(u64, usize)>)
    requires
        pos <= data@.len(),
    ensures
        match r {
            Some((v, end)) => pos < end <= data@.len(),
            None => true,
        },
        forall|v: u64|
            varint_bytes(v as nat).is_prefix_of(data@.skip(pos as int)) ==> r == Some::<(u64, usize)>(
                (v, (pos + (#[trigger] varint_bytes(v as nat)).len()) as usize),
            ),
{
    let r = read_varint_from(data, pos, 0);
    proof {
        assert forall|v: u64| varint_bytes(v as nat).is_prefix_of(data@.skip(pos as int)) implies r
            == Some::<(u64, usize)>((v, (pos + varint_bytes(v as nat).len()) as usize)) by {
            lemma_u64_fits_pow128_10(v as nat);
            lemma_varint_bytes_len(v as nat, 10);
        }
    }
    r
}

/// Read a zig-zag LEB128 varint at `pos`.
pub fn read_varint_i64(data: &[u8], pos: usize) -> (r: Option<(i64, usize)>)
    requires
        pos <= data@.len(),
    ensures
        match r {
            Some((v, end)) => pos < end <= data@.len(),
            None => true,
        },
        forall|v: i64|
            (#[trigger] varint_bytes(zigzag(v as int))).is_prefix_of(data@.skip(pos as int)) ==> r
                == Some::<(i64, usize)>((v, (pos + varint_bytes(zigzag(v as int)).len()) as usize)),
{
    match read_varint_u64(data, pos) {
        None => {
            proof {
                assert forall|v: i64|
                    (#[trigger] varint_bytes(zigzag(v as int))).is_prefix_of(data@.skip(pos as int)) implies
                false by {
                    let z: u64 = (zigzag(v as int)) as u64;
                    assert(varint_bytes(z as nat).is_prefix_of(data@.skip(pos as int)));
                }
            }
            None
        },
        Some((z, end)) => {
            let v: i64 = if z % 2 == 0 {
                (z / 2) as i64
            } else {
                -((z / 2) as i64) - 1
            };
            proof {
                assert(zigzag(v as int) == z as nat);
                assert forall|w: i64|
                    (#[trigger] varint_bytes(zigzag(w as int))).is_prefix_of(data@.skip(pos as int)) implies w
                    == v && (pos + varint_bytes(zigzag(w as int)).len()) as usize == end by {
                    let zw: u64 = (zigzag(w as int)) as u64;
                    assert(varint_bytes(zw as nat).is_prefix_of(data@.skip(pos as int)));
                    assert(zw == z);
                    lemma_zigzag_injective(w as int, v as int);
                }
            }
            Some((v, end))
        },
    }
}

} // verus!
