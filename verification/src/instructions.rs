//! A reference mutator that derives a "newer" buffer from an "older" one
//! and an instruction byte string; used by the round-trip tests to build
//! related buffer pairs. Instructions are consumed in pairs `(i, j)`:
//! `i < 128` appends a slice of the buffer starting at `i` modulo its
//! length, `j` bytes long at most; `i < 150` appends `i - 128` copies of
//! `j`; anything else swaps two neighbouring bytes chosen by `j`.

use vstd::prelude::*;

verus! {

/// The effect of one instruction pair on the buffer built so far.
pub open spec fn instr_step(cur: Seq<u8>, i: u8, j: u8) -> Seq<u8> {
    if i < 128 {
        if cur.len() == 0 {
            cur
        } else {
            let pos = (i as int) % (cur.len() as int);
            let end = if pos + j as int <= cur.len() {
                pos + j as int
            } else {
                cur.len() as int
            };
            cur + cur.subrange(pos, end)
        }
    } else if i < 150 {
        cur + Seq::new((i - 128) as nat, |k: int| j)
    } else {
        if cur.len() == 0 {
            cur
        } else {
            let a = (j as int) % (cur.len() as int);
            let b = (a + 1) % (cur.len() as int);
            cur.update(a, cur[b]).update(b, cur[a])
        }
    }
}

/// The buffer after consuming all whole instruction pairs.
pub open spec fn apply_instructions_spec(cur: Seq<u8>, instructions: Seq<u8>) -> Seq<u8>
    decreases instructions.len(),
{
    if instructions.len() < 2 {
        cur
    } else {
        apply_instructions_spec(
            instr_step(cur, instructions[0], instructions[1]),
            instructions.skip(2),
        )
    }
}

/// Generate a "newer" input from an "older" input and a set of
/// instructions.
pub fn apply_instructions(older: &[u8], instructions: &[u8]) -> (r: Vec<u8>)
    ensures
        r@ == apply_instructions_spec(older@, instructions@),
{
    let mut newer: Vec<u8> = vstd::slice::slice_to_vec(older);
    let ilen = instructions.len();
    let mut p: usize = 0;
    proof {
        assert(instructions@.skip(0) == instructions@);
    }
    while p + 1 < ilen
        invariant
            p <= ilen,
            ilen == instructions@.len(),
            p % 2 == 0,
            apply_instructions_spec(older@, instructions@) == apply_instructions_spec(
                newer@,
                instructions@.skip(p as int),
            ),
        decreases ilen - p,
    {
        let i = instructions[p];
        let j = instructions[p + 1];
        let ghost pre = newer@;
        if i < 128 {
            let n = newer.len();
            if n > 0 {
                let pos = (i as usize) % n;
                let len = j as usize;
                let end = if len <= n - pos {
                    pos + len
                } else {
                    n
                };
                let mut k = pos;
                while k < end
                    invariant
                        pos <= k <= end <= pre.len(),
                        newer@ == pre + pre.subrange(pos as int, k as int),
                    decreases end - k,
                {
                    let b = newer[k];
                    proof {
                        assert(newer@[k as int] == pre[k as int]);
                    }
                    newer.push(b);
                    proof {
                        assert(newer@ =~= pre + pre.subrange(pos as int, k + 1));
                    }
                    k = k + 1;
                }
                proof {
                    assert(newer@ =~= instr_step(pre, i, j));
                }
            }
        } else if i < 150 {
            let reps = (i - 128) as usize;
            let mut k: usize = 0;
            while k < reps
                invariant
                    k <= reps,
                    newer@ == pre + Seq::new(k as nat, |q: int| j),
                decreases reps - k,
            {
                newer.push(j);
                proof {
                    assert(newer@ =~= pre + Seq::new((k + 1) as nat, |q: int| j));
                }
                k = k + 1;
            }
            proof {
                assert(newer@ =~= instr_step(pre, i, j));
            }
        } else {
            let n = newer.len();
            if n > 0 {
                let a = (j as usize) % n;
                let b = (a + 1) % n;
                let va = newer[a];
                let vb = newer[b];
                newer.set(a, vb);
                newer.set(b, va);
                proof {
                    assert(newer@ =~= instr_step(pre, i, j));
                }
            }
        }
        proof {
            assert(newer@ == instr_step(pre, i, j));
            assert(instructions@.skip(p as int)[0] == instructions@[p as int]);
            assert(instructions@.skip(p as int)[1] == instructions@[p + 1]);
            assert(instructions@.skip(p as int).skip(2) =~= instructions@.skip(p + 2));
        }
        p = p + 2;
    }
    proof {
        assert(instructions@.skip(p as int).len() < 2);
    }
    newer
}

} // verus!
