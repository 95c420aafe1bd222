//! The chunked format's per-chunk compression, through the zstd crate.

use vstd::prelude::*;

verus! {

/// What zstd block compression produces for a given input and level: a
/// function of its arguments alone. No contract states what these bytes
/// are; [`zstd_decompress`] relates them back to the input.
pub uninterp spec fn zstd_compressed(data: Seq<u8>, level: int) -> Seq<u8>;

/// Relies on zstd::bulk::compress: one-shot block compression of `data`
/// at `level`, deterministic in its arguments. The vendored source sizes
/// the output with compress_bound and clamps out-of-range levels, so the
/// call succeeds unless the allocator fails — a failure this verification,
/// like the surrounding standard-library specifications, treats as absent.
#[verifier::external_body]
pub(crate) fn zstd_compress(data: &[u8], level: i32) -> (r: Option<Vec<u8>>)
    ensures
        r is Some,
        r matches Some(v) ==> v@ == zstd_compressed(data@, level as int),
{
    match zstd::bulk::compress(data, level) {
        Ok(v) => Some(v),
        Err(_) => None,
    }
}

/// Relies on zstd::bulk::decompress: decompressing a block that
/// zstd::bulk::compress produced yields the original input, as long as it
/// fits in `capacity` bytes; any output is at most `capacity` bytes.
/// Returns nothing when the library reports an error.
#[verifier::external_body]
pub(crate) fn zstd_decompress(data: &[u8], capacity: usize) -> (r: Option<Vec<u8>>)
    ensures
        r matches Some(v) ==> v@.len() <= capacity,
        r matches Some(v) ==> forall|x: Seq<u8>, level: int|
            data@ == #[trigger] zstd_compressed(x, level) && x.len() <= capacity ==> v@ == x,
        r is None ==> forall|x: Seq<u8>, level: int|
            data@ == #[trigger] zstd_compressed(x, level) ==> x.len() > capacity,
{
    match zstd::bulk::decompress(data, capacity) {
        Ok(v) => Some(v),
        Err(_) => None,
    }
}

} // verus!
