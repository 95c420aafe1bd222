use bidiff::HashIndex;
use bidiff::common_prefix_len;
use bidiff::count_matching_bytes;
use bidiff::hash_block;
use bidiff::matchlen;

#[test]
fn basic_match() {
    let text = b"hello world, hello rust!";
    let idx = HashIndex::new(text, 4);
    // "hell" appears at offset 0 and 13. The hash table stores only one
    // entry per unique block, so we get whichever one was stored. The match
    // extends forward from that point. Either way we get a valid match.
    let result = idx.longest_substring_match(b"hello rust");
    assert!(
        result.len >= 5,
        "expected match of at least 5, got {} at offset {}",
        result.len,
        result.start
    );
}

#[test]
fn no_match() {
    let text = b"abcdefghijklmnop";
    let idx = HashIndex::new(text, 4);
    let result = idx.longest_substring_match(b"xyzw1234");
    assert_eq!(result.len, 0);
}

#[test]
fn empty_text() {
    let text = b"";
    let idx = HashIndex::new(text, 4);
    let result = idx.longest_substring_match(b"hello");
    assert_eq!(result.len, 0);
}

#[test]
fn short_needle() {
    let text = b"abcdefghijklmnop";
    let idx = HashIndex::new(text, 4);
    // Needle shorter than block_size — can't hash
    let result = idx.longest_substring_match(b"ab");
    assert_eq!(result.len, 0);
}

#[test]
fn aligned_match() {
    // "the " starts at offset 0 (aligned to block_size=4),
    // so "the lazy" should find a match starting there or at offset 31.
    let text = b"the quick brown fox jumps over the lazy dog!";
    let idx = HashIndex::new(text, 4);
    let result = idx.longest_substring_match(b"the lazy dog!");
    // "the " at offset 32 is block-aligned (32/4=8), should match
    assert!(result.len >= 4, "expected match >= 4, got {}", result.len);
}

#[test]
fn match_is_real_substring() {
    // "shared contents" starts at offset 8, a block boundary.
    let text = b"junkpad shared contents trailer";
    let idx = HashIndex::new(text, 4);
    let needle = b"shared contents!";
    let result = idx.longest_substring_match(needle);
    assert!(result.len > 0);
    assert_eq!(
        &text[result.start..result.start + result.len],
        &needle[..result.len]
    );
    assert_eq!(result.as_slice(), &needle[..result.len]);
    assert_eq!(result.start(), result.start);
    assert_eq!(result.len(), result.len);
}

#[test]
fn prefetch_matches_lookup() {
    let text = b"0123456789abcdefghijklmnopqrstuvwxyz0123456789abcdef";
    let idx = HashIndex::new(text, 8);
    let needle = &text[8..];
    let h = idx.prefetch_block(needle).expect("needle holds a full block");
    let with_hash = idx.longest_substring_match_with_hash(needle, h);
    let plain = idx.longest_substring_match(needle);
    assert_eq!(with_hash.start, plain.start);
    assert_eq!(with_hash.len, plain.len);
    assert!(idx.prefetch_block(b"abc").is_none());
    assert_eq!(idx.block_size(), 8);
}

#[test]
fn fnv_fallback_exact() {
    // Blocks shorter than 32 bytes hash with FNV-1a.
    assert_eq!(hash_block(b"abc"), 0xe71fa2190541574b);
}

#[test]
fn wide_hash_is_content_based() {
    let a = [7u8; 40];
    let mut b = [7u8; 40];
    assert_eq!(hash_block(&a[..32]), hash_block(&b[..32]));
    b[31] = 8;
    assert_ne!(hash_block(&a[..32]), hash_block(&b[..32]));
}

#[test]
fn byte_helpers_exact() {
    assert_eq!(common_prefix_len(b"abcd", b"abxd"), 2);
    assert_eq!(common_prefix_len(b"abc", b"abc"), 3);
    assert_eq!(common_prefix_len(b"", b"abc"), 0);
    assert_eq!(matchlen(b"hello!", b"help"), 3);
    assert_eq!(count_matching_bytes(b"abcd", b"axcx"), 2);
    assert_eq!(count_matching_bytes(b"abcd", b""), 0);
}
