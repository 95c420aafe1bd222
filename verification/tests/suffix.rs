use bidiff::SuffixArray;

#[test]
fn it_works() {
    let input: &[u8] = &[1, 0, 0, 2, 2, 0, 0, 2, 2, 0, 1, 0];
    let sa = SuffixArray::new(input);
    assert!(sa.check_valid());

    // all substrings should be found in input
    for i in 1..input.len() {
        let needle = &input[i..];
        let res = sa.search(needle);
        assert_eq!(res.len(), needle.len());
    }
}

#[test]
fn search_finds_inner_matches() {
    let text = b"the quick brown fox jumps over the lazy dog";
    let sa = SuffixArray::new(text);
    assert!(sa.check_valid());
    let res = sa.search(b"lazy dog!");
    // Unlike the block-hash index, the suffix array anchors at arbitrary
    // offsets: "lazy dog" is found even though it is not aligned.
    assert_eq!(res.len, 8);
    assert_eq!(&text[res.start..res.start + res.len], b"lazy dog");
    let none = sa.search(b"\xffzzz");
    assert_eq!(none.len, 0);
}
