use sais::construct_suffix_array_parallel;

/// Reference suffix array: sort the start offsets by comparing the suffixes
/// directly.
fn reference_suffix_array(text: &[u8]) -> Vec<usize> {
    let mut v: Vec<usize> = (0..text.len()).collect();
    v.sort_by(|&a, &b| text[a..].cmp(&text[b..]));
    v
}

/// A deterministic pseudo-random byte sequence over a small alphabet, long
/// enough to spread over many chunks.
fn sample_text(len: usize) -> Vec<u8> {
    let mut state: u64 = 0x1234_5678_9abc_def0;
    let mut out = Vec::with_capacity(len);
    for _ in 0..len {
        state = state.wrapping_mul(6364136223846793005).wrapping_add(1442695040888963407);
        out.push(b'a' + ((state >> 33) % 4) as u8);
    }
    out
}

#[test]
fn test_construct_suffix_array_parallel() {
    let text = "banana".as_bytes();
    let sa = construct_suffix_array_parallel(text);
    assert_eq!(sa, vec![5, 3, 1, 0, 4, 2]);
}

#[test]
fn empty_text_yields_empty_suffix_array() {
    let sa = construct_suffix_array_parallel("".as_bytes());
    assert_eq!(sa, Vec::<usize>::new());
}

#[test]
fn single_character_text() {
    let sa = construct_suffix_array_parallel("a".as_bytes());
    assert_eq!(sa, vec![0]);
}

#[test]
fn degenerate_chunking_small_inputs() {
    // Texts shorter than any realistic worker count force the chunk count
    // down to the text length.
    for text in ["b", "ba", "ban", "bana", "banan", "aaaa", "zyxw"] {
        let bytes = text.as_bytes();
        let sa = construct_suffix_array_parallel(bytes);
        assert_eq!(sa, reference_suffix_array(bytes));
    }
}

#[test]
fn permutation_property_on_long_text() {
    let text = sample_text(5000);
    let sa = construct_suffix_array_parallel(&text);
    assert_eq!(sa.len(), text.len());
    let mut seen = sa.clone();
    seen.sort();
    let expected: Vec<usize> = (0..text.len()).collect();
    assert_eq!(seen, expected);
}

#[test]
fn sortedness_property_on_long_text() {
    let text = sample_text(5000);
    let sa = construct_suffix_array_parallel(&text);
    for k in 0..sa.len().saturating_sub(1) {
        assert!(text[sa[k]..] <= text[sa[k + 1]..]);
    }
}

#[test]
fn matches_reference_on_long_text() {
    let text = sample_text(3000);
    let sa = construct_suffix_array_parallel(&text);
    assert_eq!(sa, reference_suffix_array(&text));
}

#[test]
fn determinism_of_repeated_builds() {
    let text = sample_text(2000);
    let first = construct_suffix_array_parallel(&text);
    let second = construct_suffix_array_parallel(&text);
    assert_eq!(first, second);
}
