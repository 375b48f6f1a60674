use sais::{construct_suffix_array_parallel, lcp_array_parallel, lcp_array_serial};

/// A deterministic pseudo-random byte sequence over a small alphabet.
fn sample_text(len: usize) -> Vec<u8> {
    let mut state: u64 = 0x0fed_cba9_8765_4321;
    let mut out = Vec::with_capacity(len);
    for _ in 0..len {
        state = state.wrapping_mul(6364136223846793005).wrapping_add(1442695040888963407);
        out.push(b'a' + ((state >> 33) % 3) as u8);
    }
    out
}

/// The length of the longest common prefix of `text[i..]` and `text[j..]`.
fn common_prefix_len(text: &[u8], i: usize, j: usize) -> usize {
    let mut h = 0;
    while i + h < text.len() && j + h < text.len() && text[i + h] == text[j + h] {
        h += 1;
    }
    h
}

#[test]
fn test_lcp_array_parallel() {
    let text = "banana".as_bytes();
    let sa = construct_suffix_array_parallel(text);
    let lcp_parallel = lcp_array_parallel(&sa, text);
    let lcp_serial = lcp_array_serial(&sa, text);
    // The expected LCP array for "banana" with sa [5, 3, 1, 0, 4, 2] is [1, 3, 0, 0, 2]
    assert_eq!(lcp_parallel, lcp_serial); // The last element is always 0 as there is no suffix after the last one.
}

#[test]
fn banana_lcp_values() {
    let text = "banana".as_bytes();
    let sa = construct_suffix_array_parallel(text);
    assert_eq!(sa, vec![5, 3, 1, 0, 4, 2]);
    assert_eq!(lcp_array_parallel(&sa, text), vec![1, 3, 0, 0, 2]);
    assert_eq!(lcp_array_serial(&sa, text), vec![1, 3, 0, 0, 2]);
}

#[test]
fn empty_text_yields_empty_lcp() {
    let sa: Vec<usize> = Vec::new();
    assert_eq!(lcp_array_parallel(&sa, "".as_bytes()), Vec::<usize>::new());
    assert_eq!(lcp_array_serial(&sa, "".as_bytes()), Vec::<usize>::new());
}

#[test]
fn single_character_yields_empty_lcp() {
    let text = "a".as_bytes();
    let sa = construct_suffix_array_parallel(text);
    assert_eq!(sa, vec![0]);
    assert_eq!(lcp_array_parallel(&sa, text), Vec::<usize>::new());
    assert_eq!(lcp_array_serial(&sa, text), Vec::<usize>::new());
}

#[test]
fn cross_validation_on_long_text() {
    let text = sample_text(4000);
    let sa = construct_suffix_array_parallel(&text);
    let parallel = lcp_array_parallel(&sa, &text);
    let serial = lcp_array_serial(&sa, &text);
    assert_eq!(parallel, serial);
}

#[test]
fn lcp_matches_direct_scan() {
    let text = sample_text(1500);
    let sa = construct_suffix_array_parallel(&text);
    let lcp = lcp_array_parallel(&sa, &text);
    assert_eq!(lcp.len(), text.len() - 1);
    for k in 0..lcp.len() {
        assert_eq!(lcp[k], common_prefix_len(&text, sa[k], sa[k + 1]));
    }
}

#[test]
fn lcp_bound_property() {
    let text = sample_text(2000);
    let n = text.len();
    let sa = construct_suffix_array_parallel(&text);
    let lcp = lcp_array_parallel(&sa, &text);
    for k in 0..lcp.len() {
        let i = sa[k];
        let j = sa[k + 1];
        let h = lcp[k];
        assert!(h <= n - i.max(j));
        assert_eq!(&text[i..i + h], &text[j..j + h]);
        if i + h < n && j + h < n {
            assert_ne!(text[i + h], text[j + h]);
        }
    }
}

#[test]
fn determinism_of_repeated_lcp_builds() {
    let text = sample_text(2500);
    let sa = construct_suffix_array_parallel(&text);
    let first = lcp_array_parallel(&sa, &text);
    let second = lcp_array_parallel(&sa, &text);
    assert_eq!(first, second);
    let serial_first = lcp_array_serial(&sa, &text);
    let serial_second = lcp_array_serial(&sa, &text);
    assert_eq!(serial_first, serial_second);
}
