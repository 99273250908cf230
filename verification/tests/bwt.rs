use libribzip2::block::bwt::bwt_internal::{bwt, bwt_private};
use libribzip2::block::bwt::bwt_inverse::{inverse_bwt, stable_order};
use libribzip2::block::bwt::duval::{duval, rotate_duval};
use libribzip2::block::bwt::sais::{build_suffix_array, check_suffix_array, sort_suffixes, suffix_less};

#[test]
pub fn banana() {
    let bwt_result = bwt(b"banana".to_vec());
    assert_eq!(bwt_result.data, b"nnbaaa".to_vec());
}

#[test]
pub fn bananaa() {
    let bwt_result = bwt(b"bananaa".to_vec());
    assert_eq!(bwt_result.data, b"nanbaaa".to_vec());
}

#[test]
pub fn banana2() {
    let bwt_result = bwt(b"banana".to_vec());
    assert_eq!(bwt_result.data, b"nnbaaa".to_vec());
    assert_eq!(bwt_result.end_of_string, 3);
}

#[test]
pub fn longer_text() {
    let bwt_result = bwt(b"If Peter Piper picked a peck of pickled peppers, where's the peck of pickled peppers Peter Piper picked?????".to_vec());
    assert_eq!(24, bwt_result.end_of_string);
    assert_eq!(b"fsrrdkkeaddrrffs,esd?????     eeiiiieeeehrppkllkppttpphppPPIootwppppPPcccccckk      iipp    eeeeeeeeer'ree  ".to_vec(), bwt_result.data);
}

#[test]
pub fn banana3() {
    let bwt_result = bwt(b"bananaaar".to_vec());
    assert_eq!(bwt_result.data, b"nanbaraaa".to_vec());
    assert_eq!(bwt_result.end_of_string, 5);
}

#[test]
pub fn test() {
    let res = inverse_bwt(b"nnbaaa", 3);
    assert_eq!(res, b"banana".to_vec());
}

#[test]
pub fn longer_test() {
    let transformed = b"fsrrdkkeaddrrffs,esd?????     eeiiiieeeehrppkllkppttpphppPPIootwppppPPcccccckk      iipp    eeeeeeeeer'ree  ";
    let orig_ptr = 24;
    let expected = b"If Peter Piper picked a peck of pickled peppers, where's the peck of pickled peppers Peter Piper picked?????".to_vec();

    let res = inverse_bwt(transformed, orig_ptr);
    assert_eq!(res, expected);
}

#[test]
pub fn rotates() {
    let rotated = rotate_duval(b"abacabab");
    assert_eq!(rotated.0, b"ababacab")
}

#[test]
pub fn finds_final_lyndon_word() {
    let rotated = rotate_duval(b"bananaa");
    assert_eq!(rotated.1, 6)
}

fn sample(len: usize, alphabet: u32, seed: u32) -> Vec<u8> {
    let mut state = seed;
    let mut out = Vec::with_capacity(len);
    for _ in 0..len {
        state = state.wrapping_mul(1664525).wrapping_add(1013904223);
        out.push(((state >> 16) % alphabet) as u8);
    }
    out
}

fn naive_suffix_array(text: &[u8]) -> Vec<usize> {
    let mut order: Vec<usize> = (0..=text.len()).collect();
    order.sort_by(|a, b| text[*a..].cmp(&text[*b..]));
    order
}

#[test]
pub fn duval_finds_the_smallest_suffix() {
    assert_eq!(duval(b""), 0);
    assert_eq!(duval(b"a"), 0);
    assert_eq!(duval(b"aaaa"), 3);
    assert_eq!(duval(b"banana"), 5);
    for seed in 0..40 {
        let text = sample(1 + (seed as usize * 7) % 60, 1 + seed % 4, seed);
        let start = duval(&text);
        for other in 0..text.len() {
            assert!(text[start..] <= text[other..]);
        }
        let (rotated, offset) = rotate_duval(&text);
        assert_eq!(offset, start);
        let mut expected = text[start..].to_vec();
        expected.extend_from_slice(&text[..start]);
        assert_eq!(rotated, expected);
    }
}

#[test]
pub fn suffix_array_is_sorted() {
    assert_eq!(build_suffix_array(b""), vec![0]);
    assert_eq!(build_suffix_array(b"a"), vec![1, 0]);
    assert_eq!(build_suffix_array(b"banana"), vec![6, 5, 3, 1, 0, 4, 2]);
    for seed in 0..60 {
        let text = sample((seed as usize * 13) % 300, 1 + seed % 5, seed + 100);
        let expected = naive_suffix_array(&text);
        assert_eq!(build_suffix_array(&text), expected);
        assert_eq!(sort_suffixes(&text), expected);
        assert!(check_suffix_array(&text, &expected));
    }
}

#[test]
pub fn suffix_array_check_rejects_wrong_orders() {
    let text = b"banana";
    assert!(check_suffix_array(text, &vec![6, 5, 3, 1, 0, 4, 2]));
    assert!(!check_suffix_array(text, &vec![6, 3, 5, 1, 0, 4, 2]));
    assert!(!check_suffix_array(text, &vec![5, 6, 3, 1, 0, 4, 2]));
    assert!(!check_suffix_array(text, &vec![6, 5, 3, 1, 0, 4]));
    assert!(!check_suffix_array(text, &vec![6, 5, 3, 1, 0, 4, 4]));
    assert!(!check_suffix_array(text, &vec![6, 5, 3, 1, 0, 4, 7]));
    assert!(suffix_less(text, 5, 3));
    assert!(!suffix_less(text, 3, 5));
    assert!(suffix_less(text, 6, 0));
    assert!(!suffix_less(text, 2, 2));
}

#[test]
pub fn suffix_array_of_a_long_text_comes_from_induced_sorting() {
    // a text long enough that sorting by comparison would not finish in time
    let text = sample(200_000, 3, 7);
    let sa = build_suffix_array(&text);
    assert!(check_suffix_array(&text, &sa));
    let ones = vec![1u8; 100_000];
    let sa = build_suffix_array(&ones);
    assert_eq!(sa[0], 100_000);
    assert_eq!(sa[1], 99_999);
    assert_eq!(sa[100_000], 0);
}

#[test]
pub fn inverse_bwt_recovers_the_text() {
    assert_eq!(stable_order(b"nnbaaa"), vec![3, 4, 5, 2, 0, 1]);
    for seed in 0..40 {
        let text = sample(1 + (seed as usize * 11) % 200, 1 + seed % 6, seed + 900);
        let (data, orig_ptr) = bwt_private(&text);
        assert_eq!(data.len(), text.len());
        assert_eq!(inverse_bwt(&data, orig_ptr), text);
    }
    let periodic = b"abababababab".to_vec();
    let transformed = bwt(periodic.clone());
    assert_eq!(inverse_bwt(&transformed.data, transformed.end_of_string as usize), periodic);
}

#[test]
pub fn equal_rotations_stand_in_a_settled_order() {
    // the smallest suffix of "abab" begins at 2: of the two rows that read "abab",
    // the input is the one farther behind it
    let transformed = bwt(b"abab".to_vec());
    assert_eq!(transformed.data, b"bbaa".to_vec());
    assert_eq!(transformed.end_of_string, 0);
    // the smallest suffix of "aaaa" begins at 3: the input lies one place behind it
    let transformed = bwt(b"aaaa".to_vec());
    assert_eq!(transformed.data, b"aaaa".to_vec());
    assert_eq!(transformed.end_of_string, 2);
    // a suffix array that is out of order, too short or holds a place twice is refused
    assert!(check_suffix_array(b"ab", &vec![2, 0, 1]));
    assert!(!check_suffix_array(b"ab", &vec![2, 1, 0]));
    assert!(!check_suffix_array(b"ab", &vec![2, 0]));
    assert!(!check_suffix_array(b"ab", &vec![2, 0, 0]));
    assert!(!check_suffix_array(b"ab", &vec![0, 2, 1]));
}
