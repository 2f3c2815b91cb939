use bwa_rust::bwt::build_bwt;
use bwa_rust::bwt::build_bwt_validated;
use bwa_rust::bwt::try_build_bwt;
use bwa_rust::bwt::BwtError;

#[test]
fn bwt_single_contig() {
    // Text: A C G T $ -> 1 2 3 4 0
    let text = [1u8, 2, 3, 4, 0];
    // Its suffix array: $, A$, C$, G$, T$
    let sa = [4u32, 0, 1, 2, 3];
    let bwt = build_bwt(&text, &sa);
    // BWT: T $ A C G -> 4 0 1 2 3
    assert_eq!(bwt, vec![4u8, 0, 1, 2, 3]);
}

#[test]
fn bwt_multi_contig_with_separators() {
    // Text: A C G $ A G $ -> 1 2 3 0 1 3 0
    let text = [1u8, 2, 3, 0, 1, 3, 0];
    // Suffix array in lexicographic order: [6, 3, 0, 4, 1, 5, 2]
    let sa = [6u32, 3, 0, 4, 1, 5, 2];
    let bwt = build_bwt(&text, &sa);
    // BWT: [G, G, $, $, A, A, C] -> [3, 3, 0, 0, 1, 1, 2]
    assert_eq!(bwt, vec![3u8, 3, 0, 0, 1, 1, 2]);
}

#[test]
fn bwt_empty_text() {
    let text: [u8; 0] = [];
    let sa: [u32; 0] = [];
    let bwt = build_bwt(&text, &sa);
    assert_eq!(bwt, Vec::<u8>::new());
}

#[test]
fn bwt_wraps_at_rank_of_whole_text() {
    // Rank whose suffix starts at position 0 takes the last symbol of the text.
    let text = [5u8, 6, 7, 0];
    let sa = [3u32, 0, 1, 2];
    let bwt = build_bwt(&text, &sa);
    assert_eq!(bwt[1], 0);
    assert_eq!(bwt, vec![7u8, 0, 5, 6]);
}

#[test]
fn bwt_length_matches_text_length() {
    let text = [2u8, 1, 2, 1, 0];
    let sa = [4u32, 3, 1, 2, 0];
    let bwt = build_bwt(&text, &sa);
    assert_eq!(bwt.len(), text.len());
}

#[test]
fn bwt_is_a_rearrangement_of_the_text() {
    let text = [1u8, 2, 3, 0, 1, 3, 0];
    let sa = [6u32, 3, 0, 4, 1, 5, 2];
    let bwt = build_bwt(&text, &sa);
    let mut text_sorted = text.to_vec();
    text_sorted.sort();
    let mut bwt_sorted = bwt.clone();
    bwt_sorted.sort();
    assert_eq!(bwt_sorted, text_sorted);
}

#[test]
fn try_build_accepts_in_range_suffix_array() {
    let text = [1u8, 2, 3, 4, 0];
    let sa = [4u32, 0, 1, 2, 3];
    let r = try_build_bwt(&text, &sa);
    assert_eq!(r, Ok(vec![4u8, 0, 1, 2, 3]));
}

#[test]
fn try_build_rejects_out_of_range_element() {
    let text = [1u8, 2, 0];
    let sa = [0u32, 1, 5];
    let r = try_build_bwt(&text, &sa);
    assert_eq!(r, Err(BwtError::OutOfRange { rank: 2, value: 5 }));
}

#[test]
fn validated_accepts_permutation() {
    let text = [1u8, 2, 3, 0, 1, 3, 0];
    let sa = [6u32, 3, 0, 4, 1, 5, 2];
    let r = build_bwt_validated(&text, &sa);
    assert_eq!(r, Ok(vec![3u8, 3, 0, 0, 1, 1, 2]));
}

#[test]
fn validated_accepts_empty_input() {
    let text: [u8; 0] = [];
    let sa: [u32; 0] = [];
    let r = build_bwt_validated(&text, &sa);
    assert_eq!(r, Ok(Vec::new()));
}

#[test]
fn validated_rejects_out_of_range_element() {
    let text = [1u8, 2, 0];
    let sa = [0u32, 1, 5];
    let r = build_bwt_validated(&text, &sa);
    assert_eq!(r, Err(BwtError::OutOfRange { rank: 2, value: 5 }));
}

#[test]
fn validated_rejects_duplicate_element() {
    let text = [1u8, 2, 0];
    let sa = [0u32, 1, 1];
    let r = build_bwt_validated(&text, &sa);
    assert_eq!(r, Err(BwtError::NonPermutation { rank: 2, value: 1 }));
}

#[test]
fn validated_reports_first_fault() {
    // Both a repeat (rank 2) and an out-of-range element (rank 3) are
    // present; the earlier fault wins.
    let text = [1u8, 2, 3, 0];
    let sa = [0u32, 2, 2, 9];
    let r = build_bwt_validated(&text, &sa);
    assert_eq!(r, Err(BwtError::NonPermutation { rank: 2, value: 2 }));
}
