use metashrew::mask::{is_set_u256, maskGreaterThan, maskLowerThan, set_bit_u256, unset_bit_u256};
use metashrew::search::binary_search;
use std::sync::Arc;

#[test]
fn set_bit_is_most_significant_first() {
    let m = set_bit_u256(vec![0; 32], 0);
    assert_eq!(m[0], 0x80);
    let m = set_bit_u256(vec![0; 32], 9);
    assert_eq!(m[1], 0x40);
    assert_eq!(m.iter().filter(|b| **b != 0).count(), 1);
    let m = set_bit_u256(vec![0; 32], 255);
    assert_eq!(m[31], 0x01);
}

#[test]
fn unset_bit_clears_one_bit() {
    let m = unset_bit_u256(vec![0xff; 32], 7);
    assert_eq!(m[0], 0xfe);
    assert_eq!(m[1], 0xff);
}

#[test]
fn set_then_unset_restores_a_clear_bit() {
    let before = vec![0x12; 32];
    let set = set_bit_u256(before.clone(), 100);
    let back = unset_bit_u256((*set).clone(), 100);
    assert_eq!(*back, before);
}

#[test]
fn is_set_holds_when_no_other_bit_of_the_byte_is_set() {
    assert!(is_set_u256(&vec![0x80, 0], 0));
    assert!(!is_set_u256(&vec![0xc0, 0], 0));
    assert!(is_set_u256(&vec![0x00, 0], 0));
    assert!(!is_set_u256(&vec![0x40, 0], 0));
}

#[test]
fn mask_lower_than_keeps_top_bits_of_the_selected_half() {
    let all = Arc::new(vec![0xff; 32]);
    let mut expected = vec![0u8; 32];
    expected[15] = 0xff;
    assert_eq!(*maskLowerThan(all.clone(), 8), expected);
    let mut expected = vec![0u8; 32];
    expected[31] = 0xc0;
    assert_eq!(*maskLowerThan(all, 130), expected);
}

#[test]
fn mask_greater_than_keeps_one_more_bit() {
    let all = Arc::new(vec![0xff; 32]);
    let mut expected = vec![0u8; 32];
    expected[15] = 0x80;
    assert_eq!(*maskGreaterThan(all.clone(), 0), expected);
    let mut expected = vec![0u8; 32];
    expected[31] = 0xe0;
    assert_eq!(*maskGreaterThan(all, 130), expected);
}

#[test]
fn search_descends_through_halves() {
    assert_eq!(binary_search::<8>(vec![128], true), 3);
    assert_eq!(binary_search::<2>(vec![2], false), 0);
    assert_eq!(binary_search::<2>(vec![3], false), 1);
    assert_eq!(binary_search::<2>(vec![3], true), 0);
    assert_eq!(binary_search::<16>(vec![0x00, 0x01], true), 7);
}

#[test]
fn search_of_an_empty_word_gives_the_last_position() {
    assert_eq!(binary_search::<16>(vec![0, 0], false), 15);
    assert_eq!(binary_search::<128>(vec![0; 16], true), 127);
    assert_eq!(binary_search::<256>(vec![0; 32], false), 255);
}

#[test]
fn search_of_other_widths_gives_zero() {
    assert_eq!(binary_search::<5>(vec![], true), 0);
}
