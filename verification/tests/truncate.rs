use lance::truncate::{
    bytes_less, truncate_max, truncate_min, truncation_point, BINARY_PREFIX_LENGTH,
};

#[test]
fn short_values_are_kept() {
    let value = "exactly 16 bytes".as_bytes().to_vec();
    assert_eq!(value.len(), BINARY_PREFIX_LENGTH);
    assert_eq!(truncate_min(&value, true), value);
    assert_eq!(truncate_max(&value, true), Some(value.clone()));
    assert_eq!(truncate_min(&value, false), value);
    assert_eq!(truncate_max(&value, false), Some(value.clone()));
    let empty: Vec<u8> = vec![];
    assert_eq!(truncate_min(&empty, true), empty);
    assert_eq!(truncate_max(&empty, false), Some(empty.clone()));
    let all_ff = vec![0xFFu8; 16];
    assert_eq!(truncate_max(&all_ff, false), Some(all_ff.clone()));
}

#[test]
fn long_minimum_is_cut_to_a_prefix() {
    let value = "terrestial planet".as_bytes().to_vec();
    let bound = truncate_min(&value, true);
    assert_eq!(bound, "terrestial plane".as_bytes().to_vec());
    assert!(bound <= value);
    let binary: Vec<u8> = (0u8..40).collect();
    assert_eq!(truncate_min(&binary, false), (0u8..16).collect::<Vec<u8>>());
}

#[test]
fn long_maximum_is_raised() {
    let value = "terrestial planet".as_bytes().to_vec();
    let bound = truncate_max(&value, true).unwrap();
    assert_eq!(bound, "terrestial planf".as_bytes().to_vec());
    assert!(bound > value);
}

#[test]
fn maximum_carries_over_maximal_bytes() {
    let mut value = vec![7u8; 20];
    value[15] = 0xFF;
    value[14] = 0xFF;
    let bound = truncate_max(&value, false).unwrap();
    let mut expected = vec![7u8; 13];
    expected.push(8);
    assert_eq!(bound, expected);
    assert!(bound > value);
}

#[test]
fn maximum_of_maximal_bytes_is_absent() {
    let value = vec![0xFFu8; BINARY_PREFIX_LENGTH + 5];
    assert_eq!(truncate_min(&value, false), vec![0xFFu8; BINARY_PREFIX_LENGTH]);
    assert_eq!(truncate_max(&value, false), None);
}

#[test]
fn text_is_cut_at_a_character_boundary() {
    let value = "bacteriologists🧑‍🔬";
    let bytes = value.as_bytes().to_vec();
    assert_eq!(truncation_point(&bytes, true), 15);
    assert!(value.is_char_boundary(truncation_point(&bytes, true)));
    assert_eq!(truncation_point(&bytes, false), 16);
    assert_eq!(truncate_min(&bytes, true), "bacteriologists".as_bytes().to_vec());
    let bound = truncate_max(&bytes, true).unwrap();
    assert_eq!(bound, "bacteriologistt".as_bytes().to_vec());
    assert!(bound > bytes);
    assert!(String::from_utf8(bound).is_ok());
}

#[test]
fn text_maximum_raises_the_last_character() {
    let value = "ab€€€€€€€";
    let bytes = value.as_bytes().to_vec();
    assert_eq!(truncation_point(&bytes, true), 14);
    assert_eq!(truncate_min(&bytes, true), "ab€€€€".as_bytes().to_vec());
    let bound = truncate_max(&bytes, true).unwrap();
    assert_eq!(bound, "ab€€€\u{20AD}".as_bytes().to_vec());
    assert!(bound > bytes);
    assert!(value.is_char_boundary(bound.len()));
}

#[test]
fn text_maximum_carries_over_greatest_last_bytes() {
    // Each of these characters ends in the greatest continuation byte.
    let value = "\u{7F}ÿÿÿÿÿÿÿÿÿ";
    let bytes = value.as_bytes().to_vec();
    assert_eq!(bytes.len(), 19);
    assert_eq!(truncation_point(&bytes, true), 15);
    assert_eq!(truncate_max(&bytes, true), None);
    let value = "yÿÿÿÿÿÿÿÿÿ";
    let bytes = value.as_bytes().to_vec();
    assert_eq!(truncate_max(&bytes, true), Some("z".as_bytes().to_vec()));
    let only_greatest = "ÿÿÿÿÿÿÿÿÿ".as_bytes().to_vec();
    assert_eq!(truncate_max(&only_greatest, true), None);
    let deletes = vec![0x7Fu8; 17];
    assert_eq!(truncate_max(&deletes, true), None);
}

#[test]
fn byte_order_is_lexicographic() {
    assert!(bytes_less(&vec![1, 2], &vec![1, 3]));
    assert!(bytes_less(&vec![1], &vec![1, 0]));
    assert!(bytes_less(&vec![], &vec![0]));
    assert!(!bytes_less(&vec![1, 2], &vec![1, 2]));
    assert!(!bytes_less(&vec![2], &vec![1, 9, 9]));
    assert!(!bytes_less(&vec![0], &vec![]));
}
