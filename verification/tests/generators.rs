use blart::tests_common::{
    advance_key, apply_expansions_to_key, div_ceil, expansion_length, generate_key_fixed_length,
    generate_key_with_prefix, generate_keys_skewed, is_all_max, PrefixExpansion,
};

#[test]
fn skewed_keys() {
    let keys = generate_keys_skewed(10);
    assert_eq!(keys.len(), 10);
    assert_eq!(keys[0], vec![255]);
    assert_eq!(keys[1], vec![0, 255]);
    assert_eq!(keys[keys.len() - 1], vec![0, 0, 0, 0, 0, 0, 0, 0, 0, 255]);
    assert_eq!(generate_keys_skewed(1), vec![vec![255u8]]);
}

#[test]
fn fixed_length_keys() {
    let keys = generate_key_fixed_length([3, 2, 1]);
    assert_eq!(keys.len(), 24);
    assert_eq!(keys[0], vec![0, 0, 0]);
    assert_eq!(keys[keys.len() / 2], vec![170, 0, 0]);
    assert_eq!(keys[keys.len() - 1], vec![255, 255, 255]);
    let expected: Vec<Vec<u8>> = vec![
        vec![0, 0, 0],
        vec![0, 0, 255],
        vec![0, 128, 0],
        vec![0, 128, 255],
        vec![0, 255, 0],
        vec![0, 255, 255],
        vec![85, 0, 0],
        vec![85, 0, 255],
        vec![85, 128, 0],
        vec![85, 128, 255],
        vec![85, 255, 0],
        vec![85, 255, 255],
        vec![170, 0, 0],
        vec![170, 0, 255],
        vec![170, 128, 0],
        vec![170, 128, 255],
        vec![170, 255, 0],
        vec![170, 255, 255],
        vec![255, 0, 0],
        vec![255, 0, 255],
        vec![255, 128, 0],
        vec![255, 128, 255],
        vec![255, 255, 0],
        vec![255, 255, 255],
    ];
    assert_eq!(keys, expected);
    assert_eq!(generate_key_fixed_length([255]).len(), 256);
    assert_eq!(generate_key_fixed_length([1]), vec![vec![0u8], vec![255]]);
    let by_two: Vec<Vec<u8>> =
        (0..=127u8).map(|digit| vec![digit * 2]).chain([vec![255u8]]).collect();
    assert_eq!(generate_key_fixed_length([200]), by_two);
}

#[test]
fn keys_with_prefix() {
    let keys = generate_key_with_prefix(
        [2; 3],
        &[PrefixExpansion { base_index: 0, expanded_length: 3 }],
    );
    assert_eq!(keys.len(), 27);
    assert_eq!(keys[0], vec![0, 0, 0, 0, 0]);
    assert_eq!(keys[(keys.len() / 2) - 2], vec![128, 128, 128, 0, 255]);
    assert_eq!(keys[keys.len() - 1], vec![255, 255, 255, 255, 255]);
    assert_eq!(keys[1], vec![0, 0, 0, 0, 128]);
    assert_eq!(keys[3], vec![0, 0, 0, 128, 0]);
    assert_eq!(keys[9], vec![128, 128, 128, 0, 0]);

    let plain = generate_key_with_prefix([2; 3], &[]);
    assert_eq!(plain, generate_key_fixed_length([2; 3]));

    let two = generate_key_with_prefix(
        [1, 1],
        &[
            PrefixExpansion { base_index: 1, expanded_length: 2 },
            PrefixExpansion { base_index: 0, expanded_length: 1 },
        ],
    );
    assert_eq!(two, vec![vec![0, 0, 0], vec![0, 255, 255], vec![255, 0, 0], vec![255, 255, 255]]);
}

#[test]
fn helpers_of_the_generators() {
    assert_eq!(div_ceil(255, 3), 85);
    assert_eq!(div_ceil(255, 2), 128);
    assert_eq!(div_ceil(255, 1), 255);
    assert_eq!(div_ceil(255, 255), 1);
    assert_eq!(div_ceil(255, 254), 2);
    assert_eq!(div_ceil(0, 7), 0);

    assert!(is_all_max(&vec![255, 255]));
    assert!(!is_all_max(&vec![255, 254]));
    assert!(is_all_max(&vec![]));

    let mut key = vec![0u8, 128, 255];
    advance_key(&mut key, &[85, 128, 255]);
    assert_eq!(key, vec![0, 255, 0]);
    advance_key(&mut key, &[85, 128, 255]);
    assert_eq!(key, vec![0, 255, 255]);
    advance_key(&mut key, &[85, 128, 255]);
    assert_eq!(key, vec![85, 0, 0]);

    let expansions = [
        PrefixExpansion { base_index: 2, expanded_length: 3 },
        PrefixExpansion { base_index: 0, expanded_length: 2 },
    ];
    assert_eq!(expansion_length(&expansions, 0), 2);
    assert_eq!(expansion_length(&expansions, 1), 1);
    assert_eq!(expansion_length(&expansions, 2), 3);
    assert_eq!(apply_expansions_to_key(&[7, 8, 9], &expansions), vec![7, 7, 8, 9, 9, 9]);
    assert_eq!(apply_expansions_to_key(&[], &expansions), Vec::<u8>::new());
}
