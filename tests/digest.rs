use cubix_chain::digest::{combine_hashes, get_digital_root, hex_digit_value};

#[test]
fn hex_digit_values() {
    assert_eq!(hex_digit_value('0'), Some(0));
    assert_eq!(hex_digit_value('9'), Some(9));
    assert_eq!(hex_digit_value('a'), Some(10));
    assert_eq!(hex_digit_value('F'), Some(15));
    assert_eq!(hex_digit_value('g'), None);
}

#[test]
fn hex_text_digital_root_values() {
    assert_eq!(get_digital_root(""), 0);
    assert_eq!(get_digital_root("0"), 0);
    assert_eq!(get_digital_root("9"), 9);
    assert_eq!(get_digital_root("f"), 6);
    assert_eq!(get_digital_root("ff"), 3);
    assert_eq!(get_digital_root("abc"), 6);
    assert_eq!(get_digital_root("xyz9"), 9);
    assert_eq!(get_digital_root("99"), 9);
    assert_eq!(get_digital_root(&"f".repeat(64)), 6);
}

#[test]
fn combine_hashes_is_sha256_of_the_concatenation() {
    assert_eq!(
        combine_hashes(&vec!["abc".to_string()]),
        "ba7816bf8f01cfea414140de5dae2223b00361a396177a9cb410ff61f20015ad"
    );
    assert_eq!(
        combine_hashes(&vec!["a".to_string(), "bc".to_string()]),
        "ba7816bf8f01cfea414140de5dae2223b00361a396177a9cb410ff61f20015ad"
    );
    assert_eq!(
        combine_hashes(&vec![]),
        "e3b0c44298fc1c149afbf4c8996fb92427ae41e4649b934ca495991b7852b855"
    );
}
