use triword::{is_lowercase_word, pack_word, unpack_word, word_from_bytes};

#[test]
fn pack_word_reads_bytes_big_endian() {
    assert_eq!(pack_word(b"abc"), 0x61_62_63);
    assert_eq!(pack_word(&[0, 0, 0]), 0);
    assert_eq!(pack_word(&[255, 255, 255]), 0x00ff_ffff);
    assert_eq!(pack_word(&[1, 2, 3]), 65536 + 512 + 3);
}

#[test]
fn unpack_word_inverts_pack_word() {
    assert_eq!(unpack_word(0x61_62_63), Some(*b"abc"));
    assert_eq!(unpack_word(0), Some([0, 0, 0]));
    assert_eq!(unpack_word(0x00ff_ffff), Some([255, 255, 255]));
    for word in [*b"bat", *b"zzz", [0, 7, 200]] {
        assert_eq!(unpack_word(pack_word(&word)), Some(word));
    }
}

#[test]
fn unpack_word_rejects_codes_of_no_word() {
    assert_eq!(unpack_word(0x0100_0000), None);
    assert_eq!(unpack_word(u32::MAX), None);
}

#[test]
fn word_from_bytes_takes_exactly_three_bytes() {
    assert_eq!(word_from_bytes(b"bat"), Some(*b"bat"));
    assert_eq!(word_from_bytes(b""), None);
    assert_eq!(word_from_bytes(b"ba"), None);
    assert_eq!(word_from_bytes(b"bats"), None);
}

#[test]
fn is_lowercase_word_wants_three_letters() {
    assert!(is_lowercase_word(b"bat"));
    assert!(is_lowercase_word(b"azz"));
    assert!(!is_lowercase_word(b"Bat"));
    assert!(!is_lowercase_word(b"ba1"));
    assert!(!is_lowercase_word(b"b`t"));
    assert!(!is_lowercase_word(b"b{t"));
    assert!(!is_lowercase_word(&[0xc3, 0xa9, 0x31]));
}
