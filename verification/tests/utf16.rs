use rewo_world::utf16::{encode_utf16, from_utf16_lossy};

#[test]
fn decoding_the_encoding_gives_the_string_back() {
    for s in ["", "abc", "é∑", "a😀b", "§c\u{FFFD}"] {
        let units = encode_utf16(s);
        assert_eq!(units, s.encode_utf16().collect::<Vec<u16>>());
        assert_eq!(from_utf16_lossy(&units), s);
    }
}

#[test]
fn a_lone_surrogate_decodes_to_the_replacement_character() {
    assert_eq!(from_utf16_lossy(&[0x61, 0xD800, 0x62]), "a\u{FFFD}b");
    assert_eq!(from_utf16_lossy(&[0xDC00]), "\u{FFFD}");
    assert_eq!(from_utf16_lossy(&[0xD83D, 0xDE00]), "😀");
}
