use base64::Engine;
use devfiler::storage::dbtypes::{format_hex_bytes, FileId};

#[test]
fn parse_hex_reads_digits_of_either_case() {
    assert_eq!(FileId::try_parse_hex("0"), Some(FileId(0)));
    assert_eq!(FileId::try_parse_hex("ff"), Some(FileId(255)));
    assert_eq!(FileId::try_parse_hex("FF"), Some(FileId(255)));
    assert_eq!(FileId::try_parse_hex("aBcDeF0123456789"), Some(FileId(0xABCD_EF01_2345_6789)));
    assert_eq!(
        FileId::try_parse_hex("ffffffffffffffffffffffffffffffff"),
        Some(FileId(u128::MAX))
    );
    assert_eq!(
        FileId::try_parse_hex("000000000000000000000000000000000000000a"),
        Some(FileId(10))
    );
}

#[test]
fn parse_hex_rejects_what_is_no_number_of_128_bits() {
    assert_eq!(FileId::try_parse_hex(""), None);
    assert_eq!(FileId::try_parse_hex("g"), None);
    assert_eq!(FileId::try_parse_hex("12 34"), None);
    assert_eq!(FileId::try_parse_hex("0x12"), None);
    assert_eq!(FileId::try_parse_hex("+12"), None);
    assert_eq!(FileId::try_parse_hex("12é"), None);
    assert_eq!(FileId::try_parse_hex("/"), None);
    assert_eq!(FileId::try_parse_hex(":"), None);
    assert_eq!(FileId::try_parse_hex("@"), None);
    assert_eq!(FileId::try_parse_hex("G"), None);
    assert_eq!(FileId::try_parse_hex("`"), None);
    assert_eq!(FileId::try_parse_hex("1ffffffffffffffffffffffffffffffff"), None);
    assert_eq!(FileId::try_parse_hex("100000000000000000000000000000000"), None);
}

#[test]
fn format_hex_writes_32_digits() {
    assert_eq!(FileId(0).format_hex(), "00000000000000000000000000000000");
    assert_eq!(FileId(0xABC).format_hex(), "00000000000000000000000000000abc");
    assert_eq!(FileId(u128::MAX).format_hex(), "ffffffffffffffffffffffffffffffff");
    assert_eq!(
        FileId::from_parts(0x0123_4567_89AB_CDEF, 0xFEDC_BA98_7654_3210).format_hex(),
        "0123456789abcdeffedcba9876543210"
    );
    assert_eq!(format_hex_bytes(&[]), "");
    assert_eq!(format_hex_bytes(&[0x00, 0x0F, 0xF0, 0xA5]), "000ff0a5");
}

#[test]
fn hex_form_round_trips() {
    for id in [0u128, 1, 0xFF, 1 << 64, u128::MAX, 0x0123_4567_89AB_CDEF_0011_2233_4455_6677] {
        assert_eq!(FileId::try_parse_hex(&FileId(id).format_hex()), Some(FileId(id)));
    }
}

#[test]
fn es_form_is_url_safe_base64_of_the_bytes() {
    let id = FileId(0x0123_4567_89AB_CDEF_0011_2233_4455_6677);
    let text = id.format_es();
    assert_eq!(
        text,
        base64::engine::general_purpose::URL_SAFE_NO_PAD.encode(id.0.to_be_bytes())
    );
    assert_eq!(text.len(), 22);
    assert_eq!(FileId::try_parse_es(&text), Some(id));
    assert_eq!(FileId(0).format_es(), "AAAAAAAAAAAAAAAAAAAAAA");
    assert_eq!(FileId::try_parse_es("AAAAAAAAAAAAAAAAAAAAAA"), Some(FileId(0)));
    assert_eq!(FileId::try_parse_es("_____________________w"), Some(FileId(u128::MAX)));
    assert_eq!(FileId(u128::MAX).format_es(), "_____________________w");
}

#[test]
fn es_form_rejects_other_lengths_and_letters() {
    assert_eq!(FileId::try_parse_es(""), None);
    assert_eq!(FileId::try_parse_es("AAAA"), None);
    assert_eq!(FileId::try_parse_es("AAAAAAAAAAAAAAAAAAAAAAAA"), None);
    assert_eq!(FileId::try_parse_es("AAAAAAAAAAAAAAAAAAAAA+"), None);
    assert_eq!(FileId::try_parse_es("AAAAAAAAAAAAAAAAAAAAA="), None);
    assert_eq!(FileId::try_parse_es("0123456789abcdef"), None);
}

#[test]
fn build_id_is_read_in_either_form() {
    let id = FileId(0xDEAD_BEEF);
    assert_eq!(FileId::parse_bytes(id.format_es().as_bytes()), Some(id));
    assert_eq!(FileId::parse_bytes(id.format_hex().as_bytes()), Some(id));
    assert_eq!(FileId::parse_bytes(b"deadbeef"), Some(id));
    assert_eq!(FileId::parse_bytes(b"not a build id"), None);
    // 22 hexadecimal digits are base64 first
    let both = "0123456789abcdef01234A";
    assert_eq!(FileId::parse_bytes(both.as_bytes()), FileId::try_parse_es(both));
    assert!(FileId::try_parse_es(both).is_some());
    assert!(FileId::try_parse_hex(both).is_some());
    assert_ne!(FileId::try_parse_es(both), FileId::try_parse_hex(both));
    // where the base64 form does not fit, the digits are hexadecimal
    let hex_only = "0123456789abcdef012345";
    assert_eq!(FileId::try_parse_es(hex_only), None);
    assert_eq!(FileId::parse_bytes(hex_only.as_bytes()), FileId::try_parse_hex(hex_only));
}
