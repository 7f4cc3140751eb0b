use outcrop::convert::key_dto;

#[test]
fn key_dto_printable_utf8() {
    let k = key_dto(b"user:0001");
    assert_eq!(k.hex, hex::encode(b"user:0001"));
    assert_eq!(k.utf8.as_deref(), Some("user:0001"));
}

#[test]
fn key_dto_binary_has_no_utf8() {
    let k = key_dto(&[0xff, 0x00, 0x01]);
    assert_eq!(k.hex, "ff0001");
    assert_eq!(k.utf8, None);
}

#[test]
fn key_dto_control_chars_have_no_utf8() {
    let k = key_dto(b"a\nb");
    assert_eq!(k.utf8, None);
}

#[test]
fn key_dto_empty() {
    let k = key_dto(b"");
    assert_eq!(k.hex, "");
    assert_eq!(k.utf8, None);
}

#[test]
fn key_dto_hex_is_lowercase_per_byte() {
    let k = key_dto(&[0x0a, 0xbc]);
    assert_eq!(k.hex, "0abc");
    assert_eq!(k.utf8, None);
    let k = key_dto("é".as_bytes());
    assert_eq!(k.hex, "c3a9");
    assert_eq!(k.utf8.as_deref(), Some("é"));
}
