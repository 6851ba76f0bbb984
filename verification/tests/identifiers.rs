use revwalk::objects::Id;

#[test]
fn id_from_text_keeps_the_text() {
    let id = Id::from("0123abcd");
    assert_eq!(id.as_str(), "0123abcd");
}

#[test]
fn id_from_bytes_is_lowercase_hex() {
    let bytes: [u8; 4] = [0x00, 0x0f, 0xa0, 0xff];
    let id = Id::from(&bytes[..]);
    assert_eq!(id.as_str(), "000fa0ff");
}
