use sitegen::text::asset_to_string;
use sitegen::websocket::{convert_key, hello_frame, websocket_handshake, HandshakeReply};

#[test]
fn convert_key_matches_the_protocol_example() {
    // The worked example of RFC 6455, section 1.3.
    assert_eq!(
        convert_key("dGhlIHNhbXBsZSBub25jZQ=="),
        "s3pPLMBiTxaQ9kYGzzhZRbK+xOo="
    );
}

#[test]
fn handshake_without_key_is_refused() {
    assert!(matches!(websocket_handshake(None), HandshakeReply::BadRequest));
}

#[test]
fn handshake_with_key_accepts_with_the_derived_value() {
    match websocket_handshake(Some("dGhlIHNhbXBsZSBub25jZQ==")) {
        HandshakeReply::Accept { accept_key } => {
            assert_eq!(accept_key, "s3pPLMBiTxaQ9kYGzzhZRbK+xOo=");
        }
        HandshakeReply::BadRequest => panic!("refused a request that carried a key"),
    }
}

#[test]
fn hello_frame_is_a_final_text_frame_saying_hello() {
    assert_eq!(hello_frame(), vec![0x81, 0x05, 0x48, 0x65, 0x6c, 0x6c, 0x6f]);
}

#[test]
fn asset_bytes_decode_as_utf8_text() {
    assert_eq!(
        asset_to_string(b"hello <b>world</b>".to_vec()).unwrap(),
        "hello <b>world</b>"
    );
    assert_eq!(asset_to_string(vec![0xc3, 0xa4]).unwrap(), "\u{e4}");
    assert!(asset_to_string(vec![0xff, 0xfe]).is_none());
}
