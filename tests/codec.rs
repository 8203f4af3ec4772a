use bytes::BytesMut;
use message_queue_service::codec::{CodecError, MessageCodec};

fn buffer(b: &[u8]) -> BytesMut {
    BytesMut::from(b)
}

fn decode_every_frame(codec: &mut MessageCodec, buf: &mut BytesMut) -> Vec<String> {
    let mut out = Vec::new();
    while let Ok(Some(s)) = codec.decode(buf) {
        out.push(s);
    }
    out
}

#[test]
fn decode_without_delimiter_waits_for_more() {
    let mut codec = MessageCodec;
    let mut buf = buffer(b"{\"a\":1");
    assert_eq!(codec.decode(&mut buf), Ok(None));
    assert_eq!(&buf[..], &b"{\"a\":1"[..]);
}

#[test]
fn decode_on_empty_buffer_waits() {
    let mut codec = MessageCodec;
    let mut buf = BytesMut::new();
    assert_eq!(codec.decode(&mut buf), Ok(None));
    assert!(buf.is_empty());
}

#[test]
fn decode_takes_first_frame_only() {
    let mut codec = MessageCodec;
    let mut buf = buffer(b"abc\ndef\nxy");
    assert_eq!(codec.decode(&mut buf), Ok(Some("abc".to_string())));
    assert_eq!(&buf[..], &b"def\nxy"[..]);
    assert_eq!(codec.decode(&mut buf), Ok(Some("def".to_string())));
    assert_eq!(&buf[..], &b"xy"[..]);
    assert_eq!(codec.decode(&mut buf), Ok(None));
    assert_eq!(&buf[..], &b"xy"[..]);
}

#[test]
fn decode_empty_frame() {
    let mut codec = MessageCodec;
    let mut buf = buffer(b"\n");
    assert_eq!(codec.decode(&mut buf), Ok(Some(String::new())));
    assert!(buf.is_empty());
}

#[test]
fn decode_invalid_utf8_is_an_error_and_consumes_the_frame() {
    let mut codec = MessageCodec;
    let mut buf = buffer(&[0x66, 0xff, 0xfe, b'\n', b'o', b'k', b'\n']);
    assert_eq!(codec.decode(&mut buf), Err(CodecError::InvalidUtf8));
    assert_eq!(&buf[..], &b"ok\n"[..]);
}

#[test]
fn decode_rejects_truncated_multibyte_character() {
    let mut codec = MessageCodec;
    let mut buf = buffer(&[0xc3, b'\n']);
    assert_eq!(codec.decode(&mut buf), Err(CodecError::InvalidUtf8));
    assert!(buf.is_empty());
}

#[test]
fn decode_multibyte_text() {
    let mut codec = MessageCodec;
    let mut buf = buffer("h\u{e9}llo \u{1f600}\n".as_bytes());
    assert_eq!(codec.decode(&mut buf), Ok(Some("h\u{e9}llo \u{1f600}".to_string())));
    assert!(buf.is_empty());
}

#[test]
fn encode_appends_text_and_delimiter() {
    let mut codec = MessageCodec;
    let mut buf = buffer(b"x");
    codec.encode("hi".to_string(), &mut buf);
    assert_eq!(&buf[..], &b"xhi\n"[..]);
    codec.encode(String::new(), &mut buf);
    assert_eq!(&buf[..], &b"xhi\n\n"[..]);
}

#[test]
fn encode_then_decode_gives_the_same_text() {
    let mut codec = MessageCodec;
    for text in ["{\"msg_type\":\"EnqueueAny\",\"msg\":\"x\"}", "", "\u{e9}\u{4e2d}\u{1f600}", "a\\nb"] {
        let mut buf = BytesMut::new();
        codec.encode(text.to_string(), &mut buf);
        assert_eq!(codec.decode(&mut buf), Ok(Some(text.to_string())));
        assert!(buf.is_empty());
    }
}

#[test]
fn byte_at_a_time_gives_the_same_frames_as_all_at_once() {
    let stream = "{\"a\":1}\n\u{e9}t\u{e9}\n\nlast\npartial".as_bytes().to_vec();
    let mut codec = MessageCodec;

    let mut whole = buffer(&stream);
    let at_once = decode_every_frame(&mut codec, &mut whole);

    let mut buf = BytesMut::new();
    let mut bytewise = Vec::new();
    for b in &stream {
        buf.extend_from_slice(&[*b]);
        bytewise.extend(decode_every_frame(&mut codec, &mut buf));
    }

    assert_eq!(at_once, vec!["{\"a\":1}", "\u{e9}t\u{e9}", "", "last"]);
    assert_eq!(bytewise, at_once);
    assert_eq!(buf, whole);
    assert_eq!(&buf[..], &b"partial"[..]);
}
