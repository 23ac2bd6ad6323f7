use ciborium_ll::{Encoder, FloatBits, Header, Write};

fn encoded(header: Header) -> Vec<u8> {
    let mut enc = Encoder::from(Vec::new());
    enc.push(header).unwrap();
    enc.into_inner()
}

fn encoded_bytes(value: &[u8], segment: Option<usize>) -> Vec<u8> {
    let mut enc = Encoder::from(Vec::new());
    enc.bytes(value, segment).unwrap();
    enc.into_inner()
}

fn encoded_text(value: &str, segment: Option<usize>) -> Vec<u8> {
    let mut enc = Encoder::from(Vec::new());
    enc.text(value, segment).unwrap();
    enc.into_inner()
}

#[test]
fn positive_integers_use_shortest_form() {
    assert_eq!(encoded(Header::Positive(0)), vec![0x00]);
    assert_eq!(encoded(Header::Positive(1)), vec![0x01]);
    assert_eq!(encoded(Header::Positive(10)), vec![0x0a]);
    assert_eq!(encoded(Header::Positive(23)), vec![0x17]);
    assert_eq!(encoded(Header::Positive(24)), vec![0x18, 0x18]);
    assert_eq!(encoded(Header::Positive(25)), vec![0x18, 0x19]);
    assert_eq!(encoded(Header::Positive(100)), vec![0x18, 0x64]);
    assert_eq!(encoded(Header::Positive(255)), vec![0x18, 0xff]);
    assert_eq!(encoded(Header::Positive(256)), vec![0x19, 0x01, 0x00]);
    assert_eq!(encoded(Header::Positive(1000)), vec![0x19, 0x03, 0xe8]);
    assert_eq!(encoded(Header::Positive(0xffff)), vec![0x19, 0xff, 0xff]);
    assert_eq!(encoded(Header::Positive(0x1_0000)), vec![0x1a, 0x00, 0x01, 0x00, 0x00]);
    assert_eq!(encoded(Header::Positive(1_000_000)), vec![0x1a, 0x00, 0x0f, 0x42, 0x40]);
    assert_eq!(
        encoded(Header::Positive(1_000_000_000_000)),
        vec![0x1b, 0x00, 0x00, 0x00, 0xe8, 0xd4, 0xa5, 0x10, 0x00]
    );
    assert_eq!(
        encoded(Header::Positive(u64::MAX)),
        vec![0x1b, 0xff, 0xff, 0xff, 0xff, 0xff, 0xff, 0xff, 0xff]
    );
}

#[test]
fn other_major_types() {
    assert_eq!(encoded(Header::Negative(0)), vec![0x20]);
    assert_eq!(encoded(Header::Negative(9)), vec![0x29]);
    assert_eq!(encoded(Header::Negative(99)), vec![0x38, 0x63]);
    assert_eq!(encoded(Header::Negative(999)), vec![0x39, 0x03, 0xe7]);
    assert_eq!(encoded(Header::Bytes(Some(4))), vec![0x44]);
    assert_eq!(encoded(Header::Text(Some(24))), vec![0x78, 0x18]);
    assert_eq!(encoded(Header::Array(Some(3))), vec![0x83]);
    assert_eq!(encoded(Header::Mapping(Some(300))), vec![0xb9, 0x01, 0x2c]);
    assert_eq!(encoded(Header::Tag(1)), vec![0xc1]);
    assert_eq!(encoded(Header::Tag(32)), vec![0xd8, 0x20]);
}

#[test]
fn indefinite_lengths_and_break() {
    assert_eq!(encoded(Header::Bytes(None)), vec![0x5f]);
    assert_eq!(encoded(Header::Text(None)), vec![0x7f]);
    assert_eq!(encoded(Header::Array(None)), vec![0x9f]);
    assert_eq!(encoded(Header::Mapping(None)), vec![0xbf]);
    assert_eq!(encoded(Header::Break), vec![0xff]);
}

#[test]
fn simple_values() {
    assert_eq!(encoded(Header::Simple(20)), vec![0xf4]);
    assert_eq!(encoded(Header::Simple(23)), vec![0xf7]);
    assert_eq!(encoded(Header::Simple(24)), vec![0xf8, 0x18]);
    assert_eq!(encoded(Header::Simple(255)), vec![0xf8, 0xff]);
}

#[test]
fn floats_keep_their_width() {
    assert_eq!(encoded(Header::Float(FloatBits::Half(0x3c00))), vec![0xf9, 0x3c, 0x00]);
    assert_eq!(
        encoded(Header::Float(FloatBits::Single(0x47c3_5000))),
        vec![0xfa, 0x47, 0xc3, 0x50, 0x00]
    );
    assert_eq!(
        encoded(Header::Float(FloatBits::Double(0x3ff1_9999_9999_999a))),
        vec![0xfb, 0x3f, 0xf1, 0x99, 0x99, 0x99, 0x99, 0x99, 0x9a]
    );
}

#[test]
fn bytes_in_one_piece() {
    assert_eq!(encoded_bytes(&[], None), vec![0x40]);
    assert_eq!(encoded_bytes(&[1, 2, 3, 4], None), vec![0x44, 1, 2, 3, 4]);
    assert_eq!(encoded_bytes(&[1, 2, 3, 4], Some(4)), vec![0x44, 1, 2, 3, 4]);
    assert_eq!(encoded_bytes(&[], Some(0)), vec![0x40]);
}

#[test]
fn bytes_in_segments() {
    assert_eq!(
        encoded_bytes(&[1, 2, 3, 4], Some(2)),
        vec![0x5f, 0x42, 1, 2, 0x42, 3, 4, 0xff]
    );
    assert_eq!(
        encoded_bytes(&[1, 2, 3, 4], Some(3)),
        vec![0x5f, 0x43, 1, 2, 3, 0x41, 4, 0xff]
    );
}

#[test]
fn bytes_segment_zero_counts_as_one() {
    let expected = vec![0x5f, 0x41, 7, 0x41, 8, 0xff];
    assert_eq!(encoded_bytes(&[7, 8], Some(0)), expected);
    assert_eq!(encoded_bytes(&[7, 8], Some(1)), expected);
}

#[test]
fn text_in_one_piece() {
    assert_eq!(encoded_text("", None), vec![0x60]);
    assert_eq!(encoded_text("a", None), vec![0x61, 0x61]);
    assert_eq!(encoded_text("IETF", None), vec![0x64, 0x49, 0x45, 0x54, 0x46]);
    assert_eq!(encoded_text("\u{00fc}", None), vec![0x62, 0xc3, 0xbc]);
    assert_eq!(encoded_text("\u{6c34}", None), vec![0x63, 0xe6, 0xb0, 0xb4]);
    assert_eq!(encoded_text("abc", Some(1)), vec![0x63, 0x61, 0x62, 0x63]);
}

#[test]
fn text_in_segments() {
    assert_eq!(
        encoded_text("streaming", Some(5)),
        vec![0x7f, 0x65, b's', b't', b'r', b'e', b'a', 0x64, b'm', b'i', b'n', b'g', 0xff]
    );
}

#[test]
fn text_segments_end_on_character_boundaries() {
    let expected = vec![0x7f, 0x63, 0xe6, 0xb0, 0xb4, 0x63, 0xe6, 0xb0, 0xb4, 0xff];
    assert_eq!(encoded_text("\u{6c34}\u{6c34}", Some(4)), expected);
    assert_eq!(encoded_text("\u{6c34}\u{6c34}", Some(5)), expected);
    assert_eq!(
        encoded_text("a\u{1f600}b", Some(4)),
        vec![0x7f, 0x61, b'a', 0x64, 0xf0, 0x9f, 0x98, 0x80, 0x61, b'b', 0xff]
    );
}

#[test]
fn text_segment_below_four_counts_as_four() {
    let expected = encoded_text("abcdefghij", Some(4));
    assert_eq!(
        expected,
        vec![0x7f, 0x64, b'a', b'b', b'c', b'd', 0x64, b'e', b'f', b'g', b'h', 0x62, b'i', b'j', 0xff]
    );
    assert_eq!(encoded_text("abcdefghij", Some(0)), expected);
    assert_eq!(encoded_text("abcdefghij", Some(3)), expected);
}

#[test]
fn encoder_writes_and_flushes_through() {
    let mut enc = Encoder::from(vec![9u8]);
    enc.write_all(&[1, 2]).unwrap();
    enc.flush().unwrap();
    enc.push(Header::Positive(5)).unwrap();
    assert_eq!(enc.into_inner(), vec![9, 1, 2, 5]);
}

#[test]
fn vec_writer_appends() {
    let mut v: Vec<u8> = vec![1];
    v.write_all(&[2, 3]).unwrap();
    v.flush().unwrap();
    assert_eq!(v, vec![1, 2, 3]);
}
