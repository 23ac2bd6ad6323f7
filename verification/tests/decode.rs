use ciborium_ll::{Decoder, EndOfSliceError, Error, FloatBits, Header, Read, SliceReader};

fn decoder(data: &[u8]) -> Decoder<SliceReader<'_>> {
    Decoder::from(SliceReader::new(data))
}

fn first(data: &[u8]) -> Result<Header, Error<EndOfSliceError>> {
    decoder(data).pull()
}

#[test]
fn decodes_integers() {
    assert_eq!(first(&[0x00]).unwrap(), Header::Positive(0));
    assert_eq!(first(&[0x17]).unwrap(), Header::Positive(23));
    assert_eq!(first(&[0x18, 0x18]).unwrap(), Header::Positive(24));
    assert_eq!(first(&[0x18, 0x64]).unwrap(), Header::Positive(100));
    assert_eq!(first(&[0x19, 0x03, 0xe8]).unwrap(), Header::Positive(1000));
    assert_eq!(first(&[0x1a, 0x00, 0x0f, 0x42, 0x40]).unwrap(), Header::Positive(1_000_000));
    assert_eq!(
        first(&[0x1b, 0x00, 0x00, 0x00, 0xe8, 0xd4, 0xa5, 0x10, 0x00]).unwrap(),
        Header::Positive(1_000_000_000_000)
    );
    assert_eq!(first(&[0x20]).unwrap(), Header::Negative(0));
    assert_eq!(first(&[0x39, 0x03, 0xe7]).unwrap(), Header::Negative(999));
}

#[test]
fn decodes_non_shortest_arguments() {
    assert_eq!(first(&[0x18, 0x05]).unwrap(), Header::Positive(5));
    assert_eq!(first(&[0x19, 0x00, 0x05]).unwrap(), Header::Positive(5));
    assert_eq!(first(&[0xf8, 0x05]).unwrap(), Header::Simple(5));
}

#[test]
fn decodes_other_headers() {
    assert_eq!(first(&[0x44]).unwrap(), Header::Bytes(Some(4)));
    assert_eq!(first(&[0x5f]).unwrap(), Header::Bytes(None));
    assert_eq!(first(&[0x78, 0x18]).unwrap(), Header::Text(Some(24)));
    assert_eq!(first(&[0x7f]).unwrap(), Header::Text(None));
    assert_eq!(first(&[0x83]).unwrap(), Header::Array(Some(3)));
    assert_eq!(first(&[0x9f]).unwrap(), Header::Array(None));
    assert_eq!(first(&[0xb9, 0x01, 0x2c]).unwrap(), Header::Mapping(Some(300)));
    assert_eq!(first(&[0xbf]).unwrap(), Header::Mapping(None));
    assert_eq!(first(&[0xc1]).unwrap(), Header::Tag(1));
    assert_eq!(first(&[0xf4]).unwrap(), Header::Simple(20));
    assert_eq!(first(&[0xf8, 0xff]).unwrap(), Header::Simple(255));
    assert_eq!(first(&[0xff]).unwrap(), Header::Break);
    assert_eq!(first(&[0xf9, 0x3c, 0x00]).unwrap(), Header::Float(FloatBits::Half(0x3c00)));
    assert_eq!(
        first(&[0xfa, 0x47, 0xc3, 0x50, 0x00]).unwrap(),
        Header::Float(FloatBits::Single(0x47c3_5000))
    );
    assert_eq!(
        first(&[0xfb, 0x3f, 0xf1, 0x99, 0x99, 0x99, 0x99, 0x99, 0x9a]).unwrap(),
        Header::Float(FloatBits::Double(0x3ff1_9999_9999_999a))
    );
}

#[test]
fn reserved_additional_information_is_a_syntax_error() {
    for initial in [0x1cu8, 0x1d, 0x1e, 0x3c, 0x5d, 0xfe] {
        let data = [0x00, initial, 0x00];
        let mut dec = decoder(&data);
        assert_eq!(dec.pull().unwrap(), Header::Positive(0));
        assert!(matches!(dec.pull(), Err(Error::Syntax(1))));
        assert_eq!(dec.offset(), 2);
    }
}

#[test]
fn indefinite_argument_is_a_syntax_error_where_not_allowed() {
    for initial in [0x1fu8, 0x3f, 0xdf] {
        let data = [initial];
        let mut dec = decoder(&data);
        assert!(matches!(dec.pull(), Err(Error::Syntax(0))));
        assert_eq!(dec.offset(), 1);
    }
}

#[test]
fn truncated_input_is_an_io_error() {
    assert!(matches!(first(&[]), Err(Error::Io(_))));
    assert!(matches!(first(&[0x18]), Err(Error::Io(_))));
    assert!(matches!(first(&[0x19, 0x03]), Err(Error::Io(_))));
    assert!(matches!(first(&[0x1b, 0, 0, 0, 0, 0, 0, 0]), Err(Error::Io(_))));
}

#[test]
fn offset_counts_bytes_of_headers() {
    let data = [0x19, 0x03, 0xe8, 0x01, 0x82];
    let mut dec = decoder(&data);
    assert_eq!(dec.offset(), 0);
    assert_eq!(dec.pull().unwrap(), Header::Positive(1000));
    assert_eq!(dec.offset(), 3);
    assert_eq!(dec.pull().unwrap(), Header::Positive(1));
    assert_eq!(dec.offset(), 4);
    assert_eq!(dec.pull().unwrap(), Header::Array(Some(2)));
    assert_eq!(dec.offset(), 5);
}

#[test]
fn pushed_header_is_pulled_again() {
    let data = [0x19, 0x03, 0xe8, 0x01];
    let mut dec = decoder(&data);
    let header = dec.pull().unwrap();
    assert_eq!(dec.offset(), 3);
    dec.push(header);
    assert_eq!(dec.offset(), 0);
    assert_eq!(dec.pull().unwrap(), Header::Positive(1000));
    assert_eq!(dec.offset(), 3);
    assert_eq!(dec.pull().unwrap(), Header::Positive(1));
}

#[test]
fn push_may_replace_the_header() {
    let data = [0x18, 0x64];
    let mut dec = decoder(&data);
    dec.pull().unwrap();
    dec.push(Header::Tag(7));
    assert_eq!(dec.offset(), 0);
    assert_eq!(dec.pull().unwrap(), Header::Tag(7));
    assert_eq!(dec.offset(), 2);
}

#[test]
fn borrows_from_the_slice() {
    let data = [0x43, 1, 2, 3, 0x00];
    let mut dec = decoder(&data);
    assert_eq!(dec.pull().unwrap(), Header::Bytes(Some(3)));
    assert_eq!(dec.try_borrow_slice(3), Some(&[1u8, 2, 3][..]));
    assert_eq!(dec.offset(), 4);
    assert_eq!(dec.try_borrow_slice(2), None);
    assert_eq!(dec.offset(), 4);
    assert_eq!(dec.pull().unwrap(), Header::Positive(0));
}

#[test]
fn decoder_reads_raw_bytes() {
    let data = [0x42, 7, 8];
    let mut dec = decoder(&data);
    assert_eq!(dec.pull().unwrap(), Header::Bytes(Some(2)));
    let mut buf = [0u8; 2];
    dec.read_exact(&mut buf).unwrap();
    assert_eq!(buf, [7, 8]);
    assert_eq!(dec.offset(), 3);
    let mut more = [0u8; 1];
    assert!(dec.read_exact(&mut more).is_err());
    assert_eq!(dec.offset(), 3);
}

#[test]
fn reads_definite_bytes_as_one_segment() {
    let data = [0x42, 7, 8, 0x01];
    let mut dec = decoder(&data);
    let len = match dec.pull().unwrap() {
        Header::Bytes(len) => len,
        other => panic!("unexpected {:?}", other),
    };
    let mut segments = dec.bytes(len);
    assert_eq!(segments.pull(&mut dec).unwrap(), Some(2));
    assert_eq!(dec.try_borrow_slice(2), Some(&[7u8, 8][..]));
    assert_eq!(segments.pull(&mut dec).unwrap(), None);
    assert_eq!(dec.pull().unwrap(), Header::Positive(1));
}

#[test]
fn reads_indefinite_bytes_segment_by_segment() {
    let data = [0x5f, 0x42, 1, 2, 0x43, 3, 4, 5, 0xff, 0x00];
    let mut dec = decoder(&data);
    assert_eq!(dec.pull().unwrap(), Header::Bytes(None));
    let mut segments = dec.bytes(None);
    assert_eq!(segments.pull(&mut dec).unwrap(), Some(2));
    assert_eq!(dec.try_borrow_slice(2), Some(&[1u8, 2][..]));
    assert_eq!(segments.pull(&mut dec).unwrap(), Some(3));
    assert_eq!(dec.try_borrow_slice(3), Some(&[3u8, 4, 5][..]));
    assert_eq!(segments.pull(&mut dec).unwrap(), None);
    assert_eq!(dec.offset(), 9);
    assert_eq!(dec.pull().unwrap(), Header::Positive(0));
}

#[test]
fn reads_indefinite_text_segments() {
    let data = [0x7f, 0x62, b'h', b'i', 0x60, 0xff];
    let mut dec = decoder(&data);
    assert_eq!(dec.pull().unwrap(), Header::Text(None));
    let mut segments = dec.text(None);
    assert_eq!(segments.pull(&mut dec).unwrap(), Some(2));
    assert_eq!(dec.try_borrow_slice(2), Some(&b"hi"[..]));
    assert_eq!(segments.pull(&mut dec).unwrap(), Some(0));
    assert_eq!(segments.pull(&mut dec).unwrap(), None);
}

#[test]
fn segment_of_wrong_kind_is_a_syntax_error() {
    let data = [0x5f, 0x61, b'a', 0xff];
    let mut dec = decoder(&data);
    assert_eq!(dec.pull().unwrap(), Header::Bytes(None));
    let mut segments = dec.bytes(None);
    assert!(matches!(segments.pull(&mut dec), Err(Error::Syntax(1))));
}

#[test]
fn empty_definite_bytes_is_one_empty_segment() {
    let data = [0x40];
    let mut dec = decoder(&data);
    assert_eq!(dec.pull().unwrap(), Header::Bytes(Some(0)));
    let mut segments = dec.bytes(Some(0));
    assert_eq!(segments.pull(&mut dec).unwrap(), Some(0));
    assert_eq!(segments.pull(&mut dec).unwrap(), None);
    assert_eq!(dec.offset(), 1);
}

#[test]
fn bytes_header_inside_text_is_a_syntax_error() {
    let data = [0x7f, 0x5f];
    let mut dec = decoder(&data);
    assert_eq!(dec.pull().unwrap(), Header::Text(None));
    let mut segments = dec.text(None);
    assert!(matches!(segments.pull(&mut dec), Err(Error::Syntax(1))));
}

#[test]
fn truncated_segments_are_an_io_error() {
    let data = [0x5f, 0x42, 1, 2];
    let mut dec = decoder(&data);
    assert_eq!(dec.pull().unwrap(), Header::Bytes(None));
    let mut segments = dec.bytes(None);
    assert_eq!(segments.pull(&mut dec).unwrap(), Some(2));
    assert_eq!(dec.try_borrow_slice(2), Some(&[1u8, 2][..]));
    assert!(matches!(segments.pull(&mut dec), Err(Error::Io(_))));
}

#[test]
fn nested_indefinite_segments_are_walked() {
    let data = [0x5f, 0x5f, 0x41, 9, 0xff, 0xff];
    let mut dec = decoder(&data);
    assert_eq!(dec.pull().unwrap(), Header::Bytes(None));
    let mut segments = dec.bytes(None);
    assert_eq!(segments.pull(&mut dec).unwrap(), Some(1));
    assert_eq!(dec.try_borrow_slice(1), Some(&[9u8][..]));
    assert_eq!(segments.pull(&mut dec).unwrap(), None);
    assert_eq!(dec.offset(), 6);
}

#[test]
fn error_from_wraps_io() {
    let e: Error<u32> = Error::from(5u32);
    assert!(matches!(e, Error::Io(5)));
}
