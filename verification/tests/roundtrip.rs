use ciborium_ll::{Decoder, Encoder, FloatBits, Header, Read, SliceReader};

fn all_headers() -> Vec<Header> {
    let mut headers = Vec::new();
    for v in [0u64, 1, 23, 24, 255, 256, 0xffff, 0x1_0000, 0xffff_ffff, 0x1_0000_0000, u64::MAX] {
        headers.push(Header::Positive(v));
        headers.push(Header::Negative(v));
        headers.push(Header::Tag(v));
    }
    for n in [0usize, 5, 23, 24, 300, 70_000] {
        headers.push(Header::Bytes(Some(n)));
        headers.push(Header::Text(Some(n)));
        headers.push(Header::Array(Some(n)));
        headers.push(Header::Mapping(Some(n)));
    }
    headers.push(Header::Bytes(None));
    headers.push(Header::Text(None));
    headers.push(Header::Array(None));
    headers.push(Header::Mapping(None));
    headers.push(Header::Break);
    for v in [0u8, 23, 24, 31, 32, 255] {
        headers.push(Header::Simple(v));
    }
    headers.push(Header::Float(FloatBits::Half(0x7c00)));
    headers.push(Header::Float(FloatBits::Single(0x7f80_0000)));
    headers.push(Header::Float(FloatBits::Double(0x7ff8_0000_0000_0000)));
    headers
}

#[test]
fn every_header_reads_back_as_written() {
    let headers = all_headers();
    let mut enc = Encoder::from(Vec::new());
    for h in &headers {
        enc.push(*h).unwrap();
    }
    let bytes = enc.into_inner();
    let mut dec = Decoder::from(SliceReader::new(&bytes));
    for h in &headers {
        assert_eq!(dec.pull().unwrap(), *h);
    }
    assert_eq!(dec.offset(), bytes.len());
    assert!(dec.pull().is_err());
}

fn read_back_bytes(data: &[u8]) -> Vec<u8> {
    let mut dec = Decoder::from(SliceReader::new(data));
    let len = match dec.pull().unwrap() {
        Header::Bytes(len) => len,
        other => panic!("unexpected {:?}", other),
    };
    let mut segments = dec.bytes(len);
    let mut out = Vec::new();
    while let Some(n) = segments.pull(&mut dec).unwrap() {
        out.extend_from_slice(dec.try_borrow_slice(n).unwrap());
    }
    assert_eq!(dec.offset(), data.len());
    out
}

fn read_back_text(data: &[u8]) -> Vec<Vec<u8>> {
    let mut dec = Decoder::from(SliceReader::new(data));
    let len = match dec.pull().unwrap() {
        Header::Text(len) => len,
        other => panic!("unexpected {:?}", other),
    };
    let mut segments = dec.text(len);
    let mut out = Vec::new();
    while let Some(n) = segments.pull(&mut dec).unwrap() {
        out.push(dec.try_borrow_slice(n).unwrap().to_vec());
    }
    out
}

#[test]
fn bytes_read_back_whatever_the_segment_size() {
    let value: Vec<u8> = (0u8..=40).collect();
    for segment in [None, Some(0), Some(1), Some(2), Some(7), Some(40), Some(41), Some(100)] {
        let mut enc = Encoder::from(Vec::new());
        enc.bytes(&value, segment).unwrap();
        let written = enc.into_inner();
        assert_eq!(read_back_bytes(&written), value);
    }
}

#[test]
fn text_segments_are_each_valid_and_join_to_the_text() {
    let value = "a\u{00fc}\u{6c34}\u{1f600}bc\u{6c34}\u{00fc}\u{1f600}d";
    for segment in [None, Some(0), Some(4), Some(5), Some(6), Some(9), Some(64)] {
        let mut enc = Encoder::from(Vec::new());
        enc.text(value, segment).unwrap();
        let written = enc.into_inner();
        let chunks = read_back_text(&written);
        let limit = segment.unwrap_or(value.len()).max(4);
        let mut joined = Vec::new();
        for chunk in &chunks {
            assert!(!chunk.is_empty());
            assert!(chunk.len() <= limit);
            assert!(std::str::from_utf8(chunk).is_ok());
            joined.extend_from_slice(chunk);
        }
        assert_eq!(joined, value.as_bytes());
    }
}

#[test]
fn slice_reader_takes_in_order() {
    let data = [1u8, 2, 3, 4, 5];
    let mut reader = SliceReader::new(&data);
    assert_eq!(reader.remaining_len(), 5);
    assert_eq!(reader.take(2), Some(&[1u8, 2][..]));
    assert_eq!(reader.remaining_len(), 3);
    assert_eq!(reader.take(4), None);
    assert_eq!(reader.remaining_len(), 3);
    assert_eq!(reader.take(0), Some(&[][..]));
    assert_eq!(reader.take(3), Some(&[3u8, 4, 5][..]));
    assert_eq!(reader.remaining_len(), 0);
}

#[test]
fn slice_reader_read_exact() {
    let data = [1u8, 2, 3];
    let mut reader = SliceReader::new(&data);
    let mut buf = [0u8; 2];
    reader.read_exact(&mut buf).unwrap();
    assert_eq!(buf, [1, 2]);
    let mut big = [0u8; 2];
    assert!(reader.read_exact(&mut big).is_err());
    assert_eq!(reader.remaining_len(), 1);
}

#[test]
fn failed_slice_read_leaves_buffer_and_reader() {
    let data = [1u8, 2, 3];
    let mut r = SliceReader::new(&data);
    let mut a = [0u8; 2];
    let mut b = [9u8; 2];
    assert!(r.read_exact(&mut a).is_ok());
    assert_eq!(a, [1, 2]);
    assert_eq!(r.remaining_len(), 1);
    assert!(r.read_exact(&mut b).is_err());
    assert_eq!(b, [9, 9]);
    assert_eq!(r.remaining_len(), 1);
}
