//! Writing CBOR headers and byte and text items.
use crate::header::{
    be_bytes, encode_argument, encode_header, initial_byte, lemma_encode_wire_format,
    lemma_header_roundtrip, parse_header, shortest_head, FloatBits, Header, Parsed,
};
use crate::io::Write;
use vstd::prelude::*;
use vstd::string::StringSliceAdditionalSpecFns;
use vstd::utf8::*;

verus! {

broadcast use vstd::utf8::encode_utf8_valid_utf8;

/// The chunk limit that a requested segment size stands for: the whole
/// length when none is given, and never less than `floor`.
pub open spec fn segment_limit(segment: Option<usize>, len: nat, floor: nat) -> nat {
    let m = match segment {
        Some(m) => m as nat,
        None => len,
    };
    if m < floor {
        floor
    } else {
        m
    }
}

/// The smaller of two numbers.
pub open spec fn min_nat(a: nat, b: nat) -> nat {
    if a < b {
        a
    } else {
        b
    }
}

/// Definite-length bytes segments of at most `max` bytes each, in order.
pub open spec fn bytes_segments(s: Seq<u8>, max: nat) -> Seq<u8>
    decreases s.len(),
{
    if s.len() == 0 || max == 0 {
        Seq::empty()
    } else {
        let k = min_nat(s.len(), max);
        encode_header(Header::Bytes(Some(k as usize))) + s.take(k as int) + bytes_segments(
            s.skip(k as int),
            max,
        )
    }
}

/// What `Encoder::bytes` writes for the bytes `s`.
pub open spec fn encode_bytes(s: Seq<u8>, segment: Option<usize>) -> Seq<u8> {
    let max = segment_limit(segment, s.len(), 1);
    if max >= s.len() {
        encode_header(Header::Bytes(Some(s.len() as usize))) + s
    } else {
        seq![0x5fu8] + bytes_segments(s, max) + seq![0xffu8]
    }
}

/// The longest prefix of `s`, of at most `k` bytes, that is valid UTF-8
/// (found by shortening from `k`), by its length.
pub open spec fn utf8_cut(s: Seq<u8>, k: nat) -> nat
    decreases k,
{
    if k == 0 || valid_utf8(s.take(k as int)) {
        k
    } else {
        utf8_cut(s, (k - 1) as nat)
    }
}

/// The cut never exceeds the limit it starts from.
pub proof fn lemma_utf8_cut_bound(s: Seq<u8>, k: nat)
    ensures
        utf8_cut(s, k) <= k,
    decreases k,
{
    if k > 0 {
        lemma_utf8_cut_bound(s, (k - 1) as nat);
    }
}

/// A nonzero cut ends on a UTF-8 boundary.
pub proof fn lemma_utf8_cut_valid(s: Seq<u8>, k: nat)
    ensures
        utf8_cut(s, k) > 0 ==> valid_utf8(s.take(utf8_cut(s, k) as int)),
    decreases k,
{
    if k > 0 && !valid_utf8(s.take(k as int)) {
        lemma_utf8_cut_valid(s, (k - 1) as nat);
    }
}

/// Shortening from `k` stops no later than at any valid prefix of length at most `k`.
pub proof fn lemma_utf8_cut_at_least(s: Seq<u8>, k: nat, len: nat)
    requires
        len <= k,
        valid_utf8(s.take(len as int)),
    ensures
        utf8_cut(s, k) >= len,
    decreases k,
{
    if k > len && !valid_utf8(s.take(k as int)) {
        lemma_utf8_cut_at_least(s, (k - 1) as nat, len);
    }
}

/// The first scalar of a nonempty valid UTF-8 sequence is a valid UTF-8
/// prefix of at most four bytes.
pub proof fn lemma_first_scalar_prefix(s: Seq<u8>)
    requires
        valid_utf8(s),
        s.len() > 0,
    ensures
        1 <= length_of_first_scalar(s) <= 4,
        length_of_first_scalar(s) <= s.len(),
        valid_utf8(s.take(length_of_first_scalar(s))),
{
    let len = length_of_first_scalar(s);
    let p = s.take(len);
    assert(valid_first_scalar(p));
    assert(pop_first_scalar(p) =~= Seq::<u8>::empty());
    assert(valid_utf8(pop_first_scalar(p)));
}

/// What follows a valid UTF-8 prefix of a valid UTF-8 sequence is valid UTF-8.
pub proof fn lemma_utf8_suffix(s: Seq<u8>, k: nat)
    requires
        valid_utf8(s),
        k <= s.len(),
        valid_utf8(s.take(k as int)),
    ensures
        valid_utf8(s.skip(k as int)),
    decreases k,
{
    if k == 0 {
        assert(s.skip(0) =~= s);
    } else {
        let p = s.take(k as int);
        let len = length_of_first_scalar(p);
        assert(valid_first_scalar(s));
        assert(length_of_first_scalar(s) == len);
        let rest = pop_first_scalar(s);
        assert(pop_first_scalar(p) =~= rest.take(k - len));
        lemma_utf8_suffix(rest, (k - len) as nat);
        assert(rest.skip(k - len) =~= s.skip(k as int));
    }
}

/// Definite-length text segments of at most `max` bytes each, each cut at a
/// UTF-8 boundary, in order.
pub open spec fn text_segments(s: Seq<u8>, max: nat) -> Seq<u8>
    decreases s.len(),
{
    if s.len() == 0 {
        Seq::empty()
    } else {
        let k = utf8_cut(s, min_nat(s.len(), max));
        if k == 0 {
            Seq::empty()
        } else {
            proof {
                lemma_utf8_cut_bound(s, min_nat(s.len(), max));
            }
            encode_header(Header::Text(Some(k as usize))) + s.take(k as int) + text_segments(
                s.skip(k as int),
                max,
            )
        }
    }
}

/// What `Encoder::text` writes for a string whose UTF-8 bytes are `s`.
pub open spec fn encode_text(s: Seq<u8>, segment: Option<usize>) -> Seq<u8> {
    let max = segment_limit(segment, s.len(), 4);
    if max >= s.len() {
        encode_header(Header::Text(Some(s.len() as usize))) + s
    } else {
        seq![0x7fu8] + text_segments(s, max) + seq![0xffu8]
    }
}

/// The payloads of the bytes segments, in order.
pub open spec fn bytes_chunks(s: Seq<u8>, max: nat) -> Seq<Seq<u8>>
    decreases s.len(),
{
    if s.len() == 0 || max == 0 {
        Seq::empty()
    } else {
        let k = min_nat(s.len(), max);
        seq![s.take(k as int)] + bytes_chunks(s.skip(k as int), max)
    }
}

/// The payloads of the text segments, in order.
pub open spec fn text_chunks(s: Seq<u8>, max: nat) -> Seq<Seq<u8>>
    decreases s.len(),
{
    if s.len() == 0 {
        Seq::empty()
    } else {
        let k = utf8_cut(s, min_nat(s.len(), max));
        if k == 0 {
            Seq::empty()
        } else {
            proof {
                lemma_utf8_cut_bound(s, min_nat(s.len(), max));
            }
            seq![s.take(k as int)] + text_chunks(s.skip(k as int), max)
        }
    }
}

/// Each payload behind a definite-length header of its own length.
pub open spec fn framed(text: bool, chunks: Seq<Seq<u8>>) -> Seq<u8>
    decreases chunks.len(),
{
    if chunks.len() == 0 {
        Seq::empty()
    } else {
        let c = chunks[0];
        let h = if text {
            Header::Text(Some(c.len() as usize))
        } else {
            Header::Bytes(Some(c.len() as usize))
        };
        encode_header(h) + c + framed(text, chunks.drop_first())
    }
}

/// Bytes segmentation: the segments are the payloads, each behind its own
/// header; every payload holds between one and `max` bytes, and together, in
/// order, they are the whole input.
pub proof fn lemma_bytes_segmentation(s: Seq<u8>, max: nat)
    requires
        max >= 1,
    ensures
        bytes_segments(s, max) == framed(false, bytes_chunks(s, max)),
        bytes_chunks(s, max).flatten() == s,
        forall|i: int|
            0 <= i < bytes_chunks(s, max).len() ==> 1 <= (#[trigger] bytes_chunks(s, max)[i]).len()
                <= max,
    decreases s.len(),
{
    if s.len() > 0 {
        let k = min_nat(s.len(), max);
        lemma_bytes_segmentation(s.skip(k as int), max);
        let cs = bytes_chunks(s, max);
        assert(cs.drop_first() =~= bytes_chunks(s.skip(k as int), max));
        assert(s.take(k as int) + s.skip(k as int) =~= s);
        assert forall|i: int| 0 <= i < cs.len() implies 1 <= (#[trigger] cs[i]).len() <= max by {
            if i > 0 {
                assert(cs[i] == cs.drop_first()[i - 1]);
            }
        }
    } else {
        assert(bytes_chunks(s, max) =~= Seq::<Seq<u8>>::empty());
        assert(s =~= Seq::<u8>::empty());
    }
}

/// Text segmentation: for valid UTF-8 input and a limit of at least four,
/// the segments are the payloads, each behind its own header; every payload
/// is valid UTF-8 on its own and holds between one and `max` bytes, and
/// together, in order, they are the whole input.
pub proof fn lemma_text_segmentation(s: Seq<u8>, max: nat)
    requires
        max >= 4,
        valid_utf8(s),
    ensures
        text_segments(s, max) == framed(true, text_chunks(s, max)),
        text_chunks(s, max).flatten() == s,
        forall|i: int|
            0 <= i < text_chunks(s, max).len() ==> {
                &&& valid_utf8(#[trigger] text_chunks(s, max)[i])
                &&& 1 <= text_chunks(s, max)[i].len() <= max
            },
    decreases s.len(),
{
    if s.len() > 0 {
        let top = min_nat(s.len(), max);
        lemma_first_scalar_prefix(s);
        lemma_utf8_cut_at_least(s, top, length_of_first_scalar(s) as nat);
        lemma_utf8_cut_bound(s, top);
        lemma_utf8_cut_valid(s, top);
        let k = utf8_cut(s, top);
        lemma_utf8_suffix(s, k);
        lemma_text_segmentation(s.skip(k as int), max);
        let cs = text_chunks(s, max);
        assert(cs.drop_first() =~= text_chunks(s.skip(k as int), max));
        assert(s.take(k as int) + s.skip(k as int) =~= s);
        assert forall|i: int| 0 <= i < cs.len() implies {
            &&& valid_utf8(#[trigger] cs[i])
            &&& 1 <= cs[i].len() <= max
        } by {
            if i > 0 {
                assert(cs[i] == cs.drop_first()[i - 1]);
            }
        }
    } else {
        assert(text_chunks(s, max) =~= Seq::<Seq<u8>>::empty());
        assert(s =~= Seq::<u8>::empty());
    }
}

/// A requested segment size of zero writes the same bytes as a size of one.
pub proof fn lemma_bytes_segment_floor(s: Seq<u8>)
    ensures
        encode_bytes(s, Some(0)) == encode_bytes(s, Some(1)),
{
}

/// A requested segment size below four writes the same bytes as a size of four.
pub proof fn lemma_text_segment_floor(s: Seq<u8>, segment: usize)
    requires
        segment < 4,
    ensures
        encode_text(s, Some(segment)) == encode_text(s, Some(4)),
{
}

/// `Encoder::bytes` writes a CBOR bytes item holding exactly the value.
/// With a limit `m` (the requested segment size, at least one, or the
/// whole length when none is asked for) that covers the value, it is one
/// definite-length item: the head of major type 2 with the value's length
/// as argument, then the value. Otherwise it is an indefinite-length bytes
/// item: `0x5f`, definite-length bytes segments of one to `m` bytes whose
/// payloads join to the value, and the break `0xff`.
pub proof fn lemma_bytes_item(s: Seq<u8>, segment: Option<usize>)
    requires
        s.len() <= usize::MAX,
    ensures
        ({
            let e = encode_bytes(s, segment);
            let m: int = match segment {
                Some(k) => if k < 1 {
                    1
                } else {
                    k as int
                },
                None => s.len() as int,
            };
            &&& m >= s.len() ==> {
                &&& shortest_head(e.take(e.len() - s.len()), 2, s.len() as int)
                &&& e.skip(e.len() - s.len()) == s
                &&& parse_header(e) == Parsed::Header(
                    Header::Bytes(Some(s.len() as usize)),
                    (e.len() - s.len()) as nat,
                )
            }
            &&& m < s.len() ==> {
                &&& e == seq![0x5fu8] + framed(false, bytes_chunks(s, m as nat)) + seq![0xffu8]
                &&& bytes_chunks(s, m as nat).flatten() == s
                &&& forall|j: int|
                    0 <= j < bytes_chunks(s, m as nat).len() ==> 1 <= (#[trigger] bytes_chunks(
                        s,
                        m as nat,
                    )[j]).len() <= m
                &&& parse_header(e) == Parsed::Header(Header::Bytes(None), 1)
            }
        }),
{
    let e = encode_bytes(s, segment);
    let m = segment_limit(segment, s.len(), 1);
    if m >= s.len() {
        let h = encode_header(Header::Bytes(Some(s.len() as usize)));
        lemma_encode_wire_format(0, s.len() as usize, 0, 0, 0);
        assert(e.take(e.len() - s.len()) =~= h);
        assert(e.skip(e.len() - s.len()) =~= s);
        lemma_header_roundtrip(Header::Bytes(Some(s.len() as usize)), s);
    } else {
        lemma_bytes_segmentation(s, m);
        let tail = framed(false, bytes_chunks(s, m)) + seq![0xffu8];
        assert(e =~= seq![0x5fu8] + tail);
        lemma_header_roundtrip(Header::Bytes(None), tail);
    }
}

/// `Encoder::text` writes a CBOR text item holding exactly the string's
/// UTF-8 bytes. With a limit `m` (the requested segment size, at least
/// four, or the whole length when none is asked for) that covers them, it
/// is one definite-length item: the head of major type 3 with the length as
/// argument, then the bytes. Otherwise it is an indefinite-length text
/// item: `0x7f`, definite-length text segments of one to `m` bytes, each
/// valid UTF-8, whose payloads join to the bytes, and the break `0xff`.
pub proof fn lemma_text_item(s: Seq<u8>, segment: Option<usize>)
    requires
        s.len() <= usize::MAX,
        valid_utf8(s),
    ensures
        ({
            let e = encode_text(s, segment);
            let m: int = match segment {
                Some(k) => if k < 4 {
                    4
                } else {
                    k as int
                },
                None => if s.len() < 4 {
                    4
                } else {
                    s.len() as int
                },
            };
            &&& m >= s.len() ==> {
                &&& shortest_head(e.take(e.len() - s.len()), 3, s.len() as int)
                &&& e.skip(e.len() - s.len()) == s
                &&& parse_header(e) == Parsed::Header(
                    Header::Text(Some(s.len() as usize)),
                    (e.len() - s.len()) as nat,
                )
            }
            &&& m < s.len() ==> {
                &&& e == seq![0x7fu8] + framed(true, text_chunks(s, m as nat)) + seq![0xffu8]
                &&& text_chunks(s, m as nat).flatten() == s
                &&& forall|j: int|
                    0 <= j < text_chunks(s, m as nat).len() ==> {
                        &&& valid_utf8(#[trigger] text_chunks(s, m as nat)[j])
                        &&& 1 <= text_chunks(s, m as nat)[j].len() <= m
                    }
                &&& parse_header(e) == Parsed::Header(Header::Text(None), 1)
            }
        }),
{
    let e = encode_text(s, segment);
    let m = segment_limit(segment, s.len(), 4);
    if m >= s.len() {
        let h = encode_header(Header::Text(Some(s.len() as usize)));
        lemma_encode_wire_format(0, s.len() as usize, 0, 0, 0);
        assert(e.take(e.len() - s.len()) =~= h);
        assert(e.skip(e.len() - s.len()) =~= s);
        lemma_header_roundtrip(Header::Text(Some(s.len() as usize)), s);
    } else {
        lemma_text_segmentation(s, m);
        let tail = framed(true, text_chunks(s, m)) + seq![0xffu8];
        assert(e =~= seq![0x7fu8] + tail);
        lemma_header_roundtrip(Header::Text(None), tail);
    }
}

proof fn lemma_initial_byte(major: u8, info: u8)
    requires
        major < 8,
        info < 32,
    ensures
        (major << 5u8) | info == initial_byte(major, info),
{
    assert((major << 5u8) | info == major * 32 + info) by (bit_vector)
        requires
            major < 8,
            info < 32,
    ;
}

proof fn lemma_be_bytes_1(v: u64)
    requires
        v <= 0xff,
    ensures
        be_bytes(v as nat, 1) == seq![v as u8],
{
    reveal_with_fuel(be_bytes, 2);
    assert(be_bytes(v as nat, 1) =~= seq![v as u8]);
}

proof fn lemma_be_bytes_2(v: u64)
    requires
        v <= 0xffff,
    ensures
        be_bytes(v as nat, 2) == seq![(v >> 8u64) as u8, v as u8],
{
    reveal_with_fuel(be_bytes, 3);
    assert(((v / 256) % 256) as u8 == (v >> 8u64) as u8) by (bit_vector);
    assert((v % 256) as u8 == v as u8) by (bit_vector);
    assert(be_bytes(v as nat, 2) =~= seq![(v >> 8u64) as u8, v as u8]);
}

proof fn lemma_be_bytes_4(v: u64)
    requires
        v <= 0xffff_ffff,
    ensures
        be_bytes(v as nat, 4) == seq![
            (v >> 24u64) as u8,
            (v >> 16u64) as u8,
            (v >> 8u64) as u8,
            v as u8,
        ],
{
    reveal_with_fuel(be_bytes, 5);
    assert(((v / 256 / 256 / 256) % 256) as u8 == (v >> 24u64) as u8) by (bit_vector);
    assert(((v / 256 / 256) % 256) as u8 == (v >> 16u64) as u8) by (bit_vector);
    assert(((v / 256) % 256) as u8 == (v >> 8u64) as u8) by (bit_vector);
    assert((v % 256) as u8 == v as u8) by (bit_vector);
    assert(be_bytes(v as nat, 4) =~= seq![
        (v >> 24u64) as u8,
        (v >> 16u64) as u8,
        (v >> 8u64) as u8,
        v as u8,
    ]);
}

proof fn lemma_be_bytes_8(v: u64)
    ensures
        be_bytes(v as nat, 8) == seq![
            (v >> 56u64) as u8,
            (v >> 48u64) as u8,
            (v >> 40u64) as u8,
            (v >> 32u64) as u8,
            (v >> 24u64) as u8,
            (v >> 16u64) as u8,
            (v >> 8u64) as u8,
            v as u8,
        ],
{
    reveal_with_fuel(be_bytes, 9);
    assert(((v / 256 / 256 / 256 / 256 / 256 / 256 / 256) % 256) as u8 == (v >> 56u64) as u8)
        by (bit_vector);
    assert(((v / 256 / 256 / 256 / 256 / 256 / 256) % 256) as u8 == (v >> 48u64) as u8)
        by (bit_vector);
    assert(((v / 256 / 256 / 256 / 256 / 256) % 256) as u8 == (v >> 40u64) as u8)
        by (bit_vector);
    assert(((v / 256 / 256 / 256 / 256) % 256) as u8 == (v >> 32u64) as u8) by (bit_vector);
    assert(((v / 256 / 256 / 256) % 256) as u8 == (v >> 24u64) as u8) by (bit_vector);
    assert(((v / 256 / 256) % 256) as u8 == (v >> 16u64) as u8) by (bit_vector);
    assert(((v / 256) % 256) as u8 == (v >> 8u64) as u8) by (bit_vector);
    assert((v % 256) as u8 == v as u8) by (bit_vector);
    assert(be_bytes(v as nat, 8) =~= seq![
        (v >> 56u64) as u8,
        (v >> 48u64) as u8,
        (v >> 40u64) as u8,
        (v >> 32u64) as u8,
        (v >> 24u64) as u8,
        (v >> 16u64) as u8,
        (v >> 8u64) as u8,
        v as u8,
    ]);
}

/// Writes the head of an item of major type `major` with argument `value`,
/// in its shortest form.
fn push_value<W: Write>(writer: &mut W, major: u8, value: u64) -> (r: Result<(), W::Error>)
    requires
        major < 8,
    ensures
        r is Ok ==> final(writer).written() == old(writer).written() + encode_argument(
            major,
            value,
        ),
        r is Err ==> old(writer).written().is_prefix_of(final(writer).written()),
        r is Err ==> final(writer).written().is_prefix_of(
            old(writer).written() + encode_argument(major, value),
        ),
        W::infallible() ==> r is Ok,
{
    let prefix = major << 5u8;
    if value <= 23 {
        proof {
            lemma_initial_byte(major, value as u8);
            assert(be_bytes(value as nat, 0) =~= Seq::<u8>::empty());
        }
        let data = [prefix | value as u8];
        assert(data@ =~= encode_argument(major, value));
        writer.write_all(&data)
    } else if value <= 0xff {
        proof {
            lemma_initial_byte(major, 24);
            lemma_be_bytes_1(value);
        }
        let data = [prefix | 24, value as u8];
        assert(data@ =~= encode_argument(major, value));
        writer.write_all(&data)
    } else if value <= 0xffff {
        proof {
            lemma_initial_byte(major, 25);
            lemma_be_bytes_2(value);
        }
        let data = [prefix | 25, (value >> 8u64) as u8, value as u8];
        assert(data@ =~= encode_argument(major, value));
        writer.write_all(&data)
    } else if value <= 0xffff_ffff {
        proof {
            lemma_initial_byte(major, 26);
            lemma_be_bytes_4(value);
        }
        let data = [
            prefix | 26,
            (value >> 24u64) as u8,
            (value >> 16u64) as u8,
            (value >> 8u64) as u8,
            value as u8,
        ];
        assert(data@ =~= encode_argument(major, value));
        writer.write_all(&data)
    } else {
        proof {
            lemma_initial_byte(major, 27);
            lemma_be_bytes_8(value);
        }
        let data = [
            prefix | 27,
            (value >> 56u64) as u8,
            (value >> 48u64) as u8,
            (value >> 40u64) as u8,
            (value >> 32u64) as u8,
            (value >> 24u64) as u8,
            (value >> 16u64) as u8,
            (value >> 8u64) as u8,
            value as u8,
        ];
        assert(data@ =~= encode_argument(major, value));
        writer.write_all(&data)
    }
}

proof fn lemma_prefix_refl(a: Seq<u8>)
    ensures
        a.is_prefix_of(a),
{
    assert(a =~= a.subrange(0, a.len() as int));
}

proof fn lemma_prefix_extend(a: Seq<u8>, c: Seq<u8>)
    ensures
        a.is_prefix_of(a + c),
{
    assert(a =~= (a + c).subrange(0, a.len() as int));
}

proof fn lemma_prefix_trans(a: Seq<u8>, b: Seq<u8>, c: Seq<u8>)
    requires
        a.is_prefix_of(b),
        b.is_prefix_of(c),
    ensures
        a.is_prefix_of(c),
{
    assert(a =~= c.subrange(0, a.len() as int));
}

/// A write that fails in the middle of writing `target`, which is what
/// came `before`, the `data` handed to that write and what was still `after`
/// it, leaves a prefix of `target` that extends what was there at the `start`.
proof fn lemma_failed_write(
    start: Seq<u8>,
    before: Seq<u8>,
    data: Seq<u8>,
    after: Seq<u8>,
    fin: Seq<u8>,
    target: Seq<u8>,
)
    requires
        start.is_prefix_of(before),
        before.is_prefix_of(fin),
        fin.is_prefix_of(before + data),
        before + data + after == target,
    ensures
        start.is_prefix_of(fin),
        fin.is_prefix_of(target),
{
    lemma_prefix_trans(start, before, fin);
    assert(fin =~= target.subrange(0, fin.len() as int));
}

/// Tells whether `bytes` is valid UTF-8.
///
/// Calls `core::str::from_utf8`, which succeeds exactly on valid UTF-8; the
/// contract claims that its notion of validity is vstd's `valid_utf8`.
#[verifier::external_body]
fn is_utf8(bytes: &[u8]) -> (r: bool)
    ensures
        r == valid_utf8(bytes@),
{
    core::str::from_utf8(bytes).is_ok()
}

/// An encoder for serializing CBOR items.
///
/// It wraps a writer and writes `Header`s and whole byte and text items to it.
pub struct Encoder<W>(W);

impl<W: Write> Encoder<W> {
    /// The wrapped writer.
    pub closed spec fn inner(&self) -> W {
        self.0
    }
}

impl<W: Write> From<W> for Encoder<W> {
    fn from(value: W) -> (r: Self)
        ensures
            r.inner() == value,
    {
        Self(value)
    }
}

impl<W: Write> vstd::std_specs::convert::FromSpecImpl<W> for Encoder<W> {
    open spec fn obeys_from_spec() -> bool {
        true
    }

    closed spec fn from_spec(v: W) -> Self {
        Encoder(v)
    }
}

impl<W: Write> Write for Encoder<W> {
    type Error = W::Error;

    open spec fn written(&self) -> Seq<u8> {
        self.inner().written()
    }

    open spec fn delivered(&self) -> Seq<u8> {
        self.inner().delivered()
    }

    open spec fn infallible() -> bool {
        W::infallible()
    }

    fn write_all(&mut self, data: &[u8]) -> (r: Result<(), Self::Error>) {
        self.0.write_all(data)
    }

    fn flush(&mut self) -> (r: Result<(), Self::Error>) {
        self.0.flush()
    }
}

impl<W: Write> Encoder<W> {
    /// Unwraps the writer, consuming the `Encoder`.
    pub fn into_inner(self) -> (r: W)
        ensures
            r == self.inner(),
    {
        self.0
    }

    /// Writes `header` to the wire.
    pub fn push(&mut self, header: Header) -> (r: Result<(), W::Error>)
        ensures
            r is Ok ==> final(self).written() == old(self).written() + encode_header(header),
            r is Err ==> old(self).written().is_prefix_of(final(self).written()),
            r is Err ==> final(self).written().is_prefix_of(
                old(self).written() + encode_header(header),
            ),
            W::infallible() ==> r is Ok,
    {
        match header {
            Header::Positive(value) => push_value(&mut self.0, 0, value),
            Header::Negative(value) => push_value(&mut self.0, 1, value),
            Header::Bytes(Some(value)) => push_value(&mut self.0, 2, value as u64),
            Header::Text(Some(value)) => push_value(&mut self.0, 3, value as u64),
            Header::Array(Some(value)) => push_value(&mut self.0, 4, value as u64),
            Header::Mapping(Some(value)) => push_value(&mut self.0, 5, value as u64),
            Header::Tag(value) => push_value(&mut self.0, 6, value),
            Header::Bytes(None) => {
                let data = [0x5fu8];
                assert(data@ =~= encode_header(header));
                self.0.write_all(&data)
            },
            Header::Text(None) => {
                let data = [0x7fu8];
                assert(data@ =~= encode_header(header));
                self.0.write_all(&data)
            },
            Header::Array(None) => {
                let data = [0x9fu8];
                assert(data@ =~= encode_header(header));
                self.0.write_all(&data)
            },
            Header::Mapping(None) => {
                let data = [0xbfu8];
                assert(data@ =~= encode_header(header));
                self.0.write_all(&data)
            },
            Header::Break => {
                let data = [0xffu8];
                assert(data@ =~= encode_header(header));
                self.0.write_all(&data)
            },
            Header::Simple(value) => {
                if value <= 23 {
                    assert(0xe0u8 | value == 0xe0 + value) by (bit_vector)
                        requires
                            value <= 23,
                    ;
                    let data = [0xe0u8 | value];
                    assert(data@ =~= encode_header(header));
                    self.0.write_all(&data)
                } else {
                    let data = [0xf8u8, value];
                    assert(data@ =~= encode_header(header));
                    self.0.write_all(&data)
                }
            },
            Header::Float(FloatBits::Half(bits)) => {
                proof {
                    lemma_be_bytes_2(bits as u64);
                }
                let data = [0xf9u8, (bits >> 8u16) as u8, bits as u8];
                assert((bits >> 8u16) as u8 == ((bits as u64) >> 8u64) as u8) by (bit_vector);
                assert(bits as u8 == (bits as u64) as u8) by (bit_vector);
                assert(data@ =~= encode_header(header));
                self.0.write_all(&data)
            },
            Header::Float(FloatBits::Single(bits)) => {
                proof {
                    lemma_be_bytes_4(bits as u64);
                }
                let data = [
                    0xfau8,
                    (bits >> 24u32) as u8,
                    (bits >> 16u32) as u8,
                    (bits >> 8u32) as u8,
                    bits as u8,
                ];
                assert((bits >> 24u32) as u8 == ((bits as u64) >> 24u64) as u8) by (bit_vector);
                assert((bits >> 16u32) as u8 == ((bits as u64) >> 16u64) as u8) by (bit_vector);
                assert((bits >> 8u32) as u8 == ((bits as u64) >> 8u64) as u8) by (bit_vector);
                assert(bits as u8 == (bits as u64) as u8) by (bit_vector);
                assert(data@ =~= encode_header(header));
                self.0.write_all(&data)
            },
            Header::Float(FloatBits::Double(bits)) => {
                proof {
                    lemma_be_bytes_8(bits);
                }
                let data = [
                    0xfbu8,
                    (bits >> 56u64) as u8,
                    (bits >> 48u64) as u8,
                    (bits >> 40u64) as u8,
                    (bits >> 32u64) as u8,
                    (bits >> 24u64) as u8,
                    (bits >> 16u64) as u8,
                    (bits >> 8u64) as u8,
                    bits as u8,
                ];
                assert(data@ =~= encode_header(header));
                self.0.write_all(&data)
            },
        }
    }

    /// Serializes a byte slice as a CBOR bytes item.
    ///
    /// With `segment`, the bytes are written as an indefinite-length item of
    /// segments of at most that many bytes; a limit of `0` counts as `1`.
    /// When a write fails, nothing more is written.
    #[verifier::rlimit(40)]
    pub fn bytes(&mut self, value: &[u8], segment: Option<usize>) -> (r: Result<(), W::Error>)
        ensures
            r is Ok ==> final(self).written() == old(self).written() + encode_bytes(
                value@,
                segment,
            ),
            r is Err ==> old(self).written().is_prefix_of(final(self).written()),
            r is Err ==> final(self).written().is_prefix_of(
                old(self).written() + encode_bytes(value@, segment),
            ),
            W::infallible() ==> r is Ok,
    {
        let ghost start = self.written();
        let ghost target = start + encode_bytes(value@, segment);
        let max = match segment {
            Some(m) => m,
            None => value.len(),
        };
        let max = if max < 1 {
            1
        } else {
            max
        };
        proof {
            lemma_prefix_refl(start);
        }

        if max >= value.len() {
            let ghost hdr = encode_header(Header::Bytes(Some(value.len())));
            assert(target =~= start + hdr + value@);
            if let Err(e) = self.push(Header::Bytes(Some(value.len()))) {
                proof {
                    lemma_failed_write(start, start, hdr, value@, self.written(), target);
                }
                return Err(e);
            }
            let ghost before = self.written();
            if let Err(e) = self.write_all(value) {
                proof {
                    lemma_prefix_extend(start, hdr);
                    lemma_failed_write(
                        start,
                        before,
                        value@,
                        Seq::empty(),
                        self.written(),
                        target,
                    );
                }
                return Err(e);
            }
        } else {
            let ghost segs = bytes_segments(value@, max as nat);
            assert(target =~= start + seq![0x5fu8] + (segs + seq![0xffu8]));
            if let Err(e) = self.push(Header::Bytes(None)) {
                proof {
                    lemma_failed_write(
                        start,
                        start,
                        seq![0x5fu8],
                        segs + seq![0xffu8],
                        self.written(),
                        target,
                    );
                }
                return Err(e);
            }
            proof {
                lemma_prefix_extend(start, seq![0x5fu8]);
            }
            let mut rest = value;
            while rest.len() > 0
                invariant
                    1 <= max,
                    segs == bytes_segments(value@, max as nat),
                    start == old(self).written(),
                    target == start + encode_bytes(value@, segment),
                    target == start + seq![0x5fu8] + segs + seq![0xffu8],
                    start.is_prefix_of(self.written()),
                    start + seq![0x5fu8] + segs == self.written() + bytes_segments(
                        rest@,
                        max as nat,
                    ),
                decreases rest.len(),
            {
                let k = if rest.len() < max {
                    rest.len()
                } else {
                    max
                };
                let (chunk, tail) = rest.split_at(k);
                let ghost before = self.written();
                let ghost hdr = encode_header(Header::Bytes(Some(k)));
                proof {
                    assert(chunk@ =~= rest@.take(k as int));
                    assert(tail@ =~= rest@.skip(k as int));
                    assert(bytes_segments(rest@, max as nat) == hdr + chunk@ + bytes_segments(
                        tail@,
                        max as nat,
                    ));
                    assert(target =~= before + hdr + (chunk@ + bytes_segments(tail@, max as nat)
                        + seq![0xffu8]));
                }
                if let Err(e) = self.push(Header::Bytes(Some(chunk.len()))) {
                    proof {
                        lemma_failed_write(
                            start,
                            before,
                            hdr,
                            chunk@ + bytes_segments(tail@, max as nat) + seq![0xffu8],
                            self.written(),
                            target,
                        );
                    }
                    return Err(e);
                }
                let ghost middle = self.written();
                proof {
                    lemma_prefix_extend(before, hdr);
                    lemma_prefix_trans(start, before, middle);
                    assert(target =~= middle + chunk@ + (bytes_segments(tail@, max as nat)
                        + seq![0xffu8]));
                }
                if let Err(e) = self.write_all(chunk) {
                    proof {
                        lemma_failed_write(
                            start,
                            middle,
                            chunk@,
                            bytes_segments(tail@, max as nat) + seq![0xffu8],
                            self.written(),
                            target,
                        );
                    }
                    return Err(e);
                }
                proof {
                    assert(self.written() == before + hdr + chunk@);
                    assert(before + bytes_segments(rest@, max as nat) =~= self.written()
                        + bytes_segments(tail@, max as nat));
                    lemma_prefix_extend(middle, chunk@);
                    lemma_prefix_trans(start, middle, self.written());
                }
                rest = tail;
            }
            assert(bytes_segments(rest@, max as nat) =~= Seq::<u8>::empty());
            let ghost before = self.written();
            assert(target =~= before + seq![0xffu8] + Seq::<u8>::empty());
            if let Err(e) = self.push(Header::Break) {
                proof {
                    lemma_failed_write(
                        start,
                        before,
                        seq![0xffu8],
                        Seq::empty(),
                        self.written(),
                        target,
                    );
                }
                return Err(e);
            }
            assert(self.written() =~= start + encode_bytes(value@, segment));
        }
        Ok(())
    }

    /// Serializes a string slice as a CBOR text item.
    ///
    /// With `segment`, the text is written as an indefinite-length item of
    /// segments of at most that many bytes, each of them valid UTF-8 on its
    /// own; a limit below `4` counts as `4`. When a write fails, nothing more
    /// is written.
    #[verifier::rlimit(40)]
    pub fn text(&mut self, value: &str, segment: Option<usize>) -> (r: Result<(), W::Error>)
        ensures
            r is Ok ==> final(self).written() == old(self).written() + encode_text(
                value.spec_bytes(),
                segment,
            ),
            r is Err ==> old(self).written().is_prefix_of(final(self).written()),
            r is Err ==> final(self).written().is_prefix_of(
                old(self).written() + encode_text(value.spec_bytes(), segment),
            ),
            W::infallible() ==> r is Ok,
    {
        let all = value.as_bytes();
        let ghost start = self.written();
        let ghost target = start + encode_text(all@, segment);
        let max = match segment {
            Some(m) => m,
            None => all.len(),
        };
        let max = if max < 4 {
            4
        } else {
            max
        };
        proof {
            lemma_prefix_refl(start);
        }

        if max >= all.len() {
            let ghost hdr = encode_header(Header::Text(Some(all.len())));
            assert(max as nat == segment_limit(segment, all@.len(), 4));
            assert(target =~= start + hdr + all@);
            if let Err(e) = self.push(Header::Text(Some(all.len()))) {
                proof {
                    lemma_failed_write(start, start, hdr, all@, self.written(), target);
                }
                return Err(e);
            }
            let ghost before = self.written();
            if let Err(e) = self.write_all(all) {
                proof {
                    lemma_prefix_extend(start, hdr);
                    lemma_failed_write(
                        start,
                        before,
                        all@,
                        Seq::empty(),
                        self.written(),
                        target,
                    );
                }
                return Err(e);
            }
            assert(self.written() =~= old(self).written() + encode_text(all@, segment));
        } else {
            let ghost segs = text_segments(all@, max as nat);
            assert(target =~= start + seq![0x7fu8] + (segs + seq![0xffu8]));
            if let Err(e) = self.push(Header::Text(None)) {
                proof {
                    lemma_failed_write(
                        start,
                        start,
                        seq![0x7fu8],
                        segs + seq![0xffu8],
                        self.written(),
                        target,
                    );
                }
                return Err(e);
            }
            proof {
                lemma_prefix_extend(start, seq![0x7fu8]);
            }
            let mut bytes = all;
            while bytes.len() > 0
                invariant
                    4 <= max,
                    valid_utf8(bytes@),
                    segs == text_segments(all@, max as nat),
                    all@ == value.spec_bytes(),
                    start == old(self).written(),
                    target == start + encode_text(all@, segment),
                    target == start + seq![0x7fu8] + segs + seq![0xffu8],
                    start.is_prefix_of(self.written()),
                    start + seq![0x7fu8] + segs == self.written() + text_segments(
                        bytes@,
                        max as nat,
                    ),
                decreases bytes.len(),
            {
                let top = if bytes.len() < max {
                    bytes.len()
                } else {
                    max
                };
                let mut len = top;
                proof {
                    lemma_first_scalar_prefix(bytes@);
                    lemma_utf8_cut_at_least(
                        bytes@,
                        top as nat,
                        length_of_first_scalar(bytes@) as nat,
                    );
                }
                while len > 0 && !is_utf8(vstd::slice::slice_subrange(bytes, 0, len))
                    invariant
                        len <= top,
                        top <= bytes@.len(),
                        utf8_cut(bytes@, len as nat) == utf8_cut(bytes@, top as nat),
                    decreases len,
                {
                    len = len - 1;
                }
                proof {
                    assert(bytes@.subrange(0, len as int) =~= bytes@.take(len as int));
                    lemma_utf8_cut_valid(bytes@, top as nat);
                    lemma_utf8_suffix(bytes@, len as nat);
                }
                let (prefix, suffix) = bytes.split_at(len);
                let ghost before = self.written();
                let ghost hdr = encode_header(Header::Text(Some(len)));
                proof {
                    assert(prefix@ =~= bytes@.take(len as int));
                    assert(suffix@ =~= bytes@.skip(len as int));
                    assert(text_segments(bytes@, max as nat) == hdr + prefix@ + text_segments(
                        suffix@,
                        max as nat,
                    ));
                    assert(target =~= before + hdr + (prefix@ + text_segments(
                        suffix@,
                        max as nat,
                    ) + seq![0xffu8]));
                }
                if let Err(e) = self.push(Header::Text(Some(prefix.len()))) {
                    proof {
                        lemma_failed_write(
                            start,
                            before,
                            hdr,
                            prefix@ + text_segments(suffix@, max as nat) + seq![0xffu8],
                            self.written(),
                            target,
                        );
                    }
                    return Err(e);
                }
                let ghost middle = self.written();
                proof {
                    lemma_prefix_extend(before, hdr);
                    lemma_prefix_trans(start, before, middle);
                    assert(target =~= middle + prefix@ + (text_segments(suffix@, max as nat)
                        + seq![0xffu8]));
                }
                if let Err(e) = self.write_all(prefix) {
                    proof {
                        lemma_failed_write(
                            start,
                            middle,
                            prefix@,
                            text_segments(suffix@, max as nat) + seq![0xffu8],
                            self.written(),
                            target,
                        );
                    }
                    return Err(e);
                }
                proof {
                    assert(before + text_segments(bytes@, max as nat) =~= self.written()
                        + text_segments(suffix@, max as nat));
                    lemma_prefix_extend(middle, prefix@);
                    lemma_prefix_trans(start, middle, self.written());
                }
                bytes = suffix;
            }
            assert(text_segments(bytes@, max as nat) =~= Seq::<u8>::empty());
            let ghost before = self.written();
            assert(target =~= before + seq![0xffu8] + Seq::<u8>::empty());
            if let Err(e) = self.push(Header::Break) {
                proof {
                    lemma_failed_write(
                        start,
                        before,
                        seq![0xffu8],
                        Seq::empty(),
                        self.written(),
                        target,
                    );
                }
                return Err(e);
            }
            assert(self.written() =~= start + encode_text(all@, segment));
        }
        Ok(())
    }

}

} // verus!
