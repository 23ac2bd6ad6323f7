//! CBOR item headers and their wire format.
//!
//! A header is the initial byte of a CBOR item (major type in the top three
//! bits, additional information in the low five bits) followed by zero, one,
//! two, four or eight big-endian argument bytes.
use vstd::prelude::*;

verus! {

/// The raw bits of a floating-point item, kept at the width it has on the wire.
#[derive(Clone, Copy, Debug, PartialEq, Eq, Structural)]
pub enum FloatBits {
    /// IEEE 754 binary16 bits.
    Half(u16),
    /// IEEE 754 binary32 bits.
    Single(u32),
    /// IEEE 754 binary64 bits.
    Double(u64),
}

/// A semantic representation of a CBOR item header.
#[derive(Clone, Copy, Debug, PartialEq, Eq, Structural)]
pub enum Header {
    /// A positive integer.
    Positive(u64),
    /// A negative integer; the encoded value `n` stands for `-1 - n`.
    Negative(u64),
    /// A floating-point value, by its wire bits.
    Float(FloatBits),
    /// A simple value.
    Simple(u8),
    /// A tag.
    Tag(u64),
    /// The "break" stop code.
    Break,
    /// A bytes item of known (`Some`) or indefinite (`None`) length.
    Bytes(Option<usize>),
    /// A text item of known (`Some`) or indefinite (`None`) length.
    Text(Option<usize>),
    /// An array of known (`Some`) or indefinite (`None`) length.
    Array(Option<usize>),
    /// A map of known (`Some`) or indefinite (`None`) length.
    Mapping(Option<usize>),
}

/// `256` to the power `n`.
pub open spec fn pow256(n: nat) -> nat
    decreases n,
{
    if n == 0 {
        1
    } else {
        256 * pow256((n - 1) as nat)
    }
}

/// The low `n` bytes of `value`, most significant first.
pub open spec fn be_bytes(value: nat, n: nat) -> Seq<u8>
    decreases n,
{
    if n == 0 {
        Seq::empty()
    } else {
        be_bytes(value / 256, (n - 1) as nat).push((value % 256) as u8)
    }
}

/// The number whose big-endian bytes are `bytes`.
pub open spec fn be_value(bytes: Seq<u8>) -> nat
    decreases bytes.len(),
{
    if bytes.len() == 0 {
        0
    } else {
        be_value(bytes.drop_last()) * 256 + bytes.last() as nat
    }
}

/// The initial byte of an item with the given major type and additional information.
pub open spec fn initial_byte(major: u8, info: u8) -> u8 {
    (major * 32 + info) as u8
}

/// How many argument bytes follow the initial byte when `value` is the argument.
pub open spec fn argument_width(value: u64) -> nat {
    if value < 24 {
        0
    } else if value <= 0xff {
        1
    } else if value <= 0xffff {
        2
    } else if value <= 0xffff_ffff {
        4
    } else {
        8
    }
}

/// The additional information that announces an argument of `value`.
pub open spec fn argument_info(value: u64) -> u8 {
    if value < 24 {
        value as u8
    } else if value <= 0xff {
        24
    } else if value <= 0xffff {
        25
    } else if value <= 0xffff_ffff {
        26
    } else {
        27
    }
}

/// The shortest encoding of a major type with the argument `value`.
pub open spec fn encode_argument(major: u8, value: u64) -> Seq<u8> {
    seq![initial_byte(major, argument_info(value))] + be_bytes(
        value as nat,
        argument_width(value),
    )
}

/// The bytes that the encoder writes for `header`.
pub open spec fn encode_header(header: Header) -> Seq<u8> {
    match header {
        Header::Positive(v) => encode_argument(0, v),
        Header::Negative(v) => encode_argument(1, v),
        Header::Bytes(Some(n)) => encode_argument(2, n as u64),
        Header::Text(Some(n)) => encode_argument(3, n as u64),
        Header::Array(Some(n)) => encode_argument(4, n as u64),
        Header::Mapping(Some(n)) => encode_argument(5, n as u64),
        Header::Tag(v) => encode_argument(6, v),
        Header::Bytes(None) => seq![0x5fu8],
        Header::Text(None) => seq![0x7fu8],
        Header::Array(None) => seq![0x9fu8],
        Header::Mapping(None) => seq![0xbfu8],
        Header::Break => seq![0xffu8],
        Header::Simple(v) => if v < 24 {
            seq![(0xe0 + v) as u8]
        } else {
            seq![0xf8u8, v]
        },
        Header::Float(FloatBits::Half(b)) => seq![0xf9u8] + be_bytes(b as nat, 2),
        Header::Float(FloatBits::Single(b)) => seq![0xfau8] + be_bytes(b as nat, 4),
        Header::Float(FloatBits::Double(b)) => seq![0xfbu8] + be_bytes(b as nat, 8),
    }
}

/// How many argument bytes additional information `info` announces.
pub open spec fn extra_width(info: u8) -> nat {
    if info == 24 {
        1
    } else if info == 25 {
        2
    } else if info == 26 {
        4
    } else if info == 27 {
        8
    } else {
        0
    }
}

/// Length of a header whose initial byte is `initial`, argument bytes included.
pub open spec fn head_len(initial: u8) -> nat {
    1 + extra_width(initial % 32)
}

/// The argument carried by the head at the start of `s` (`None` for indefinite length).
pub open spec fn argument_of(s: Seq<u8>) -> Option<u64> {
    let info = s[0] % 32;
    if info < 24 {
        Some(info as u64)
    } else if info == 31 {
        None
    } else {
        Some(be_value(s.subrange(1, head_len(s[0]) as int)) as u64)
    }
}

/// A length argument as a `usize`, if it fits.
pub open spec fn length_of(arg: Option<u64>) -> Option<Option<usize>> {
    match arg {
        None => Some(None),
        Some(v) => if v <= usize::MAX {
            Some(Some(v as usize))
        } else {
            None
        },
    }
}

/// The header that a major type, additional information and argument stand for,
/// or `None` where that combination is not well-formed.
pub open spec fn header_from(major: u8, info: u8, arg: Option<u64>) -> Option<Header> {
    if major == 0 && arg is Some {
        Some(Header::Positive(arg->0))
    } else if major == 1 && arg is Some {
        Some(Header::Negative(arg->0))
    } else if 2 <= major <= 5 {
        match length_of(arg) {
            None => None,
            Some(len) => Some(
                if major == 2 {
                    Header::Bytes(len)
                } else if major == 3 {
                    Header::Text(len)
                } else if major == 4 {
                    Header::Array(len)
                } else {
                    Header::Mapping(len)
                },
            ),
        }
    } else if major == 6 && arg is Some {
        Some(Header::Tag(arg->0))
    } else if major == 7 && info == 31 {
        Some(Header::Break)
    } else if major == 7 && info <= 24 && arg is Some {
        Some(Header::Simple(arg->0 as u8))
    } else if major == 7 && info == 25 && arg is Some {
        Some(Header::Float(FloatBits::Half(arg->0 as u16)))
    } else if major == 7 && info == 26 && arg is Some {
        Some(Header::Float(FloatBits::Single(arg->0 as u32)))
    } else if major == 7 && info == 27 && arg is Some {
        Some(Header::Float(FloatBits::Double(arg->0)))
    } else {
        None
    }
}

/// The outcome of reading one header from the front of a byte sequence.
pub enum Parsed {
    /// A well-formed header, and how many bytes it takes.
    Header(Header, nat),
    /// The bytes end before the header does.
    Truncated,
    /// The header is not well-formed; the decoder has consumed this many bytes
    /// when it finds out.
    Malformed(nat),
}

/// Reads one header from the front of `s`.
pub open spec fn parse_header(s: Seq<u8>) -> Parsed {
    if s.len() == 0 {
        Parsed::Truncated
    } else {
        let major = s[0] / 32;
        let info = s[0] % 32;
        if 28 <= info <= 30 {
            Parsed::Malformed(1)
        } else if s.len() < head_len(s[0]) {
            Parsed::Truncated
        } else {
            match header_from(major, info, argument_of(s)) {
                Some(h) => Parsed::Header(h, head_len(s[0])),
                None => Parsed::Malformed(head_len(s[0])),
            }
        }
    }
}

pub proof fn lemma_be_bytes_len(value: nat, n: nat)
    ensures
        be_bytes(value, n).len() == n,
    decreases n,
{
    if n > 0 {
        lemma_be_bytes_len(value / 256, (n - 1) as nat);
    }
}

/// Big-endian bytes read back as the number they were made from.
pub proof fn lemma_be_roundtrip(value: nat, n: nat)
    requires
        value < pow256(n),
    ensures
        be_bytes(value, n).len() == n,
        be_value(be_bytes(value, n)) == value,
    decreases n,
{
    lemma_be_bytes_len(value, n);
    if n > 0 {
        let p = pow256((n - 1) as nat);
        assert(value / 256 < p) by (nonlinear_arith)
            requires
                value < 256 * p,
        ;
        lemma_be_roundtrip(value / 256, (n - 1) as nat);
        let s = be_bytes(value, n);
        assert(s.drop_last() =~= be_bytes(value / 256, (n - 1) as nat));
    }
}

/// A big-endian number is below `256` to the power of its length.
pub proof fn lemma_be_value_bound(bytes: Seq<u8>)
    ensures
        be_value(bytes) < pow256(bytes.len()),
    decreases bytes.len(),
{
    if bytes.len() > 0 {
        lemma_be_value_bound(bytes.drop_last());
        let v = be_value(bytes.drop_last());
        let p = pow256((bytes.len() - 1) as nat);
        let b = bytes.last() as nat;
        assert(v * 256 + b < 256 * p) by (nonlinear_arith)
            requires
                v < p,
                b < 256,
        ;
    }
}

pub proof fn lemma_pow256_values()
    ensures
        pow256(0) == 1,
        pow256(1) == 0x100,
        pow256(2) == 0x1_0000,
        pow256(4) == 0x1_0000_0000,
        pow256(8) == 0x1_0000_0000_0000_0000,
{
    reveal_with_fuel(pow256, 9);
}

/// Every header is read back, from the front of any byte sequence, as the
/// header that the encoder wrote, and the read takes exactly the bytes written.
pub proof fn lemma_header_roundtrip(header: Header, rest: Seq<u8>)
    ensures
        parse_header(encode_header(header) + rest) == Parsed::Header(
            header,
            encode_header(header).len(),
        ),
{
    lemma_pow256_values();
    let e = encode_header(header);
    let s = e + rest;
    match header {
        Header::Positive(v) => lemma_argument_roundtrip(0, v, rest),
        Header::Negative(v) => lemma_argument_roundtrip(1, v, rest),
        Header::Bytes(Some(n)) => lemma_argument_roundtrip(2, n as u64, rest),
        Header::Text(Some(n)) => lemma_argument_roundtrip(3, n as u64, rest),
        Header::Array(Some(n)) => lemma_argument_roundtrip(4, n as u64, rest),
        Header::Mapping(Some(n)) => lemma_argument_roundtrip(5, n as u64, rest),
        Header::Tag(v) => lemma_argument_roundtrip(6, v, rest),
        Header::Simple(v) => {
            if v < 24 {
                assert(s[0] == 0xe0 + v);
            } else {
                reveal_with_fuel(be_value, 2);
                assert(s.subrange(1, 2) =~= seq![v]);
                assert(seq![v].drop_last() =~= Seq::<u8>::empty());
            }
        },
        Header::Float(FloatBits::Half(b)) => {
            lemma_be_roundtrip(b as nat, 2);
            assert(s.subrange(1, 3) =~= be_bytes(b as nat, 2));
        },
        Header::Float(FloatBits::Single(b)) => {
            lemma_be_roundtrip(b as nat, 4);
            assert(s.subrange(1, 5) =~= be_bytes(b as nat, 4));
        },
        Header::Float(FloatBits::Double(b)) => {
            lemma_be_roundtrip(b as nat, 8);
            assert(s.subrange(1, 9) =~= be_bytes(b as nat, 8));
        },
        _ => {},
    }
}

/// The shortest argument encoding of `value` under `major` reads back as `value`.
pub proof fn lemma_argument_roundtrip(major: u8, value: u64, rest: Seq<u8>)
    requires
        major < 8,
    ensures
        ({
            let s = encode_argument(major, value) + rest;
            &&& encode_argument(major, value).len() == 1 + argument_width(value)
            &&& s[0] / 32 == major
            &&& s[0] % 32 == argument_info(value)
            &&& head_len(s[0]) == 1 + argument_width(value)
            &&& s.len() >= head_len(s[0])
            &&& argument_of(s) == Some(value)
        }),
{
    lemma_pow256_values();
    let w = argument_width(value);
    lemma_be_bytes_len(value as nat, w);
    let s = encode_argument(major, value) + rest;
    if w > 0 {
        lemma_be_roundtrip(value as nat, w);
        assert(s.subrange(1, 1 + w as int) =~= be_bytes(value as nat, w));
    }
}

/// The big-endian number in the `w` bytes after the initial byte of `e`,
/// for the argument widths `1`, `2`, `4` and `8`.
pub open spec fn wire_arg(e: Seq<u8>, w: nat) -> int {
    if w == 1 {
        e[1] as int
    } else if w == 2 {
        e[1] * 256 + e[2]
    } else if w == 4 {
        ((e[1] * 256 + e[2]) * 256 + e[3]) * 256 + e[4]
    } else {
        ((((((e[1] * 256 + e[2]) * 256 + e[3]) * 256 + e[4]) * 256 + e[5]) * 256 + e[6]) * 256
            + e[7]) * 256 + e[8]
    }
}

/// `e` is exactly the shortest CBOR head of major type `major` with
/// argument `v`: an initial byte whose top three bits are `major` and whose
/// low five bits hold `v` itself below 24, else 24, 25, 26 or 27 for a one,
/// two, four or eight byte big-endian argument, the fewest that hold `v`.
pub open spec fn shortest_head(e: Seq<u8>, major: int, v: int) -> bool {
    &&& e.len() >= 1
    &&& e[0] / 32 == major
    &&& if v < 24 {
        e.len() == 1 && e[0] % 32 == v
    } else if v < 0x100 {
        e.len() == 2 && e[0] % 32 == 24 && wire_arg(e, 1) == v
    } else if v < 0x1_0000 {
        e.len() == 3 && e[0] % 32 == 25 && wire_arg(e, 2) == v
    } else if v < 0x1_0000_0000 {
        e.len() == 5 && e[0] % 32 == 26 && wire_arg(e, 4) == v
    } else {
        e.len() == 9 && e[0] % 32 == 27 && wire_arg(e, 8) == v
    }
}

proof fn lemma_be_value_step(s: Seq<u8>, j: int)
    requires
        0 <= j,
        1 + j < s.len(),
    ensures
        be_value(s.subrange(1, 2 + j)) == be_value(s.subrange(1, 1 + j)) * 256 + s[1 + j],
{
    assert(s.subrange(1, 2 + j).drop_last() =~= s.subrange(1, 1 + j));
}

/// The argument bytes of a head, read by `be_value`, are the number that
/// `wire_arg` writes out.
proof fn lemma_be_value_wire(s: Seq<u8>, w: nat)
    requires
        w == 1 || w == 2 || w == 4 || w == 8,
        s.len() >= 1 + w,
    ensures
        be_value(s.subrange(1, 1 + w as int)) == wire_arg(s, w),
{
    assert(s.subrange(1, 1) =~= Seq::<u8>::empty());
    lemma_be_value_step(s, 0);
    if w >= 2 {
        lemma_be_value_step(s, 1);
    }
    if w >= 4 {
        lemma_be_value_step(s, 2);
        lemma_be_value_step(s, 3);
    }
    if w >= 8 {
        lemma_be_value_step(s, 4);
        lemma_be_value_step(s, 5);
        lemma_be_value_step(s, 6);
        lemma_be_value_step(s, 7);
    }
}

/// The shortest argument encoding is the shortest CBOR head.
proof fn lemma_argument_wire(major: u8, v: u64)
    requires
        major < 8,
    ensures
        shortest_head(encode_argument(major, v), major as int, v as int),
{
    lemma_argument_roundtrip(major, v, Seq::empty());
    let e = encode_argument(major, v);
    assert(e + Seq::<u8>::empty() =~= e);
    let w = argument_width(v);
    if w > 0 {
        lemma_be_value_wire(e, w);
    }
}

/// The encoder writes the CBOR wire format: integers, tags and definite
/// lengths as the shortest head of their major type (0 positive, 1
/// negative, 2 bytes, 3 text, 4 array, 5 map, 6 tag) with the value as
/// argument; indefinite lengths and break as their single initial byte;
/// simple values as `0xe0 + v` below 24, else `0xf8, v`; floats as `0xf9`,
/// `0xfa` or `0xfb` followed by their bits, most significant byte first.
pub proof fn lemma_encode_wire_format(v: u64, n: usize, b: u8, h16: u16, h32: u32)
    ensures
        shortest_head(encode_header(Header::Positive(v)), 0, v as int),
        shortest_head(encode_header(Header::Negative(v)), 1, v as int),
        shortest_head(encode_header(Header::Tag(v)), 6, v as int),
        shortest_head(encode_header(Header::Bytes(Some(n))), 2, n as int),
        shortest_head(encode_header(Header::Text(Some(n))), 3, n as int),
        shortest_head(encode_header(Header::Array(Some(n))), 4, n as int),
        shortest_head(encode_header(Header::Mapping(Some(n))), 5, n as int),
        encode_header(Header::Bytes(None)) == seq![0x5fu8],
        encode_header(Header::Text(None)) == seq![0x7fu8],
        encode_header(Header::Array(None)) == seq![0x9fu8],
        encode_header(Header::Mapping(None)) == seq![0xbfu8],
        encode_header(Header::Break) == seq![0xffu8],
        b < 24 ==> encode_header(Header::Simple(b)) == seq![(0xe0 + b) as u8],
        b >= 24 ==> encode_header(Header::Simple(b)) == seq![0xf8u8, b],
        ({
            let e = encode_header(Header::Float(FloatBits::Half(h16)));
            e.len() == 3 && e[0] == 0xf9 && wire_arg(e, 2) == h16
        }),
        ({
            let e = encode_header(Header::Float(FloatBits::Single(h32)));
            e.len() == 5 && e[0] == 0xfa && wire_arg(e, 4) == h32
        }),
        ({
            let e = encode_header(Header::Float(FloatBits::Double(v)));
            e.len() == 9 && e[0] == 0xfb && wire_arg(e, 8) == v
        }),
{
    lemma_argument_wire(0, v);
    lemma_argument_wire(1, v);
    lemma_argument_wire(6, v);
    lemma_argument_wire(2, n as u64);
    lemma_argument_wire(3, n as u64);
    lemma_argument_wire(4, n as u64);
    lemma_argument_wire(5, n as u64);
    lemma_pow256_values();
    lemma_be_roundtrip(h16 as nat, 2);
    lemma_be_roundtrip(h32 as nat, 4);
    lemma_be_roundtrip(v as nat, 8);
    let e2 = encode_header(Header::Float(FloatBits::Half(h16)));
    let e4 = encode_header(Header::Float(FloatBits::Single(h32)));
    let e8 = encode_header(Header::Float(FloatBits::Double(v)));
    assert(e2.subrange(1, 3) =~= be_bytes(h16 as nat, 2));
    assert(e4.subrange(1, 5) =~= be_bytes(h32 as nat, 4));
    assert(e8.subrange(1, 9) =~= be_bytes(v as nat, 8));
    lemma_be_value_wire(e2, 2);
    lemma_be_value_wire(e4, 4);
    lemma_be_value_wire(e8, 8);
}

/// The argument width that additional information `info` announces,
/// written out.
pub open spec fn wire_width(info: int) -> nat {
    if info == 24 {
        1
    } else if info == 25 {
        2
    } else if info == 26 {
        4
    } else if info == 27 {
        8
    } else {
        0
    }
}

/// The decoder reads the CBOR wire format. With `m` the top three bits and
/// `i` the low five bits of the initial byte, and `a` the argument (`i`
/// itself below 24, else the big-endian number in the one, two, four or
/// eight bytes that 24, 25, 26 or 27 announce): major types 0, 1 and 6
/// read as the positive integer, negative integer or tag `a`; 2 to 5 as a
/// bytes, text, array or map header of length `a` (or of indefinite length
/// when `i` is 31); 7 as the simple value `a` up to `i == 24`, a float of
/// the announced width for 25 to 27, and break for 31. Additional
/// information 28 to 30, and 31 under major types 0, 1 and 6, is malformed;
/// input that ends inside the head is truncated.
pub proof fn lemma_parse_wire_format(s: Seq<u8>)
    ensures
        s.len() == 0 ==> parse_header(s) == Parsed::Truncated,
        s.len() > 0 ==> ({
            let m = s[0] / 32;
            let i = s[0] % 32;
            let w = wire_width(i as int);
            let a: int = if i < 24 {
                i as int
            } else {
                wire_arg(s, w)
            };
            &&& 28 <= i <= 30 ==> parse_header(s) == Parsed::Malformed(1)
            &&& i <= 27 && s.len() < 1 + w ==> parse_header(s) == Parsed::Truncated
            &&& i <= 27 && s.len() >= 1 + w ==> {
                &&& m == 0 ==> parse_header(s) == Parsed::Header(Header::Positive(a as u64), 1 + w)
                &&& m == 1 ==> parse_header(s) == Parsed::Header(Header::Negative(a as u64), 1 + w)
                &&& m == 6 ==> parse_header(s) == Parsed::Header(Header::Tag(a as u64), 1 + w)
                &&& 2 <= m <= 5 && a > usize::MAX ==> parse_header(s) == Parsed::Malformed(1 + w)
                &&& m == 2 && a <= usize::MAX ==> parse_header(s) == Parsed::Header(
                    Header::Bytes(Some(a as usize)),
                    1 + w,
                )
                &&& m == 3 && a <= usize::MAX ==> parse_header(s) == Parsed::Header(
                    Header::Text(Some(a as usize)),
                    1 + w,
                )
                &&& m == 4 && a <= usize::MAX ==> parse_header(s) == Parsed::Header(
                    Header::Array(Some(a as usize)),
                    1 + w,
                )
                &&& m == 5 && a <= usize::MAX ==> parse_header(s) == Parsed::Header(
                    Header::Mapping(Some(a as usize)),
                    1 + w,
                )
                &&& m == 7 && i <= 24 ==> parse_header(s) == Parsed::Header(
                    Header::Simple(a as u8),
                    1 + w,
                )
                &&& m == 7 && i == 25 ==> parse_header(s) == Parsed::Header(
                    Header::Float(FloatBits::Half(a as u16)),
                    3,
                )
                &&& m == 7 && i == 26 ==> parse_header(s) == Parsed::Header(
                    Header::Float(FloatBits::Single(a as u32)),
                    5,
                )
                &&& m == 7 && i == 27 ==> parse_header(s) == Parsed::Header(
                    Header::Float(FloatBits::Double(a as u64)),
                    9,
                )
            }
            &&& i == 31 ==> {
                &&& (m == 0 || m == 1 || m == 6) ==> parse_header(s) == Parsed::Malformed(1)
                &&& m == 2 ==> parse_header(s) == Parsed::Header(Header::Bytes(None), 1)
                &&& m == 3 ==> parse_header(s) == Parsed::Header(Header::Text(None), 1)
                &&& m == 4 ==> parse_header(s) == Parsed::Header(Header::Array(None), 1)
                &&& m == 5 ==> parse_header(s) == Parsed::Header(Header::Mapping(None), 1)
                &&& m == 7 ==> parse_header(s) == Parsed::Header(Header::Break, 1)
            }
        }),
{
    if s.len() > 0 {
        let i = s[0] % 32;
        let w = wire_width(i as int);
        assert(w == extra_width(i));
        if 24 <= i <= 27 && s.len() >= 1 + w {
            lemma_be_value_wire(s, w);
            lemma_be_value_bound(s.subrange(1, 1 + w as int));
            lemma_pow256_values();
        }
    }
}

} // verus!
