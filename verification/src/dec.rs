//! Reading CBOR headers.
use crate::header::{encode_header, lemma_header_roundtrip, argument_of, be_value, head_len, header_from, parse_header, pow256, FloatBits, Header, Parsed};
use crate::io::Read;
use crate::seg::Segments;
use crate::slice::SliceReader;
use vstd::prelude::*;

verus! {

/// An error that occurred while decoding.
#[derive(Clone, Debug)]
pub enum Error<T> {
    /// An error occurred while reading bytes; it holds the reader's error.
    Io(T),
    /// The bytes are not well-formed CBOR; it holds the offset into the
    /// stream of the header where this was found.
    Syntax(usize),
}

impl<T> From<T> for Error<T> {
    fn from(value: T) -> (r: Self) {
        Self::Io(value)
    }
}

impl<T> vstd::std_specs::convert::FromSpecImpl<T> for Error<T> {
    open spec fn obeys_from_spec() -> bool {
        true
    }

    open spec fn from_spec(v: T) -> Self {
        Error::Io(v)
    }
}

/// Reads a big-endian number of at most eight bytes.
fn be_decode(bytes: &[u8]) -> (r: u64)
    requires
        bytes@.len() <= 8,
    ensures
        r == be_value(bytes@),
{
    let mut acc: u64 = 0;
    let mut i: usize = 0;
    proof {
        crate::header::lemma_pow256_values();
    }
    while i < bytes.len()
        invariant
            i <= bytes@.len() <= 8,
            acc == be_value(bytes@.take(i as int)),
            pow256(8) == 0x1_0000_0000_0000_0000,
        decreases bytes@.len() - i,
    {
        proof {
            let t = bytes@.take(i as int + 1);
            assert(t.drop_last() =~= bytes@.take(i as int));
            crate::header::lemma_be_value_bound(t);
            lemma_pow256_monotonic(t.len(), 8);
        }
        acc = acc * 256 + bytes[i] as u64;
        i = i + 1;
    }
    assert(bytes@.take(i as int) =~= bytes@);
    acc
}

proof fn lemma_pow256_monotonic(a: nat, b: nat)
    requires
        a <= b,
    ensures
        pow256(a) <= pow256(b),
    decreases b,
{
    if a < b {
        lemma_pow256_monotonic(a, (b - 1) as nat);
    }
}

/// A decoder for deserializing CBOR items.
///
/// It reads `Header`s from a reader, keeps track of the byte offset into the
/// stream, and can take back one header to be read again.
pub struct Decoder<R> {
    reader: R,
    offset: usize,
    buffer: Option<(Header, usize)>,
    last_header_len: usize,
}

impl<R: Read> Decoder<R> {
    /// The wrapped reader.
    pub closed spec fn reader(&self) -> R {
        self.reader
    }

    /// The byte offset into the stream.
    pub closed spec fn position(&self) -> nat {
        self.offset as nat
    }

    /// The header pushed back to be read again, with its length on the wire.
    pub closed spec fn buffered(&self) -> Option<(Header, usize)> {
        self.buffer
    }

    /// The length on the wire of the header read last.
    pub closed spec fn last_len(&self) -> nat {
        self.last_header_len as nat
    }

    /// The decoder's invariant: the reader may be read, the offset counts no
    /// more than the header read last before a push back, and the offset can
    /// grow by all the input that is left without overflowing.
    pub closed spec fn wf(&self) -> bool {
        &&& self.reader.readable()
        &&& match self.buffer {
            None => {
                &&& self.last_header_len <= self.offset
                &&& self.offset + self.reader.input().len() <= usize::MAX
            },
            Some((_, len)) => {
                &&& len == self.last_header_len
                &&& self.offset + len + self.reader.input().len() <= usize::MAX
            },
        }
    }

    /// What `pull` does: gives back the pushed-back header if there is one,
    /// else reads the next header from the input.
    pub open spec fn pull_outcome(self, r: Result<Header, Error<R::Error>>, next: Self) -> bool {
        &&& next.buffered() is None
        &&& match self.buffered() {
            Some((h, len)) => {
                &&& r == Ok::<Header, Error<R::Error>>(h)
                &&& next.position() == self.position() + len
                &&& next.last_len() == len
                &&& next.reader() == self.reader()
            },
            None => match parse_header(self.reader().input()) {
                Parsed::Header(h, len) => {
                    &&& r == Ok::<Header, Error<R::Error>>(h)
                    &&& next.position() == self.position() + len
                    &&& next.last_len() == len
                    &&& next.reader().input() == self.reader().input().skip(len as int)
                },
                Parsed::Malformed(len) => {
                    &&& r == Err::<Header, Error<R::Error>>(Error::Syntax(self.position() as usize))
                    &&& next.position() == self.position() + len
                    &&& next.last_len() == self.last_len()
                    &&& next.reader().input() == self.reader().input().skip(len as int)
                },
                Parsed::Truncated => {
                    &&& r matches Err(Error::Io(_))
                    &&& next.last_len() == self.last_len()
                    &&& next.position() == self.position() + if self.reader().input().len()
                        == 0 {
                        0nat
                    } else {
                        1nat
                    }
                },
            },
        }
    }

    /// What `push` does: keeps `item` to be read again, and moves the offset
    /// back over the header read last.
    pub open spec fn push_outcome(self, item: Header, next: Self) -> bool {
        &&& next.buffered() == Some((item, self.last_len() as usize))
        &&& next.position() == self.position() - self.last_len()
        &&& next.last_len() == self.last_len()
        &&& next.reader() == self.reader()
    }
}

impl<R: Read> From<R> for Decoder<R> {
    fn from(value: R) -> (r: Self)
        ensures
            r.reader() == value,
            r.position() == 0,
            r.buffered() is None,
            r.last_len() == 0,
            r.wf() <==> value.readable() && value.input().len() <= usize::MAX,
    {
        Self { reader: value, offset: 0, buffer: None, last_header_len: 0 }
    }
}

impl<R: Read> vstd::std_specs::convert::FromSpecImpl<R> for Decoder<R> {
    open spec fn obeys_from_spec() -> bool {
        true
    }

    closed spec fn from_spec(v: R) -> Self {
        Decoder { reader: v, offset: 0, buffer: None, last_header_len: 0 }
    }
}

impl<R: Read> Read for Decoder<R> {
    type Error = R::Error;

    open spec fn input(&self) -> Seq<u8> {
        self.reader().input()
    }

    open spec fn readable(&self) -> bool {
        self.wf() && self.buffered() is None
    }

    fn read_exact(&mut self, data: &mut [u8]) -> (r: Result<(), Self::Error>)
        ensures
            final(self).last_len() == old(self).last_len(),
            r is Ok ==> final(self).position() == old(self).position() + old(data)@.len(),
            r is Err ==> final(self).position() == old(self).position(),
    {
        match self.reader.read_exact(data) {
            Ok(()) => {
                self.offset = self.offset + data.len();
                Ok(())
            },
            Err(e) => Err(e),
        }
    }
}

impl<R: Read> Decoder<R> {
    fn pull_header(&mut self) -> (r: Result<Header, Error<R::Error>>)
        requires
            old(self).wf(),
        ensures
            final(self).wf(),
            old(self).pull_outcome(r, *final(self)),
    {
        match self.buffer {
            Some((header, len)) => {
                self.buffer = None;
                self.offset = self.offset + len;
                self.last_header_len = len;
                return Ok(header);
            },
            None => {},
        }

        let ghost input = self.reader.input();
        let offset = self.offset;
        let mut prefix = [0u8; 1];
        match self.read_exact(&mut prefix) {
            Ok(()) => {},
            Err(e) => return Err(Error::Io(e)),
        }

        let initial = prefix[0];
        let major = initial >> 5u8;
        let additional = initial & 0x1fu8;
        assert((initial >> 5u8) == initial / 32 && (initial & 0x1fu8) == initial % 32) by (bit_vector);
        assert(initial == input[0]);
        let ghost rest = input.skip(1);

        let value: Option<u64> = if additional <= 23 {
            Some(additional as u64)
        } else if additional == 24 {
            let mut bytes = [0u8; 1];
            match self.read_exact(&mut bytes) {
                Ok(()) => {},
                Err(e) => return Err(Error::Io(e)),
            }
            assert(bytes@ =~= input.subrange(1, 2));
            Some(be_decode(&bytes))
        } else if additional == 25 {
            let mut bytes = [0u8; 2];
            match self.read_exact(&mut bytes) {
                Ok(()) => {},
                Err(e) => return Err(Error::Io(e)),
            }
            assert(bytes@ =~= input.subrange(1, 3));
            Some(be_decode(&bytes))
        } else if additional == 26 {
            let mut bytes = [0u8; 4];
            match self.read_exact(&mut bytes) {
                Ok(()) => {},
                Err(e) => return Err(Error::Io(e)),
            }
            assert(bytes@ =~= input.subrange(1, 5));
            Some(be_decode(&bytes))
        } else if additional == 27 {
            let mut bytes = [0u8; 8];
            match self.read_exact(&mut bytes) {
                Ok(()) => {},
                Err(e) => return Err(Error::Io(e)),
            }
            assert(bytes@ =~= input.subrange(1, 9));
            Some(be_decode(&bytes))
        } else if additional == 31 {
            None
        } else {
            return Err(Error::Syntax(offset));
        };
        assert(self.offset == offset + head_len(initial));
        assert(self.reader.input() =~= input.skip(head_len(initial) as int));
        assert(value == argument_of(input));
        assert(input.len() >= head_len(initial));
        assert(parse_header(input) == match header_from(major, additional, value) {
            Some(h) => Parsed::Header(h, head_len(initial)),
            None => Parsed::Malformed(head_len(initial)),
        });

        let header = if major == 0 && value.is_some() {
            Header::Positive(value.unwrap())
        } else if major == 1 && value.is_some() {
            Header::Negative(value.unwrap())
        } else if 2 <= major && major <= 5 {
            let len: Option<usize> = match value {
                None => None,
                Some(v) => match usize::try_from(v) {
                    Ok(n) => Some(n),
                    Err(_) => return Err(Error::Syntax(offset)),
                },
            };
            if major == 2 {
                Header::Bytes(len)
            } else if major == 3 {
                Header::Text(len)
            } else if major == 4 {
                Header::Array(len)
            } else {
                Header::Mapping(len)
            }
        } else if major == 6 && value.is_some() {
            Header::Tag(value.unwrap())
        } else if major == 7 && additional == 31 {
            Header::Break
        } else if major == 7 && additional <= 24 && value.is_some() {
            Header::Simple(value.unwrap() as u8)
        } else if major == 7 && additional == 25 && value.is_some() {
            Header::Float(FloatBits::Half(value.unwrap() as u16))
        } else if major == 7 && additional == 26 && value.is_some() {
            Header::Float(FloatBits::Single(value.unwrap() as u32))
        } else if major == 7 && additional == 27 && value.is_some() {
            Header::Float(FloatBits::Double(value.unwrap()))
        } else {
            return Err(Error::Syntax(offset));
        };

        assert(header_from(major, additional, value) == Some(header));
        self.last_header_len = self.offset - offset;
        Ok(header)
    }

    /// Pulls the next header from the input.
    pub fn pull(&mut self) -> (r: Result<Header, Error<R::Error>>)
        requires
            old(self).wf(),
        ensures
            final(self).wf(),
            old(self).pull_outcome(r, *final(self)),
    {
        self.pull_header()
    }

    /// Pushes a single header back into the input, to be pulled next.
    ///
    /// There must be no header pushed back already; call it only after
    /// pulling a header.
    pub fn push(&mut self, item: Header)
        requires
            old(self).wf(),
            old(self).buffered() is None,
        ensures
            final(self).wf(),
            old(self).push_outcome(item, *final(self)),
    {
        self.offset = self.offset - self.last_header_len;
        self.buffer = Some((item, self.last_header_len));
    }

    /// Starts reading a bytes item.
    ///
    /// Call it right after pulling `Header::Bytes(len)`, with that `len`: the
    /// header is pushed back, and the returned walker reads it again before
    /// the segments that follow.
    pub fn bytes(&mut self, len: Option<usize>) -> (r: Segments)
        requires
            old(self).wf(),
            old(self).buffered() is None,
        ensures
            final(self).wf(),
            old(self).push_outcome(Header::Bytes(len), *final(self)),
            !r.is_text(),
            !r.is_finished(),
            r.depth() == 0,
    {
        self.push(Header::Bytes(len));
        Segments::new(false)
    }

    /// Starts reading a text item.
    ///
    /// Call it right after pulling `Header::Text(len)`, with that `len`: the
    /// header is pushed back, and the returned walker reads it again before
    /// the segments that follow.
    pub fn text(&mut self, len: Option<usize>) -> (r: Segments)
        requires
            old(self).wf(),
            old(self).buffered() is None,
        ensures
            final(self).wf(),
            old(self).push_outcome(Header::Text(len), *final(self)),
            r.is_text(),
            !r.is_finished(),
            r.depth() == 0,
    {
        self.push(Header::Text(len));
        Segments::new(true)
    }

    /// Gets the current byte offset into the stream.
    ///
    /// The offset starts at zero when the decoder is created.
    pub fn offset(&mut self) -> (r: usize)
        ensures
            r == old(self).position(),
            *final(self) == *old(self),
    {
        self.offset
    }
}

/// The length of the pushed-back header, if there is one.
pub open spec fn pending(buffered: Option<(Header, usize)>) -> nat {
    match buffered {
        Some((_, n)) => n as nat,
        None => 0,
    }
}

/// The offset, plus the pushed-back header, plus the input left: what a
/// decoder's counting keeps constant.
pub open spec fn tally<R: Read>(d: Decoder<R>) -> nat {
    d.position() + pending(d.buffered()) + d.reader().input().len()
}

/// `d1` is `d0` after borrowing `n` bytes straight from the input.
pub open spec fn borrowed<R: Read>(d0: Decoder<R>, n: nat, d1: Decoder<R>) -> bool {
    &&& n <= d0.reader().input().len()
    &&& d1.reader().input() == d0.reader().input().skip(n as int)
    &&& d1.position() == d0.position() + n
    &&& d1.buffered() == d0.buffered()
}

/// `d1` is `d0` after a pull that did not fail on reading, a push-back, or
/// a borrow from the input.
pub open spec fn counted_step<R: Read>(d0: Decoder<R>, d1: Decoder<R>) -> bool {
    ||| exists|r: Result<Header, Error<R::Error>>|
        #[trigger] d0.pull_outcome(r, d1) && !(r matches Err(Error::Io(_)))
    ||| d0.buffered() is None && exists|h: Header| #[trigger] d0.push_outcome(h, d1)
    ||| exists|n: nat| #[trigger] borrowed(d0, n, d1)
}

/// One pull, push-back or borrow moves bytes between the input, the
/// pushed-back header and the offset, and loses or makes up none.
pub proof fn lemma_step_keeps_tally<R: Read>(d0: Decoder<R>, d1: Decoder<R>)
    requires
        d0.wf(),
        counted_step(d0, d1),
    ensures
        tally(d1) == tally(d0),
{
    if exists|r: Result<Header, Error<R::Error>>|
        #[trigger] d0.pull_outcome(r, d1) && !(r matches Err(Error::Io(_))) {
        let r = choose|r: Result<Header, Error<R::Error>>|
            #[trigger] d0.pull_outcome(r, d1) && !(r matches Err(Error::Io(_)));
        let inp = d0.reader().input();
        if d0.buffered() is None {
            match parse_header(inp) {
                Parsed::Header(h, n) => {
                    assert(inp.skip(n as int).len() == inp.len() - n);
                },
                Parsed::Malformed(n) => {
                    assert(inp.skip(n as int).len() == inp.len() - n);
                },
                Parsed::Truncated => {},
            }
        }
    } else if d0.buffered() is None && exists|h: Header| #[trigger] d0.push_outcome(h, d1) {
    } else {
        let n = choose|n: nat| #[trigger] borrowed(d0, n, d1);
    }
}

/// The offset counts the bytes taken from the input: across any run of
/// pulls that do not fail on reading, push-backs and borrows, the offset
/// plus the pushed-back header plus the input left stays the same; from a
/// fresh decoder, the offset plus the pushed-back header is the number of
/// input bytes consumed.
pub proof fn lemma_offset_counts<R: Read>(ds: Seq<Decoder<R>>)
    requires
        ds.len() >= 1,
        forall|i: int| 0 <= i < ds.len() - 1 ==> (#[trigger] ds[i]).wf() && counted_step(
            ds[i],
            ds[i + 1],
        ),
    ensures
        tally(ds.last()) == tally(ds[0]),
        ds[0].position() == 0 && ds[0].buffered() is None ==> ds.last().position() + pending(
            ds.last().buffered(),
        ) == ds[0].reader().input().len() - ds.last().reader().input().len(),
    decreases ds.len(),
{
    if ds.len() > 1 {
        let front = ds.drop_last();
        assert forall|i: int| 0 <= i < front.len() - 1 implies (#[trigger] front[i]).wf()
            && counted_step(front[i], front[i + 1]) by {
            assert(front[i] == ds[i] && front[i + 1] == ds[i + 1]);
        }
        lemma_offset_counts(front);
        let k = ds.len() - 2;
        assert(ds[k].wf() && counted_step(ds[k], ds[k + 1]));
        lemma_step_keeps_tally(ds[k], ds[k + 1]);
    }
}

/// A header pushed back is the next one pulled, and the pull takes the
/// decoder back to the offset it had before the push.
pub proof fn lemma_push_then_pull<R: Read>(
    d0: Decoder<R>,
    item: Header,
    d1: Decoder<R>,
    r: Result<Header, Error<R::Error>>,
    d2: Decoder<R>,
)
    requires
        d0.wf(),
        d0.buffered() is None,
        d0.push_outcome(item, d1),
        d1.pull_outcome(r, d2),
    ensures
        r == Ok::<Header, Error<R::Error>>(item),
        d2.position() == d0.position(),
        d2.reader() == d0.reader(),
        d2.buffered() is None,
        d2.last_len() == d0.last_len(),
{
}

/// Pulling a header, pushing it back and pulling again gives the same
/// header, and leaves the decoder as the first pull left it.
pub proof fn lemma_pull_push_pull<R: Read>(
    d0: Decoder<R>,
    r0: Result<Header, Error<R::Error>>,
    d1: Decoder<R>,
    d2: Decoder<R>,
    r2: Result<Header, Error<R::Error>>,
    d3: Decoder<R>,
)
    requires
        d0.pull_outcome(r0, d1),
        r0 is Ok,
        d1.push_outcome(r0->Ok_0, d2),
        d2.pull_outcome(r2, d3),
    ensures
        r2 == r0,
        d3.position() == d1.position(),
        d3.reader() == d1.reader(),
        d3.buffered() is None,
        d3.last_len() == d1.last_len(),
{
}

/// A decoder whose input starts with what the encoder wrote for `header`
/// pulls `header`, and moves past exactly those bytes.
pub proof fn lemma_pull_reads_encoded<R: Read>(
    d0: Decoder<R>,
    header: Header,
    rest: Seq<u8>,
    r: Result<Header, Error<R::Error>>,
    d1: Decoder<R>,
)
    requires
        d0.buffered() is None,
        d0.reader().input() == encode_header(header) + rest,
        d0.pull_outcome(r, d1),
    ensures
        r == Ok::<Header, Error<R::Error>>(header),
        d1.position() == d0.position() + encode_header(header).len(),
        d1.reader().input() == rest,
{
    lemma_header_roundtrip(header, rest);
    assert((encode_header(header) + rest).skip(encode_header(header).len() as int) =~= rest);
}

impl<'slice> Decoder<SliceReader<'slice>> {
    /// Attempts to borrow the next `len` bytes directly from the underlying slice.
    pub fn try_borrow_slice(&mut self, len: usize) -> (r: Option<&'slice [u8]>)
        requires
            old(self).wf(),
        ensures
            final(self).wf(),
            r is Some <==> len <= old(self).reader().input().len(),
            r matches Some(s) ==> {
                &&& s@ == old(self).reader().input().take(len as int)
                &&& final(self).reader().input() == old(self).reader().input().skip(len as int)
                &&& final(self).position() == old(self).position() + len
                &&& final(self).buffered() == old(self).buffered()
                &&& final(self).last_len() == old(self).last_len()
            },
            r is None ==> *final(self) == *old(self),
    {
        let slice = self.reader.take(len);
        if slice.is_some() {
            self.offset = self.offset + len;
        }
        slice
    }
}

} // verus!
