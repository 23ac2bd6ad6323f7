//! Walking the segments of a bytes or text item.
//!
//! A bytes or text item is either one definite-length segment, or an
//! indefinite-length item: a run of definite-length segments of the same
//! kind, ended by a break.
use crate::dec::{pending, Decoder, Error};
use crate::enc::framed;
use crate::header::{encode_header, lemma_header_roundtrip, parse_header, Header, Parsed};
use crate::io::Read;
use vstd::prelude::*;

verus! {

/// The length a header announces for a segment of the given kind: `None`
/// when the header is of another kind, `Some(None)` for an indefinite length.
pub open spec fn segment_length(text: bool, h: Header) -> Option<Option<usize>> {
    if text {
        match h {
            Header::Text(len) => Some(len),
            _ => None,
        }
    } else {
        match h {
            Header::Bytes(len) => Some(len),
            _ => None,
        }
    }
}

/// What a segment walker at nesting depth `nested` does with the header `h`.
pub enum Step {
    /// The outermost indefinite-length item ends here.
    End,
    /// Go on reading headers, at the given depth.
    Continue(nat),
    /// A segment of the given length follows.
    Yield(usize),
    /// The header does not belong here.
    Reject,
}

/// The step taken on header `h` at depth `nested`.
pub open spec fn decide(text: bool, nested: nat, h: Header) -> Step {
    if h == Header::Break && nested == 1 {
        Step::End
    } else if h == Header::Break && nested > 1 {
        Step::Continue((nested - 1) as nat)
    } else {
        match segment_length(text, h) {
            None => Step::Reject,
            Some(None) => if nested < usize::MAX {
                Step::Continue(nested + 1)
            } else {
                Step::Reject
            },
            Some(Some(len)) => Step::Yield(len),
        }
    }
}

/// How a call to `Segments::pull` ends. `adv` is how far the stream offset
/// moves, `at` the offset of an offending header (both counted from the
/// offset the call starts at), and `nested` the depth the walker is left at.
pub enum Walk {
    /// A segment of `len` bytes follows.
    Segment(usize, nat, nat),
    /// The item ends: `Segment(len, adv, nested)` without the segment.
    End(nat, nat),
    /// A header is malformed or misplaced: `(at, adv, nested)`.
    Malformed(nat, nat, nat),
    /// The input ends in the middle of a header: `(at, nested)`, with `at`
    /// the offset of that header.
    Truncated(nat, nat),
}

/// Moves every offset in `w` forward by `d`.
pub open spec fn shift(w: Walk, d: nat) -> Walk {
    match w {
        Walk::Segment(len, adv, k) => Walk::Segment(len, adv + d, k),
        Walk::End(adv, k) => Walk::End(adv + d, k),
        Walk::Malformed(at, adv, k) => Walk::Malformed(at + d, adv + d, k),
        Walk::Truncated(at, k) => Walk::Truncated(at + d, k),
    }
}

/// Shifting twice is shifting by the sum.
pub proof fn lemma_shift_shift(w: Walk, a: nat, b: nat)
    ensures
        shift(shift(w, a), b) == shift(w, a + b),
{
}

/// The walk over headers read from the front of `s`, starting at depth `nested`.
#[verifier::opaque]
pub open spec fn scan(text: bool, nested: nat, s: Seq<u8>) -> Walk
    decreases s.len(),
{
    match parse_header(s) {
        Parsed::Truncated => Walk::Truncated(0, nested),
        Parsed::Malformed(n) => Walk::Malformed(0, n, nested),
        Parsed::Header(h, n) => match decide(text, nested, h) {
            Step::End => Walk::End(n, nested),
            Step::Yield(len) => Walk::Segment(len, n, nested),
            Step::Reject => Walk::Malformed(0, n, nested),
            Step::Continue(m) => if 1 <= n <= s.len() {
                shift(scan(text, m, s.skip(n as int)), n)
            } else {
                Walk::Truncated(0, nested)
            },
        },
    }
}

/// The walk from a decoder state: the pushed-back header, if any, comes
/// first, then the headers of the input.
#[verifier::opaque]
pub open spec fn walk(
    text: bool,
    nested: nat,
    buffered: Option<(Header, usize)>,
    input: Seq<u8>,
) -> Walk {
    match buffered {
        None => scan(text, nested, input),
        Some((h, n)) => match decide(text, nested, h) {
            Step::End => Walk::End(n as nat, nested),
            Step::Yield(len) => Walk::Segment(len, n as nat, nested),
            Step::Reject => Walk::Malformed(0, n as nat, nested),
            Step::Continue(m) => shift(scan(text, m, input), n as nat),
        },
    }
}

/// The header of a segment of `len` bytes of the given kind.
pub open spec fn segment_header(text: bool, len: Option<usize>) -> Header {
    if text {
        Header::Text(len)
    } else {
        Header::Bytes(len)
    }
}

/// Segments as the encoder writes them are walked one by one: on an
/// indefinite-length item the walker takes the pushed-back opening header
/// and goes on into the segments; each walk yields the length of the next
/// payload, and after the last payload the break ends the item.
pub proof fn lemma_walk_framed(
    text: bool,
    chunks: Seq<Seq<u8>>,
    rest: Seq<u8>,
    opening: usize,
)
    requires
        forall|i: int| 0 <= i < chunks.len() ==> (#[trigger] chunks[i]).len() <= usize::MAX,
    ensures
        ({
            let s = framed(text, chunks) + seq![0xffu8] + rest;
            &&& walk(text, 0, Some((segment_header(text, None), opening)), s) == shift(
                scan(text, 1, s),
                opening as nat,
            )
            &&& chunks.len() == 0 ==> scan(text, 1, s) == Walk::End(1, 1)
            &&& chunks.len() > 0 ==> {
                let h = segment_header(text, Some(chunks[0].len() as usize));
                &&& scan(text, 1, s) == Walk::Segment(
                    chunks[0].len() as usize,
                    encode_header(h).len(),
                    1,
                )
                &&& s == encode_header(h) + chunks[0] + (framed(text, chunks.drop_first()) + seq![
                    0xffu8,
                ] + rest)
            }
        }),
{
    reveal(walk);
    reveal(scan);
    let s = framed(text, chunks) + seq![0xffu8] + rest;
    if chunks.len() == 0 {
        assert(s =~= encode_header(Header::Break) + rest);
        lemma_header_roundtrip(Header::Break, rest);
    } else {
        let h = segment_header(text, Some(chunks[0].len() as usize));
        let tail = chunks[0] + (framed(text, chunks.drop_first()) + seq![0xffu8] + rest);
        assert(s =~= encode_header(h) + tail);
        lemma_header_roundtrip(h, tail);
    }
}

/// How a call of `Segments::pull` that starts at offset `pos`, with `input`
/// left and a pushed-back header of length `skipped` (or `0`), ends when the
/// walk from there is `w`: its result `r`, the depth and whether the item is
/// finished afterwards, and the decoder's offset, input and pushed-back
/// header afterwards.
#[verifier::opaque]
pub open spec fn pulled<E>(
    w: Walk,
    pos: nat,
    input: Seq<u8>,
    skipped: nat,
    r: Result<Option<usize>, Error<E>>,
    depth: nat,
    finished: bool,
    next_pos: nat,
    next_input: Seq<u8>,
    next_unbuffered: bool,
) -> bool {
    &&& next_unbuffered
    &&& match w {
        Walk::Segment(len, adv, k) => {
            &&& r == Ok::<Option<usize>, Error<E>>(Some(len))
            &&& skipped <= adv <= skipped + input.len()
            &&& next_pos == pos + adv
            &&& next_input == input.skip(adv - skipped)
            &&& depth == k
            &&& finished == (k == 0)
        },
        Walk::End(adv, k) => {
            &&& r == Ok::<Option<usize>, Error<E>>(None)
            &&& skipped <= adv <= skipped + input.len()
            &&& next_pos == pos + adv
            &&& next_input == input.skip(adv - skipped)
            &&& depth == k
            &&& !finished
        },
        Walk::Malformed(at, adv, k) => {
            &&& r == Err::<Option<usize>, Error<E>>(Error::Syntax((pos + at) as usize))
            &&& skipped <= adv <= skipped + input.len()
            &&& next_pos == pos + adv
            &&& next_input == input.skip(adv - skipped)
            &&& depth == k
            &&& !finished
        },
        Walk::Truncated(at, k) => {
            &&& r matches Err(Error::Io(_))
            &&& skipped <= at <= skipped + input.len()
            &&& next_pos == pos + at + if input.skip(at - skipped).len() == 0 {
                0nat
            } else {
                1nat
            }
            &&& depth == k
            &&& !finished
        },
    }
}

/// A definite-length item is one segment: right after `Decoder::bytes` or
/// `Decoder::text` pushes back a header of known length `n` (of the
/// walker's kind, `k` bytes long on the wire), the walk yields exactly one
/// segment of `n` bytes, moves past the header and nothing else, and leaves
/// the walker at depth zero, so the item is finished and the next pull
/// ends it.
pub proof fn lemma_definite_item(text: bool, n: usize, k: usize, input: Seq<u8>)
    ensures
        walk(text, 0, Some((segment_header(text, Some(n)), k)), input) == Walk::Segment(
            n,
            k as nat,
            0,
        ),
{
    reveal(walk);
}

/// An indefinite-length item of the walker's kind opens a level of nesting;
/// a header of the other kind, or any header that is not bytes or text, is
/// rejected where a segment is expected.
pub proof fn lemma_segment_kinds(text: bool, nested: nat, h: Header)
    ensures
        h == segment_header(text, None) && nested < usize::MAX ==> decide(text, nested, h)
            == Step::Continue(nested + 1),
        (forall|len: Option<usize>| h != #[trigger] segment_header(text, len)) && h
            != Header::Break ==> decide(text, nested, h) == Step::Reject,
        h == Header::Break && nested == 1 ==> decide(text, nested, h) == Step::End,
        h == Header::Break && nested > 1 ==> decide(text, nested, h) == Step::Continue(
            (nested - 1) as nat,
        ),
{
    if (forall|len: Option<usize>| h != #[trigger] segment_header(text, len)) && h != Header::Break {
        match h {
            Header::Bytes(len) => {
                assert(h != segment_header(text, len));
            },
            Header::Text(len) => {
                assert(h != segment_header(text, len));
            },
            _ => {},
        }
    }
}

/// A walker over the segments of one bytes or text item.
pub struct Segments {
    text: bool,
    finished: bool,
    nested: usize,
}

impl Segments {
    /// Whether the walker expects text segments (else bytes segments).
    pub closed spec fn is_text(&self) -> bool {
        self.text
    }

    /// Whether the item has been read to its end.
    pub closed spec fn is_finished(&self) -> bool {
        self.finished
    }

    /// How many indefinite-length items are open.
    pub closed spec fn depth(&self) -> nat {
        self.nested as nat
    }

    /// A walker at the start of an item.
    pub(crate) fn new(text: bool) -> (r: Self)
        ensures
            r.is_text() == text,
            !r.is_finished(),
            r.depth() == 0,
    {
        Segments { text, finished: false, nested: 0 }
    }

    fn length_of(&self, header: Header) -> (r: Option<Option<usize>>)
        ensures
            r == segment_length(self.text, header),
    {
        if self.text {
            match header {
                Header::Text(len) => Some(len),
                _ => None,
            }
        } else {
            match header {
                Header::Bytes(len) => Some(len),
                _ => None,
            }
        }
    }

    /// One round of `pull`: pulls one header and acts on it; `None` means
    /// that the walk goes on.
    fn advance<R: Read>(&mut self, decoder: &mut Decoder<R>) -> (r: Option<
        Result<Option<usize>, Error<R::Error>>,
    >)
        requires
            old(decoder).wf(),
            !old(self).finished,
        ensures
            final(decoder).wf(),
            final(self).text == old(self).text,
            ({
                let w = walk(
                    old(self).text,
                    old(self).nested as nat,
                    old(decoder).buffered(),
                    old(decoder).reader().input(),
                );
                let pos = old(decoder).position();
                let input = old(decoder).reader().input();
                let skipped = pending(old(decoder).buffered());
                match r {
                    None => {
                        &&& !final(self).finished
                        &&& final(decoder).buffered() is None
                        &&& final(decoder).position() >= pos + skipped
                        &&& final(decoder).position() - pos - skipped <= input.len()
                        &&& final(decoder).reader().input() == input.skip(
                            final(decoder).position() - pos - skipped,
                        )
                        &&& w == shift(
                            scan(old(self).text, final(self).nested as nat, final(decoder).reader().input()),
                            (final(decoder).position() - pos) as nat,
                        )
                        &&& final(decoder).reader().input().len() < input.len() + if old(
                            decoder,
                        ).buffered() is Some {
                            1int
                        } else {
                            0int
                        }
                    },
                    Some(res) => pulled(
                        w,
                        pos,
                        input,
                        skipped,
                        res,
                        final(self).nested as nat,
                        final(self).finished,
                        final(decoder).position(),
                        final(decoder).reader().input(),
                        final(decoder).buffered() is None,
                    ),
                }
            }),
    {
        reveal(scan);
        reveal(walk);
        reveal(pulled);
        let ghost before = *decoder;
        let offset = decoder.offset();
        let header = match decoder.pull() {
            Ok(h) => h,
            Err(e) => return Some(Err(e)),
        };
        proof {
            let inp = before.reader().input();
            assert(inp.skip(0) =~= inp);
        }
        if header == Header::Break && self.nested == 1 {
            Some(Ok(None))
        } else if header == Header::Break && self.nested > 1 {
            self.nested = self.nested - 1;
            None
        } else {
            match self.length_of(header) {
                None => Some(Err(Error::Syntax(offset))),
                Some(None) => {
                    if self.nested == usize::MAX {
                        return Some(Err(Error::Syntax(offset)));
                    }
                    self.nested = self.nested + 1;
                    None
                },
                Some(Some(len)) => {
                    self.finished = self.nested == 0;
                    Some(Ok(Some(len)))
                },
            }
        }
    }

    /// Pulls headers until the next segment, and gives its length; gives
    /// `None` when the item ends.
    ///
    /// The segment's bytes are then read from the decoder.
    pub fn pull<R: Read>(&mut self, decoder: &mut Decoder<R>) -> (r: Result<
        Option<usize>,
        Error<R::Error>,
    >)
        requires
            old(decoder).wf(),
        ensures
            final(decoder).wf(),
            final(self).is_text() == old(self).is_text(),
            old(self).is_finished() ==> r == Ok::<Option<usize>, Error<R::Error>>(None)
                && *final(self) == *old(self) && *final(decoder) == *old(decoder),
            !old(self).is_finished() ==> pulled(
                walk(
                    old(self).is_text(),
                    old(self).depth(),
                    old(decoder).buffered(),
                    old(decoder).reader().input(),
                ),
                old(decoder).position(),
                old(decoder).reader().input(),
                pending(old(decoder).buffered()),
                r,
                final(self).depth(),
                final(self).is_finished(),
                final(decoder).position(),
                final(decoder).reader().input(),
                final(decoder).buffered() is None,
            ),
    {
        if self.finished {
            return Ok(None);
        }
        let ghost text = self.text;
        let ghost buffered0 = decoder.buffered();
        let ghost pos0 = decoder.position();
        let ghost input0 = decoder.reader().input();
        let ghost skipped0 = pending(buffered0);
        let ghost w0 = walk(text, self.nested as nat, buffered0, input0);
        proof {
            reveal(walk);
            assert(input0.skip(0) =~= input0);
        }
        loop
            invariant
                decoder.wf(),
                self.text == text,
                !self.finished,
                decoder.buffered() is Some ==> {
                    &&& decoder.position() == pos0
                    &&& decoder.reader().input() == input0
                    &&& w0 == walk(text, self.nested as nat, decoder.buffered(), input0)
                    &&& decoder.buffered() == buffered0
                },
                decoder.buffered() is None ==> {
                    &&& decoder.position() >= pos0 + skipped0
                    &&& decoder.position() - pos0 - skipped0 <= input0.len()
                    &&& decoder.reader().input() == input0.skip(
                        decoder.position() - pos0 - skipped0,
                    )
                    &&& w0 == shift(
                        scan(text, self.nested as nat, decoder.reader().input()),
                        (decoder.position() - pos0) as nat,
                    )
                },
                w0 == walk(old(self).text, old(self).nested as nat, buffered0, input0),
                !old(self).finished,
                old(self).text == text,
                old(decoder).buffered() == buffered0,
                old(decoder).position() == pos0,
                old(decoder).reader().input() == input0,
                skipped0 == pending(buffered0),
            decreases decoder.reader().input().len() + (if decoder.buffered() is Some {
                1int
            } else {
                0int
            }),
        {
            let ghost before = *decoder;
            let ghost nested_before = self.nested as nat;
            match self.advance(decoder) {
                Some(res) => {
                    proof {
                        reveal(walk);
                        let d = (before.position() - pos0) as nat;
                        let w = walk(text, nested_before, before.buffered(), before.reader().input());
                        lemma_pulled_shift(
                            w,
                            d,
                            pos0,
                            input0,
                            skipped0,
                            before.reader().input(),
                            pending(before.buffered()),
                            res,
                            self.nested as nat,
                            self.finished,
                            decoder.position(),
                            decoder.reader().input(),
                            decoder.buffered() is None,
                        );
                    }
                    return res;
                },
                None => {
                    proof {
                        reveal(walk);
                        let d = (before.position() - pos0) as nat;
                        let inp = before.reader().input();
                        let e = (decoder.position() - before.position() - pending(
                            before.buffered(),
                        )) as int;
                        if before.buffered() is None {
                            assert(inp.skip(e) =~= input0.skip(
                                decoder.position() - pos0 - skipped0,
                            ));
                        } else {
                            assert(inp =~= input0);
                        }
                        lemma_shift_shift(
                            scan(text, self.nested as nat, decoder.reader().input()),
                            (decoder.position() - before.position()) as nat,
                            d,
                        );
                    }
                },
            }
        }
    }
}

/// A result of `pull` for a walk stated from one offset also holds when the
/// walk is stated from an earlier offset.
proof fn lemma_pulled_shift<E>(
    w: Walk,
    d: nat,
    pos0: nat,
    input0: Seq<u8>,
    skipped0: nat,
    input: Seq<u8>,
    skipped: nat,
    r: Result<Option<usize>, Error<E>>,
    depth: nat,
    finished: bool,
    next_pos: nat,
    next_input: Seq<u8>,
    next_unbuffered: bool,
)
    requires
        pulled(
            w,
            pos0 + d,
            input,
            skipped,
            r,
            depth,
            finished,
            next_pos,
            next_input,
            next_unbuffered,
        ),
        (d == 0 && skipped == skipped0 && input == input0) || (skipped == 0 && d >= skipped0 && d
            - skipped0 <= input0.len() && input == input0.skip(d - skipped0)),
    ensures
        pulled(
            shift(w, d),
            pos0,
            input0,
            skipped0,
            r,
            depth,
            finished,
            next_pos,
            next_input,
            next_unbuffered,
        ),
{
    reveal(pulled);
    if skipped == 0 && d >= skipped0 && input == input0.skip(d - skipped0) {
        match w {
            Walk::Segment(_, adv, _) => {
                assert(input.skip(adv as int) =~= input0.skip(adv + d - skipped0));
            },
            Walk::End(adv, _) => {
                assert(input.skip(adv as int) =~= input0.skip(adv + d - skipped0));
            },
            Walk::Malformed(_, adv, _) => {
                assert(input.skip(adv as int) =~= input0.skip(adv + d - skipped0));
            },
            Walk::Truncated(at, _) => {
                assert(input.skip(at as int) =~= input0.skip(at + d - skipped0));
            },
        }
    }
}

} // verus!
