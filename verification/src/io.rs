//! The byte source and byte sink that the decoder and encoder work on.
use vstd::prelude::*;

verus! {

/// A source of bytes.
///
/// `input` is the sequence of bytes the reader will still deliver: a read
/// succeeds exactly when that many bytes are left, and then hands them out
/// in order.
pub trait Read: Sized {
    /// The error a failed read reports.
    type Error;

    /// The bytes this reader will still deliver.
    spec fn input(&self) -> Seq<u8>;

    /// Whether the reader may be read from in its present state.
    spec fn readable(&self) -> bool;

    /// Fills `data` with the next `data.len()` bytes.
    fn read_exact(&mut self, data: &mut [u8]) -> (r: Result<(), Self::Error>)
        requires
            old(self).readable(),
        ensures
            final(self).readable(),
            final(data)@.len() == old(data)@.len(),
            final(self).input().len() <= old(self).input().len(),
            r is Ok <==> old(data)@.len() <= old(self).input().len(),
            r is Ok ==> final(data)@ == old(self).input().take(old(data)@.len() as int),
            r is Ok ==> final(self).input() == old(self).input().skip(old(data)@.len() as int),
    ;
}

/// A sink for bytes.
///
/// `written` is everything the writer has accepted so far; `delivered` is
/// the part of it that has reached the destination (a buffering writer may
/// hold the rest back until it is flushed).
pub trait Write: Sized {
    /// The error a failed write reports.
    type Error;

    /// The bytes written so far.
    spec fn written(&self) -> Seq<u8>;

    /// The bytes that have reached the destination.
    spec fn delivered(&self) -> Seq<u8>;

    /// Whether every write to this kind of writer succeeds.
    spec fn infallible() -> bool;

    /// Writes all of `data`; a failed write may have accepted part of it,
    /// from the front.
    fn write_all(&mut self, data: &[u8]) -> (r: Result<(), Self::Error>)
        ensures
            r is Ok ==> final(self).written() == old(self).written() + data@,
            r is Err ==> old(self).written().is_prefix_of(final(self).written()),
            r is Err ==> final(self).written().is_prefix_of(old(self).written() + data@),
            Self::infallible() ==> r is Ok,
    ;

    /// Flushes buffered output: it accepts no bytes of its own, and once it
    /// succeeds, everything written has been delivered.
    fn flush(&mut self) -> (r: Result<(), Self::Error>)
        ensures
            final(self).written() == old(self).written(),
            r is Ok ==> final(self).delivered() == final(self).written(),
            Self::infallible() ==> r is Ok,
    ;
}

/// Successful writes accumulate: across any run of writes that each
/// succeed, what a writer holds at the end is what it held at the start
/// followed by the data of the writes, in order.
pub proof fn lemma_writes_accumulate<W: Write>(writers: Seq<W>, data: Seq<Seq<u8>>)
    requires
        writers.len() == data.len() + 1,
        forall|i: int|
            0 <= i < data.len() ==> (#[trigger] writers[i + 1]).written() == writers[i].written()
                + data[i],
    ensures
        writers.last().written() == writers[0].written() + data.flatten(),
    decreases data.len(),
{
    if data.len() > 0 {
        let front_w = writers.drop_last();
        let front_d = data.drop_last();
        assert forall|i: int| 0 <= i < front_d.len() implies (#[trigger] front_w[i + 1]).written()
            == front_w[i].written() + front_d[i] by {
            assert(front_w[i + 1] == writers[i + 1] && front_w[i] == writers[i]);
            assert(front_d[i] == data[i]);
        }
        lemma_writes_accumulate(front_w, front_d);
        let k = data.len() - 1;
        assert(writers[k + 1].written() == writers[k].written() + data[k]);
        data.lemma_flatten_and_flatten_alt_are_equivalent();
        front_d.lemma_flatten_and_flatten_alt_are_equivalent();
        assert(data.flatten_alt() == front_d.flatten_alt() + data.last());
        assert(writers.last().written() =~= writers[0].written() + data.flatten());
    } else {
        assert(data.flatten() =~= Seq::<u8>::empty());
        assert(writers.last().written() =~= writers[0].written() + data.flatten());
    }
}

impl Write for Vec<u8> {
    type Error = core::convert::Infallible;

    open spec fn written(&self) -> Seq<u8> {
        self@
    }

    open spec fn delivered(&self) -> Seq<u8> {
        self@
    }

    open spec fn infallible() -> bool {
        true
    }

    fn write_all(&mut self, data: &[u8]) -> (r: Result<(), Self::Error>) {
        self.extend_from_slice(data);
        assert(self@ =~= old(self)@ + data@);
        Ok(())
    }

    fn flush(&mut self) -> (r: Result<(), Self::Error>) {
        Ok(())
    }
}

} // verus!
