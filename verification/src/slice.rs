//! Slice-backed reader.
use crate::io::Read;
use vstd::prelude::*;

verus! {

/// Error returned when attempting to read past the end of a slice.
#[derive(Clone, Copy, Debug)]
pub struct EndOfSliceError(());

/// A reader over a borrowed byte slice.
pub struct SliceReader<'de> {
    remaining: &'de [u8],
}

impl<'de> SliceReader<'de> {
    /// The bytes not yet consumed.
    pub closed spec fn unread(&self) -> Seq<u8> {
        self.remaining@
    }

    /// The unread bytes of a slice always fit a `usize` count.
    pub proof fn lemma_unread_fits(&self)
        ensures
            self.unread().len() <= usize::MAX,
    {
        broadcast use vstd::slice::axiom_spec_len;

        assert(vstd::slice::spec_slice_len(self.remaining) == self.remaining@.len());
    }

    /// Creates a new `SliceReader` from a byte slice.
    pub fn new(slice: &'de [u8]) -> (r: Self)
        ensures
            r.unread() == slice@,
    {
        Self { remaining: slice }
    }

    /// Takes the next `len` bytes without copying them.
    pub fn take(&mut self, len: usize) -> (r: Option<&'de [u8]>)
        ensures
            r is Some <==> len <= old(self).unread().len(),
            r matches Some(p) ==> p@ == old(self).unread().take(len as int)
                && final(self).unread() == old(self).unread().skip(len as int),
            r matches Some(p) ==> old(self).unread() == p@ + final(self).unread(),
            r is None ==> *final(self) == *old(self),
    {
        if len > self.remaining.len() {
            return None;
        }
        let (prefix, suffix) = self.remaining.split_at(len);
        self.remaining = suffix;
        Some(prefix)
    }

    /// Returns the number of unread bytes left in the slice.
    pub fn remaining_len(&self) -> (r: usize)
        ensures
            r == self.unread().len(),
    {
        self.remaining.len()
    }
}

/// The pieces a slice reader hands out come in order: across any run of
/// calls in which each call hands out a piece from the front (a failed call
/// hands out the empty piece and keeps the reader), the unread bytes at the
/// start are the pieces, joined in order, followed by the unread bytes at
/// the end; so the bytes left are the bytes at the start less those handed out.
pub proof fn lemma_pieces_in_order(readers: Seq<SliceReader>, pieces: Seq<Seq<u8>>)
    requires
        readers.len() == pieces.len() + 1,
        forall|i: int|
            0 <= i < pieces.len() ==> (#[trigger] readers[i]).unread() == pieces[i] + readers[i
                + 1].unread(),
    ensures
        readers[0].unread() == pieces.flatten() + readers.last().unread(),
        readers.last().unread().len() == readers[0].unread().len() - pieces.flatten().len(),
    decreases pieces.len(),
{
    if pieces.len() > 0 {
        let rest_r = readers.drop_first();
        let rest_p = pieces.drop_first();
        assert forall|i: int| 0 <= i < rest_p.len() implies (#[trigger] rest_r[i]).unread()
            == rest_p[i] + rest_r[i + 1].unread() by {
            assert(rest_r[i] == readers[i + 1] && rest_p[i] == pieces[i + 1]);
        }
        lemma_pieces_in_order(rest_r, rest_p);
        assert(readers[0].unread() == pieces[0] + readers[1].unread());
        assert(pieces.flatten() == pieces[0] + rest_p.flatten());
        assert(readers[0].unread() =~= pieces.flatten() + readers.last().unread());
    } else {
        assert(pieces.flatten() =~= Seq::<u8>::empty());
        assert(readers[0].unread() =~= pieces.flatten() + readers.last().unread());
    }
}

impl<'de> Read for SliceReader<'de> {
    type Error = EndOfSliceError;

    open spec fn input(&self) -> Seq<u8> {
        self.unread()
    }

    open spec fn readable(&self) -> bool {
        true
    }

    fn read_exact(&mut self, data: &mut [u8]) -> (r: Result<(), EndOfSliceError>)
        ensures
            r is Err ==> final(self).unread() == old(self).unread(),
            r is Err ==> final(data)@ == old(data)@,
            r is Ok ==> old(self).unread() == final(data)@ + final(self).unread(),
    {
        match self.take(data.len()) {
            Some(source) => {
                let n = data.len();
                let mut i: usize = 0;
                while i < n
                    invariant
                        n == data@.len(),
                        source@.len() == n,
                        i <= n,
                        forall|j: int| 0 <= j < i ==> data@[j] == source@[j],
                    decreases n - i,
                {
                    data[i] = source[i];
                    i = i + 1;
                }
                assert(data@ == source@);
                Ok(())
            },
            None => Err(EndOfSliceError(())),
        }
    }
}

} // verus!
