//! The output sink abstraction that all encoding writes through.

use vstd::prelude::*;

use crate::wire::zeros;

verus! {

/// `splice(s, at, d)` is `s` with the bytes at positions
/// `at .. at + d.len()` replaced by `d`.
pub open spec fn splice(s: Seq<u8>, at: int, d: Seq<u8>) -> Seq<u8> {
    s.take(at) + d + s.skip(at + d.len())
}

/// A destination for encoded OSC output.
///
/// The abstract state of a sink is the byte sequence `bytes()` it has
/// accepted so far; every method's contract says what it does to that
/// sequence. A sink that cannot fail says so through `infallible()`,
/// and callers of the encoder then know that encoding succeeds.
///
/// Two implementations are provided: `Vec<u8>`, which stores the bytes,
/// and [`NullOutput`], which only measures them.
pub trait Output: Sized {
    /// The error type which is returned from Output functions.
    type Err;

    /// A placeholder for data that is to be filled in after additional
    /// data is written.
    type Placeholder;

    /// The bytes this sink has accepted so far.
    spec fn bytes(&self) -> Seq<u8>;

    /// The position in `bytes()` that a placeholder stands for.
    spec fn mark_start(mark: &Self::Placeholder) -> int;

    /// The size of the region that a placeholder stands for.
    spec fn mark_len(mark: &Self::Placeholder) -> int;

    /// Whether every operation on this sink is guaranteed to succeed.
    spec fn infallible() -> bool;

    /// Allocates space in the output for data to be retroactively
    /// written later (with `rewrite`). The reserved region is filled
    /// with zero bytes until then.
    fn allocate(&mut self, size: usize) -> (r: Result<Self::Placeholder, Self::Err>)
        ensures
            (match r {
                Ok(mark) => {
                    &&& final(self).bytes() == old(self).bytes() + zeros(size as nat)
                    &&& Self::mark_start(&mark) == old(self).bytes().len()
                    &&& Self::mark_len(&mark) == size
                },
                Err(_) => true,
            }),
            Self::infallible() ==> r is Ok,
    ;

    /// Rewrites data that was previously allocated with `allocate`.
    /// The `Placeholder` is moved in, so any allocated space may only
    /// be written once. The data given must be of the exact size that
    /// was given to `allocate`.
    fn rewrite(&mut self, mark: Self::Placeholder, data: &[u8]) -> (r: Result<(), Self::Err>)
        requires
            Self::mark_len(&mark) == data@.len(),
            0 <= Self::mark_start(&mark),
            Self::mark_start(&mark) + data@.len() <= old(self).bytes().len(),
        ensures
            (match r {
                Ok(()) => final(self).bytes() == splice(
                    old(self).bytes(),
                    Self::mark_start(&mark),
                    data@,
                ),
                Err(_) => true,
            }),
            Self::infallible() ==> r is Ok,
    ;

    /// Writes a block of data to the output, appending all of it; the
    /// size of the data is returned on success. On failure nothing is
    /// promised of the sink's state: a partial write may remain, and
    /// the caller must discard or reset the sink.
    fn write(&mut self, data: &[u8]) -> (r: Result<usize, Self::Err>)
        ensures
            (match r {
                Ok(n) => {
                    &&& final(self).bytes() == old(self).bytes() + data@
                    &&& n == data@.len()
                },
                Err(_) => true,
            }),
            Self::infallible() ==> r is Ok,
    ;

    /// Reserves space in the output to write at least the given number
    /// of bytes. This is only an optimization hint prior to writing
    /// certain data loads; it never changes the bytes accepted so far,
    /// and correct output must not depend on it.
    fn reserve(&mut self, size: usize) -> (r: Result<(), Self::Err>)
        ensures
            final(self).bytes() == old(self).bytes(),
            Self::infallible() ==> r is Ok,
    {
        Ok(())
    }
}

impl Output for Vec<u8> {
    type Err = core::convert::Infallible;

    type Placeholder = (usize, usize);

    open spec fn bytes(&self) -> Seq<u8> {
        self@
    }

    open spec fn mark_start(mark: &(usize, usize)) -> int {
        mark.0 as int
    }

    open spec fn mark_len(mark: &(usize, usize)) -> int {
        mark.1 - mark.0
    }

    open spec fn infallible() -> bool {
        true
    }

    fn allocate(&mut self, size: usize) -> (r: Result<(usize, usize), Self::Err>) {
        let start = self.len();
        let mut i: usize = 0;
        while i < size
            invariant
                i <= size,
                start == old(self)@.len(),
                self@ == old(self)@ + zeros(i as nat),
            decreases size - i,
        {
            self.push(0u8);
            proof {
                assert(self@ =~= old(self)@ + zeros((i + 1) as nat));
            }
            i = i + 1;
        }
        let end = self.len();
        Ok((start, end))
    }

    fn rewrite(&mut self, mark: (usize, usize), data: &[u8]) -> (r: Result<(), Self::Err>) {
        let (start, end) = mark;
        let mut i: usize = 0;
        while i < data.len()
            invariant
                i <= data@.len(),
                end - start == data@.len(),
                start + data@.len() <= self@.len(),
                self@.len() == old(self)@.len(),
                self@ == old(self)@.take(start as int) + data@.take(i as int) + old(
                    self,
                )@.skip(start + i),
            decreases data@.len() - i,
        {
            self[start + i] = data[i];
            proof {
                assert(self@ =~= old(self)@.take(start as int) + data@.take(i + 1) + old(
                    self,
                )@.skip(start + i + 1));
            }
            i = i + 1;
        }
        proof {
            assert(self@ =~= splice(old(self)@, start as int, data@));
        }
        Ok(())
    }

    fn write(&mut self, data: &[u8]) -> (r: Result<usize, Self::Err>) {
        let mut i: usize = 0;
        while i < data.len()
            invariant
                i <= data@.len(),
                self@ == old(self)@ + data@.take(i as int),
            decreases data@.len() - i,
        {
            self.push(data[i]);
            proof {
                assert(self@ =~= old(self)@ + data@.take(i + 1));
            }
            i = i + 1;
        }
        proof {
            assert(self@ =~= old(self)@ + data@);
        }
        Ok(data.len())
    }

    fn reserve(&mut self, size: usize) -> (r: Result<(), Self::Err>) {
        Vec::reserve(self, size);
        Ok(())
    }
}

/// An implementation of [`Output`] that does not store the data
/// anywhere: `write` only reports the length of what it was given, and
/// `allocate`/`rewrite` do nothing.
///
/// Intended for pre-calculating the size of a packet without writing it
/// anywhere. The ghost field carries the bytes the sink would have
/// accepted, so that the measuring sink satisfies the same contracts as
/// a storing one; it takes no space at run time.
#[derive(Clone, Copy)]
pub struct NullOutput {
    /// The bytes this sink would have accepted, carried only in proofs.
    pub accepted: Ghost<Seq<u8>>,
}

impl NullOutput {
    /// A fresh measuring sink that has accepted nothing yet.
    pub fn new() -> (r: NullOutput)
        ensures
            r.bytes() == Seq::<u8>::empty(),
    {
        NullOutput { accepted: Ghost(Seq::empty()) }
    }
}

impl Output for NullOutput {
    type Err = core::convert::Infallible;

    type Placeholder = Ghost<(int, int)>;

    open spec fn bytes(&self) -> Seq<u8> {
        self.accepted@
    }

    open spec fn mark_start(mark: &Ghost<(int, int)>) -> int {
        mark@.0
    }

    open spec fn mark_len(mark: &Ghost<(int, int)>) -> int {
        mark@.1
    }

    open spec fn infallible() -> bool {
        true
    }

    fn allocate(&mut self, size: usize) -> (r: Result<Ghost<(int, int)>, Self::Err>) {
        let mark: Ghost<(int, int)> = Ghost((self.accepted@.len() as int, size as int));
        self.accepted = Ghost(self.accepted@ + zeros(size as nat));
        Ok(mark)
    }

    fn rewrite(&mut self, mark: Ghost<(int, int)>, data: &[u8]) -> (r: Result<(), Self::Err>) {
        self.accepted = Ghost(splice(self.accepted@, mark@.0, data@));
        Ok(())
    }

    fn write(&mut self, data: &[u8]) -> (r: Result<usize, Self::Err>) {
        self.accepted = Ghost(self.accepted@ + data@);
        Ok(data.len())
    }
}

} // verus!
