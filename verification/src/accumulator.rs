use vstd::prelude::*;
use crate::stream::{joined, lemma_joined_push};

verus! {

/// A hash state seen from the input side: something that takes in bytes, in order.
///
/// The hash function itself is not this library's business, and nothing here
/// depends on what an accumulator does with the bytes it is given.
pub trait Accumulator {
    /// Takes in `data`, after everything taken in before.
    fn update(&mut self, data: &[u8]);
}

/// An accumulator together with the record of every call made of it.
///
/// The record is what the contracts of this library speak of: it exists in proofs
/// only and costs nothing at run time. It grows in one way only: by a call of
/// `update`, which hands its bytes to the accumulator.
pub struct Feed<A: Accumulator> {
    accumulator: A,
    made: Ghost<Seq<Seq<u8>>>,
}

impl<A: Accumulator> Feed<A> {
    /// The calls made of the accumulator through this feed, oldest first, each
    /// with the bytes that it handed over.
    pub closed spec fn calls(&self) -> Seq<Seq<u8>> {
        self.made@
    }

    /// Every byte handed to the accumulator through this feed, oldest first.
    pub open spec fn ingested(&self) -> Seq<u8> {
        joined(self.calls())
    }

    /// The accumulator as it stands.
    pub closed spec fn target(&self) -> A {
        self.accumulator
    }

    /// A feed to `accumulator`, with nothing handed over yet.
    pub fn new(accumulator: A) -> (feed: Feed<A>)
        ensures
            feed.calls() == Seq::<Seq<u8>>::empty(),
            feed.ingested() == Seq::<u8>::empty(),
            feed.target() == accumulator,
    {
        Feed { accumulator, made: Ghost(Seq::empty()) }
    }

    /// Hands `data` to the accumulator, in one call and as it is.
    pub fn update(&mut self, data: &[u8])
        ensures
            final(self).calls() == old(self).calls().push(data@),
            final(self).ingested() == old(self).ingested() + data@,
    {
        self.accumulator.update(data);
        proof {
            lemma_joined_push(self.made@, data@);
            self.made@ = self.made@.push(data@);
        }
    }

    /// The accumulator, to look at.
    pub fn accumulator(&self) -> (accumulator: &A)
        ensures
            *accumulator == self.target(),
    {
        &self.accumulator
    }

    /// Gives the accumulator back.
    pub fn into_accumulator(self) -> (accumulator: A)
        ensures
            accumulator == self.target(),
    {
        self.accumulator
    }
}

} // verus!
