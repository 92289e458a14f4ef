use vstd::prelude::*;
use crate::copy::ReadOutcome;
use crate::stream::ReadEvent;

verus! {

/// One read that a scripted source will answer with.
#[derive(Debug, PartialEq, Eq)]
pub enum ScriptedRead<E> {
    /// These bytes, in as many reads as the caller's buffer makes of them. No bytes
    /// at all make the source report its end at this point.
    Chunk(Vec<u8>),
    /// An interruption.
    Interrupted,
    /// A failure with this error.
    Failure(E),
}

impl<E> View for ScriptedRead<E> {
    type V = ReadEvent<E>;

    open spec fn view(&self) -> ReadEvent<E> {
        match self {
            ScriptedRead::Chunk(bytes) => ReadEvent::Chunk(bytes@),
            ScriptedRead::Interrupted => ReadEvent::Interrupted,
            ScriptedRead::Failure(e) => ReadEvent::Failure(*e),
        }
    }
}

/// The events that `reads` stand for, in their order.
pub open spec fn events_of<E>(reads: Seq<ScriptedRead<E>>) -> Seq<ReadEvent<E>> {
    Seq::new(reads.len(), |i: int| reads[i]@)
}

/// What is left of `events` once the first `n` bytes of its leading chunk are read:
/// the rest of that chunk, if there is any, and all that follows it.
pub open spec fn after_bytes<E>(events: Seq<ReadEvent<E>>, n: int) -> Seq<ReadEvent<E>>
    recommends
        events.len() > 0,
        events[0] is Chunk,
        0 <= n <= events[0]->Chunk_0.len(),
{
    let bytes = events[0]->Chunk_0;
    if n < bytes.len() {
        events.update(0, ReadEvent::Chunk(bytes.skip(n)))
    } else {
        events.skip(1)
    }
}

/// How a source with `before` yet to come answers a read into a buffer that
/// holds `offered`: with `outcome`, the buffer left as `buffer`, and `after` yet to
/// come.
///
/// Of a chunk it hands out as much as the buffer takes, at the buffer's front, and
/// keeps the rest for the next read. An interruption or a failure is given once
/// and is then past. With nothing left, or no room in the buffer, the read gives
/// no bytes and changes nothing. Whatever the read does not fill stays as it was.
pub open spec fn answers<E>(
    before: Seq<ReadEvent<E>>,
    offered: Seq<u8>,
    outcome: ReadOutcome<E>,
    buffer: Seq<u8>,
    after: Seq<ReadEvent<E>>,
) -> bool {
    if before.len() == 0 || offered.len() == 0 {
        outcome == ReadOutcome::<E>::Filled(0) && buffer == offered && after == before
    } else {
        match before[0] {
            ReadEvent::Chunk(bytes) => {
                let n = if bytes.len() <= offered.len() {
                    bytes.len()
                } else {
                    offered.len()
                };
                &&& outcome == ReadOutcome::<E>::Filled(n as usize)
                &&& buffer == bytes.take(n as int) + offered.skip(n as int)
                &&& after == after_bytes(before, n as int)
            },
            ReadEvent::Interrupted => {
                &&& outcome == ReadOutcome::<E>::Interrupted
                &&& buffer == offered
                &&& after == before.skip(1)
            },
            ReadEvent::Failure(e) => {
                &&& outcome == ReadOutcome::Failed(e)
                &&& buffer == offered
                &&& after == before.skip(1)
            },
        }
    }
}

/// A byte source held in memory that answers its reads as a script says: chunks
/// of bytes, with interruptions and failures where the script puts them.
pub struct ScriptedSource<E> {
    reads: Vec<ScriptedRead<E>>,
    next: usize,
    offset: usize,
}

impl<E> ScriptedSource<E> {
    /// The fields fit together: `next` is the read that comes next, and `offset`
    /// the number of bytes of it that were handed out already.
    #[verifier::type_invariant]
    spec fn wf(&self) -> bool {
        &&& self.next <= self.reads@.len()
        &&& if self.next < self.reads@.len() {
            match self.reads@[self.next as int] {
                ScriptedRead::Chunk(bytes) => self.offset == 0 || self.offset < bytes@.len(),
                _ => self.offset == 0,
            }
        } else {
            self.offset == 0
        }
    }

    /// What the source will yet answer with, if every read takes all that it is
    /// offered. Once this is empty the source is exhausted.
    pub closed spec fn pending(&self) -> Seq<ReadEvent<E>> {
        let rest = events_of(self.reads@.skip(self.next as int));
        if self.offset == 0 {
            rest
        } else {
            rest.update(0, ReadEvent::Chunk(rest[0]->Chunk_0.skip(self.offset as int)))
        }
    }

    /// A source that answers with `reads`, first to last, and is exhausted after them.
    pub fn new(reads: Vec<ScriptedRead<E>>) -> (source: ScriptedSource<E>)
        ensures
            source.pending() == events_of(reads@),
    {
        assert(reads@.skip(0) =~= reads@);
        ScriptedSource { reads, next: 0, offset: 0 }
    }

    /// The number of scripted reads that are not yet wholly past.
    pub fn remaining(&self) -> (n: usize)
        ensures
            n == self.pending().len(),
    {
        proof {
            use_type_invariant(self);
        }
        self.reads.len() - self.next
    }
}

impl<E: Copy> ScriptedSource<E> {
    /// Makes one read into `buffer`, as the script says.
    pub fn fill(&mut self, buffer: &mut [u8]) -> (outcome: ReadOutcome<E>)
        ensures
            answers(
                old(self).pending(),
                old(buffer)@,
                outcome,
                final(buffer)@,
                final(self).pending(),
            ),
    {
        proof {
            use_type_invariant(&*self);
        }
        if self.next >= self.reads.len() || buffer.len() == 0 {
            return ReadOutcome::Filled(0);
        }
        let ghost before = self.pending();
        let ghost rest = events_of(self.reads@.skip(self.next as int));
        assert(self.reads@.skip(self.next as int + 1) =~= self.reads@.skip(self.next as int).skip(1));
        assert(events_of(self.reads@.skip(self.next as int + 1)) =~= rest.skip(1));
        assert(before.skip(1) =~= rest.skip(1));
        match &self.reads[self.next] {
            ScriptedRead::Chunk(bytes) => {
                let left: usize = bytes.len() - self.offset;
                let n: usize = if left <= buffer.len() {
                    left
                } else {
                    buffer.len()
                };
                let start: usize = self.offset;
                assert(rest[0] == ReadEvent::<E>::Chunk(bytes@));
                assert(bytes@.skip(0) =~= bytes@);
                assert(before[0] == ReadEvent::<E>::Chunk(bytes@.skip(start as int)));
                let mut i: usize = 0;
                while i < n
                    invariant
                        i <= n,
                        n <= buffer@.len(),
                        start + n <= bytes@.len() <= usize::MAX,
                        buffer@.len() == old(buffer)@.len(),
                        buffer@ == bytes@.skip(start as int).take(i as int) + old(buffer)@.skip(
                            i as int,
                        ),
                    decreases n - i,
                {
                    buffer[i] = bytes[start + i];
                    i = i + 1;
                    assert(buffer@ =~= bytes@.skip(start as int).take(i as int) + old(buffer)@.skip(
                        i as int,
                    ));
                }
                if n < left {
                    self.offset = start + n;
                    assert(bytes@.skip(start as int).skip(n as int) =~= bytes@.skip(start + n));
                    assert(self.pending() =~= after_bytes(before, n as int));
                } else {
                    self.offset = 0;
                    self.next = self.next + 1;
                    assert(self.pending() =~= after_bytes(before, n as int));
                }
                ReadOutcome::Filled(n)
            },
            ScriptedRead::Interrupted => {
                self.next = self.next + 1;
                ReadOutcome::Interrupted
            },
            ScriptedRead::Failure(e) => {
                let e: E = *e;
                self.next = self.next + 1;
                ReadOutcome::Failed(e)
            },
        }
    }
}

} // verus!
