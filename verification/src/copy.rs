use vstd::prelude::*;
use vstd::slice::slice_subrange;
use crate::accumulator::{Accumulator, Feed};
use crate::source::{after_bytes, answers, ScriptedSource};
use crate::stream::{
    cut, end_of_source, handed_on, replay, unread, until_end, Progress, ReadEvent,
};

verus! {

/// The length of the buffer through which a copy moves its bytes: 64 KiB.
pub const BUFFER_LEN: usize = 65536;

/// What one attempt to fill a buffer from a source gave.
#[derive(Debug, PartialEq, Eq)]
pub enum ReadOutcome<E> {
    /// That many bytes were read and stand at the front of the buffer. None means
    /// that the source is exhausted.
    Filled(usize),
    /// The attempt was interrupted before it read anything.
    Interrupted,
    /// The attempt failed for good, with this error.
    Failed(E),
}

impl<E> ReadOutcome<E> {
    /// The outcome as an event, given the buffer that the attempt wrote to.
    pub open spec fn event(self, buffer: Seq<u8>) -> ReadEvent<E> {
        match self {
            ReadOutcome::Filled(n) => ReadEvent::Chunk(buffer.take(n as int)),
            ReadOutcome::Interrupted => ReadEvent::Interrupted,
            ReadOutcome::Failed(e) => ReadEvent::Failure(e),
        }
    }
}

/// What a copy does after one read attempt.
#[derive(Debug, PartialEq, Eq)]
pub enum CopyStep<E> {
    /// Read again; the running total stands at this many bytes.
    Again(u64),
    /// The source is exhausted: the copy is done and has moved this many bytes.
    Finished(u64),
    /// The copy is given up with this error.
    Failed(E),
}

/// What `copy_step` returns for a read that gave `event`, with `total` bytes copied before it.
pub open spec fn step_after<E>(total: u64, event: ReadEvent<E>) -> CopyStep<E> {
    match event {
        ReadEvent::Chunk(bytes) => if bytes.len() == 0 {
            CopyStep::Finished(total)
        } else {
            CopyStep::Again((total + bytes.len()) as u64)
        },
        ReadEvent::Interrupted => CopyStep::Again(total),
        ReadEvent::Failure(e) => CopyStep::Failed(e),
    }
}

/// What the accumulator takes in for a read that gave `event`: the bytes of a
/// chunk, and nothing for an interruption or a failure.
pub open spec fn bytes_of<E>(event: ReadEvent<E>) -> Seq<u8> {
    match event {
        ReadEvent::Chunk(bytes) => bytes,
        _ => Seq::empty(),
    }
}

/// The calls made of the accumulator once a read that gave `event` is taken in, if
/// `calls` were made before: one more, with the chunk's bytes, for a chunk that has
/// any, and no other.
pub open spec fn calls_after<E>(calls: Seq<Seq<u8>>, event: ReadEvent<E>) -> Seq<Seq<u8>> {
    match event {
        ReadEvent::Chunk(bytes) => if bytes.len() == 0 {
            calls
        } else {
            calls.push(bytes)
        },
        _ => calls,
    }
}

/// Takes one read attempt into a running copy.
///
/// `outcome` is what the attempt gave, `buffer` the buffer it wrote to and `total`
/// the number of bytes copied before it. A read of `n > 0` bytes hands exactly
/// the first `n` bytes of the buffer to `hasher` and adds `n` to the total. A read
/// of no bytes ends the copy with the total as it stands. An interruption changes
/// nothing, so that the caller makes the same read again. Any other failure ends
/// the copy with the error as it came. Only a nonempty read touches `hasher`, and
/// it does so in one call.
pub fn copy_step<E, A: Accumulator>(
    total: u64,
    outcome: ReadOutcome<E>,
    buffer: &[u8],
    hasher: &mut Feed<A>,
) -> (step: CopyStep<E>)
    requires
        outcome matches ReadOutcome::Filled(n) ==> n <= buffer@.len() && total + n <= u64::MAX,
    ensures
        step == step_after(total, outcome.event(buffer@)),
        final(hasher).calls() == calls_after(old(hasher).calls(), outcome.event(buffer@)),
        final(hasher).ingested() == old(hasher).ingested() + bytes_of(outcome.event(buffer@)),
{
    match outcome {
        ReadOutcome::Filled(n) => {
            if n == 0 {
                assert(old(hasher).ingested() + buffer@.take(0) =~= old(hasher).ingested());
                CopyStep::Finished(total)
            } else {
                hasher.update(slice_subrange(buffer, 0, n));
                assert(buffer@.subrange(0, n as int) == buffer@.take(n as int));
                CopyStep::Again(total + n as u64)
            }
        },
        ReadOutcome::Interrupted => {
            assert(old(hasher).ingested() + Seq::<u8>::empty() =~= old(hasher).ingested());
            CopyStep::Again(total)
        },
        ReadOutcome::Failed(e) => {
            assert(old(hasher).ingested() + Seq::<u8>::empty() =~= old(hasher).ingested());
            CopyStep::Failed(e)
        },
    }
}

/// The length of the chunk that `events` starts with; 0 where it starts otherwise.
pub open spec fn front_len<E>(events: Seq<ReadEvent<E>>) -> nat {
    if events.len() > 0 && events[0] is Chunk {
        events[0]->Chunk_0.len()
    } else {
        0
    }
}

/// The first read of a chunk takes as much of it as the buffer holds and hands
/// that on in one call; the calls for the rest of the chunk and for what follows
/// it come after.
proof fn lemma_first_call<E>(events: Seq<ReadEvent<E>>, cap: nat)
    requires
        events.len() > 0,
        events[0] is Chunk,
        events[0]->Chunk_0.len() > 0,
        cap > 0,
    ensures
        ({
            let bytes = events[0]->Chunk_0;
            let n = if bytes.len() <= cap {
                bytes.len() as int
            } else {
                cap as int
            };
            handed_on(events, cap) == seq![bytes.take(n)] + handed_on(after_bytes(events, n), cap)
        }),
{
    let bytes = events[0]->Chunk_0;
    let later = handed_on(events.skip(1), cap);
    if bytes.len() <= cap {
        assert(bytes.take(bytes.len() as int) =~= bytes);
    } else {
        let rest = bytes.skip(cap as int);
        let cut_short = after_bytes(events, cap as int);
        assert(cut_short[0] == ReadEvent::<E>::Chunk(rest));
        assert(cut_short.skip(1) =~= events.skip(1));
        assert(seq![bytes.take(cap as int)] + cut(rest, cap) + later =~= seq![
            bytes.take(cap as int),
        ] + (cut(rest, cap) + later));
    }
}

/// A chunk that is read in two parts is copied as if it had been read in one.
proof fn lemma_split_chunk<E>(events: Seq<ReadEvent<E>>, n: int)
    requires
        events.len() > 0,
        events[0] is Chunk,
        0 < n <= events[0]->Chunk_0.len(),
    ensures
        replay(until_end(events)).ingested == events[0]->Chunk_0.take(n) + replay(
            until_end(after_bytes(events, n)),
        ).ingested,
        replay(until_end(events)).progress == replay(until_end(after_bytes(events, n))).progress,
        unread(events) == unread(after_bytes(events, n)),
{
    let bytes = events[0]->Chunk_0;
    let all = until_end(events);
    let tail = until_end(events.skip(1));
    assert(all[0] == events[0]);
    assert(all.skip(1) =~= tail);
    if n < bytes.len() {
        let cut = until_end(after_bytes(events, n));
        assert(cut[0] == ReadEvent::<E>::Chunk(bytes.skip(n)));
        assert(cut.skip(1) =~= tail);
        assert(after_bytes(events, n).skip(1) =~= events.skip(1));
        assert(bytes.take(n) + (bytes.skip(n) + replay(tail).ingested) =~= bytes + replay(
            tail,
        ).ingested);
    } else {
        assert(bytes.take(n) =~= bytes);
    }
}

/// Copies all that `reader` yields into `hasher` and returns the number of bytes copied.
///
/// The bytes pass through one buffer of `BUFFER_LEN` bytes. Each read that gives
/// bytes hands exactly those bytes on, in the order in which they were read, and
/// counts them once. An interrupted read is made again and leaves no trace. The
/// copy ends when the source reports its end, or with the error of the first read
/// that fails for good; what was handed on before that stays with `hasher`. A
/// chunk that the buffer holds reaches `hasher` in one call, a longer one in runs
/// of `BUFFER_LEN` bytes and a last run of what is left.
pub fn copy_wide<E: Copy, A: Accumulator>(
    reader: &mut ScriptedSource<E>,
    hasher: &mut Feed<A>,
) -> (result: Result<u64, E>)
    requires
        replay(until_end(old(reader).pending())).total() <= u64::MAX,
    ensures
        final(hasher).calls() == old(hasher).calls() + handed_on(
            old(reader).pending(),
            BUFFER_LEN as nat,
        ),
        final(hasher).ingested() == old(hasher).ingested() + replay(
            until_end(old(reader).pending()),
        ).ingested,
        match replay(until_end(old(reader).pending())).progress {
            Progress::Finished => result == Ok::<u64, E>(
                replay(until_end(old(reader).pending())).total() as u64,
            ),
            Progress::Failed(e) => result == Err::<u64, E>(e),
            Progress::Reading => false,
        },
        final(reader).pending() == unread(old(reader).pending()),
{
    let mut buffer: Vec<u8> = vec![0u8; BUFFER_LEN];
    let mut total: u64 = 0;
    let ghost whole = replay(until_end(old(reader).pending()));
    let ghost all_calls = handed_on(old(reader).pending(), BUFFER_LEN as nat);
    let ghost mut copied: Seq<u8> = Seq::empty();
    let ghost mut made: Seq<Seq<u8>> = Seq::empty();
    proof {
        assert(old(hasher).ingested() + copied =~= old(hasher).ingested());
        assert(copied + whole.ingested =~= whole.ingested);
        assert(old(hasher).calls() + made =~= old(hasher).calls());
        assert(made + all_calls =~= all_calls);
    }
    loop
        invariant
            buffer@.len() == BUFFER_LEN,
            whole == replay(until_end(old(reader).pending())),
            whole.total() <= u64::MAX,
            hasher.ingested() == old(hasher).ingested() + copied,
            total == copied.len(),
            whole.ingested == copied + replay(until_end(reader.pending())).ingested,
            whole.progress == replay(until_end(reader.pending())).progress,
            unread(old(reader).pending()) == unread(reader.pending()),
            all_calls == handed_on(old(reader).pending(), BUFFER_LEN as nat),
            hasher.calls() == old(hasher).calls() + made,
            all_calls == made + handed_on(reader.pending(), BUFFER_LEN as nat),
        decreases reader.pending().len(), front_len(reader.pending()),
    {
        let ghost before = reader.pending();
        let outcome = reader.fill(buffer.as_mut_slice());
        proof {
            let reads = until_end(before);
            if before.len() == 0 {
                assert(reads[0] == end_of_source::<E>());
            } else {
                assert(reads[0] == before[0]);
                assert(reads.skip(1) =~= until_end(before.skip(1)));
                if let ReadEvent::Chunk(bytes) = before[0] {
                    if bytes.len() > 0 {
                        let n = if bytes.len() <= BUFFER_LEN {
                            bytes.len() as int
                        } else {
                            BUFFER_LEN as int
                        };
                        lemma_split_chunk(before, n);
                        lemma_first_call(before, BUFFER_LEN as nat);
                    }
                }
            }
        }
        match copy_step(total, outcome, buffer.as_slice(), hasher) {
            CopyStep::Again(so_far) => {
                proof {
                    let bytes = bytes_of(outcome.event(buffer@));
                    assert(old(hasher).ingested() + (copied + bytes) =~= old(hasher).ingested()
                        + copied + bytes);
                    assert(copied + (bytes + replay(until_end(reader.pending())).ingested)
                        =~= copied + bytes + replay(until_end(reader.pending())).ingested);
                    copied = copied + bytes;
                    let event = outcome.event(buffer@);
                    let later = handed_on(reader.pending(), BUFFER_LEN as nat);
                    assert(before.len() > 0);
                    match before[0] {
                        ReadEvent::Chunk(chunk) => {
                            assert(bytes =~= chunk.take(bytes.len() as int));
                            assert(handed_on(before, BUFFER_LEN as nat) == seq![bytes] + later);
                        },
                        _ => {
                            assert(handed_on(before, BUFFER_LEN as nat) == later);
                        },
                    }
                    assert(calls_after(old(hasher).calls() + made, event) =~= old(hasher).calls()
                        + calls_after(made, event));
                    assert(made + (seq![bytes] + later) =~= made.push(bytes) + later);
                    made = calls_after(made, event);
                }
                total = so_far;
            },
            CopyStep::Finished(all) => {
                proof {
                    assert(copied + Seq::<u8>::empty() =~= copied);
                    assert(made + Seq::<Seq<u8>>::empty() =~= made);
                }
                return Ok(all);
            },
            CopyStep::Failed(e) => {
                proof {
                    assert(copied + Seq::<u8>::empty() =~= copied);
                    assert(made + Seq::<Seq<u8>>::empty() =~= made);
                }
                return Err(e);
            },
        }
    }
}

} // verus!
