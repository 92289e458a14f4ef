use vstd::prelude::*;

verus! {

/// What one attempt to read from a source gave, as a plain value.
pub enum ReadEvent<E> {
    /// The bytes of one successful read; none at all means that the source is exhausted.
    Chunk(Seq<u8>),
    /// The attempt was interrupted before it read anything and may be made again.
    Interrupted,
    /// The attempt failed for good.
    Failure(E),
}

/// Where a copy stands.
pub enum Progress<E> {
    /// The source has neither ended nor failed: the copy waits for the next read.
    Reading,
    /// The source reported its end.
    Finished,
    /// A read failed for good, with this error.
    Failed(E),
}

/// What a copy has done after a run of read attempts.
pub struct Run<E> {
    /// The bytes handed to the accumulator, in the order in which it got them.
    pub ingested: Seq<u8>,
    /// Whether the copy goes on, and if not, how it ended.
    pub progress: Progress<E>,
}

impl<E> Run<E> {
    /// The number of bytes that the copy reports: as many as it handed on.
    pub open spec fn total(self) -> nat {
        self.ingested.len()
    }
}

/// The event by which a source reports its end: a read of no bytes.
pub open spec fn end_of_source<E>() -> ReadEvent<E> {
    ReadEvent::Chunk(Seq::empty())
}

/// What a copy does with `events`, the outcomes of its read attempts in order.
///
/// A nonempty chunk is handed on whole and the copy reads again. An interruption
/// is dropped as if the attempt had not been made. The first empty chunk ends the
/// copy, the first failure aborts it, and whatever comes after either is not looked
/// at. Where the events run out before that, the copy is still reading.
pub open spec fn replay<E>(events: Seq<ReadEvent<E>>) -> Run<E>
    decreases events.len(),
{
    if events.len() == 0 {
        Run { ingested: Seq::empty(), progress: Progress::Reading }
    } else {
        match events[0] {
            ReadEvent::Chunk(bytes) => if bytes.len() == 0 {
                Run { ingested: Seq::empty(), progress: Progress::Finished }
            } else {
                let rest = replay(events.skip(1));
                Run { ingested: bytes + rest.ingested, progress: rest.progress }
            },
            ReadEvent::Interrupted => replay(events.skip(1)),
            ReadEvent::Failure(e) => Run { ingested: Seq::empty(), progress: Progress::Failed(e) },
        }
    }
}

/// What a copy leaves of `events` for whoever reads next: all that comes after
/// the first empty chunk or failure, and nothing where there is neither.
pub open spec fn unread<E>(events: Seq<ReadEvent<E>>) -> Seq<ReadEvent<E>>
    decreases events.len(),
{
    if events.len() == 0 {
        events
    } else {
        match events[0] {
            ReadEvent::Chunk(bytes) => if bytes.len() == 0 {
                events.skip(1)
            } else {
                unread(events.skip(1))
            },
            ReadEvent::Interrupted => unread(events.skip(1)),
            ReadEvent::Failure(_) => events.skip(1),
        }
    }
}

/// The reads that a copy gets from a source that answers with `events` and is
/// exhausted after them: those, and then the end.
pub open spec fn until_end<E>(events: Seq<ReadEvent<E>>) -> Seq<ReadEvent<E>> {
    events.push(end_of_source())
}

/// One successful read for each of `chunks`, in their order.
pub open spec fn reads_of_chunks<E>(chunks: Seq<Seq<u8>>) -> Seq<ReadEvent<E>> {
    Seq::new(chunks.len(), |i: int| ReadEvent::Chunk(chunks[i]))
}

/// The lengths of `chunks` added up.
pub open spec fn total_len(chunks: Seq<Seq<u8>>) -> nat
    decreases chunks.len(),
{
    if chunks.len() == 0 {
        0
    } else {
        chunks[0].len() + total_len(chunks.skip(1))
    }
}

/// The chunks of `chunks` laid end to end.
pub open spec fn joined(chunks: Seq<Seq<u8>>) -> Seq<u8>
    decreases chunks.len(),
{
    if chunks.len() == 0 {
        Seq::empty()
    } else {
        chunks[0] + joined(chunks.skip(1))
    }
}

/// `bytes` cut into runs of `cap` bytes, with what is left over as the last run.
/// Bytes that fit into one run stay whole.
pub open spec fn cut(bytes: Seq<u8>, cap: nat) -> Seq<Seq<u8>>
    decreases bytes.len(),
{
    if cap == 0 || bytes.len() <= cap {
        seq![bytes]
    } else {
        seq![bytes.take(cap as int)] + cut(bytes.skip(cap as int), cap)
    }
}

/// The calls by which a copy hands `events` to the accumulator when it reads
/// through a buffer of `cap` bytes, each call with the bytes that it hands over.
///
/// A nonempty chunk takes one call for each run that the buffer cuts it into. An
/// interruption takes none. Nothing is handed on from the first empty chunk or
/// failure onwards.
pub open spec fn handed_on<E>(events: Seq<ReadEvent<E>>, cap: nat) -> Seq<Seq<u8>>
    decreases events.len(),
{
    if events.len() == 0 {
        Seq::empty()
    } else {
        match events[0] {
            ReadEvent::Chunk(bytes) => if bytes.len() == 0 {
                Seq::empty()
            } else {
                cut(bytes, cap) + handed_on(events.skip(1), cap)
            },
            ReadEvent::Interrupted => handed_on(events.skip(1), cap),
            ReadEvent::Failure(_) => Seq::empty(),
        }
    }
}

/// Chunks laid end to end are as long as their lengths added up.
pub proof fn lemma_joined_len(chunks: Seq<Seq<u8>>)
    ensures
        joined(chunks).len() == total_len(chunks),
    decreases chunks.len(),
{
    if chunks.len() > 0 {
        lemma_joined_len(chunks.skip(1));
    }
}

/// One chunk laid end to end is that chunk.
pub proof fn lemma_joined_one(bytes: Seq<u8>)
    ensures
        joined(seq![bytes]) == bytes,
{
    let one = seq![bytes];
    assert(one.skip(1) =~= Seq::<Seq<u8>>::empty());
    assert(joined(one.skip(1)) =~= Seq::<u8>::empty());
    assert(joined(one) == one[0] + joined(one.skip(1)));
    assert(joined(one) =~= bytes);
}

/// Laying chunks end to end goes chunk by chunk: one more chunk adds its bytes at
/// the end.
pub proof fn lemma_joined_push(chunks: Seq<Seq<u8>>, last: Seq<u8>)
    ensures
        joined(chunks.push(last)) == joined(chunks) + last,
    decreases chunks.len(),
{
    let all = chunks.push(last);
    if chunks.len() == 0 {
        lemma_joined_one(last);
        assert(all =~= seq![last]);
        assert(joined(chunks) + last =~= last);
    } else {
        assert(all.skip(1) =~= chunks.skip(1).push(last));
        lemma_joined_push(chunks.skip(1), last);
        assert(joined(all) =~= joined(chunks) + last);
    }
}

/// Two runs of chunks laid end to end are the first run's bytes and then the
/// second's.
pub proof fn lemma_joined_add(front: Seq<Seq<u8>>, back: Seq<Seq<u8>>)
    ensures
        joined(front + back) == joined(front) + joined(back),
    decreases back.len(),
{
    if back.len() == 0 {
        assert(front + back =~= front);
        assert(joined(front) + joined(back) =~= joined(front));
    } else {
        let last = back.last();
        let most = back.drop_last();
        assert(back =~= most.push(last));
        assert(front + back =~= (front + most).push(last));
        lemma_joined_add(front, most);
        lemma_joined_push(front + most, last);
        lemma_joined_push(most, last);
        assert(joined(front + back) =~= joined(front) + joined(back));
    }
}

/// Cutting loses nothing: the runs laid end to end are the bytes that were cut.
pub proof fn lemma_cut_keeps_bytes(bytes: Seq<u8>, cap: nat)
    ensures
        joined(cut(bytes, cap)) == bytes,
    decreases bytes.len(),
{
    if cap == 0 || bytes.len() <= cap {
        lemma_joined_one(bytes);
    } else {
        let first = bytes.take(cap as int);
        let rest = bytes.skip(cap as int);
        lemma_cut_keeps_bytes(rest, cap);
        lemma_joined_add(seq![first], cut(rest, cap));
        lemma_joined_one(first);
        assert(first + rest =~= bytes);
    }
}

/// Every run that a buffer of `cap` bytes cuts has bytes in it and fits the
/// buffer, and all but the last fill it.
pub proof fn lemma_cut_fits(bytes: Seq<u8>, cap: nat)
    requires
        cap > 0,
        bytes.len() > 0,
    ensures
        cut(bytes, cap).len() > 0,
        forall|i: int|
            0 <= i < cut(bytes, cap).len() ==> 0 < (#[trigger] cut(bytes, cap)[i]).len() <= cap,
        forall|i: int|
            0 <= i < cut(bytes, cap).len() - 1 ==> (#[trigger] cut(bytes, cap)[i]).len() == cap,
    decreases bytes.len(),
{
    if bytes.len() > cap {
        lemma_cut_fits(bytes.skip(cap as int), cap);
    }
}

/// The calls that a copy makes hand over the bytes that it ingests, neither more
/// nor fewer nor in another order, whatever the length of its buffer.
pub proof fn lemma_calls_carry_the_bytes<E>(events: Seq<ReadEvent<E>>, cap: nat)
    ensures
        joined(handed_on(events, cap)) == replay(events).ingested,
    decreases events.len(),
{
    if events.len() > 0 {
        match events[0] {
            ReadEvent::Chunk(bytes) => {
                if bytes.len() > 0 {
                    lemma_calls_carry_the_bytes(events.skip(1), cap);
                    lemma_cut_keeps_bytes(bytes, cap);
                    lemma_joined_add(cut(bytes, cap), handed_on(events.skip(1), cap));
                }
            },
            ReadEvent::Interrupted => {
                lemma_calls_carry_the_bytes(events.skip(1), cap);
            },
            ReadEvent::Failure(_) => {},
        }
    }
}

/// A source that yields nonempty chunks and then its end is copied whole: the copy
/// finishes, the accumulator gets exactly those chunks in their order, and the
/// total is the sum of their lengths.
pub proof fn lemma_chunks_are_copied_in_order<E>(chunks: Seq<Seq<u8>>)
    requires
        forall|i: int| 0 <= i < chunks.len() ==> (#[trigger] chunks[i]).len() > 0,
    ensures
        replay(until_end(reads_of_chunks::<E>(chunks))).progress == Progress::<E>::Finished,
        replay(until_end(reads_of_chunks::<E>(chunks))).ingested == joined(chunks),
        replay(until_end(reads_of_chunks::<E>(chunks))).total() == total_len(chunks),
    decreases chunks.len(),
{
    let events = until_end(reads_of_chunks::<E>(chunks));
    if chunks.len() == 0 {
        assert(events[0] == end_of_source::<E>());
    } else {
        let rest = chunks.skip(1);
        assert(events.skip(1) =~= until_end(reads_of_chunks::<E>(rest)));
        assert(events[0] == ReadEvent::<E>::Chunk(chunks[0]));
        lemma_chunks_are_copied_in_order::<E>(rest);
    }
    lemma_joined_len(chunks);
}

/// An interruption put anywhere among the reads of a source changes neither the
/// bytes that the accumulator gets, nor the total, nor how the copy ends.
pub proof fn lemma_interruption_changes_nothing<E>(events: Seq<ReadEvent<E>>, at: int)
    requires
        0 <= at <= events.len(),
    ensures
        replay(events.insert(at, ReadEvent::Interrupted)) == replay(events),
    decreases at,
{
    let stalled = events.insert(at, ReadEvent::Interrupted);
    if at == 0 {
        assert(stalled.skip(1) =~= events);
    } else {
        assert(stalled[0] == events[0]);
        assert(stalled.skip(1) =~= events.skip(1).insert(at - 1, ReadEvent::Interrupted));
        lemma_interruption_changes_nothing(events.skip(1), at - 1);
    }
}

/// A copy that has met nothing but interruptions has handed on no byte and has not
/// ended: however long the source goes on like that, no result comes of it.
pub proof fn lemma_interruptions_alone_never_finish<E>(events: Seq<ReadEvent<E>>)
    requires
        forall|i: int| 0 <= i < events.len() ==> #[trigger] events[i] == ReadEvent::<E>::Interrupted,
    ensures
        replay(events).ingested == Seq::<u8>::empty(),
        replay(events).progress == Progress::<E>::Reading,
    decreases events.len(),
{
    if events.len() > 0 {
        assert(events[0] == ReadEvent::<E>::Interrupted);
        lemma_interruptions_alone_never_finish(events.skip(1));
    }
}

} // verus!
