use vstd::prelude::*;

verus! {

/// An open file, as far as the decision to map it needs one.
///
/// Nothing is taken for granted of an implementation: whatever its methods
/// return, the code that calls them through a `Handle` does what its contract says.
pub trait MappableFile {
    /// A mapping of the file's bytes for reading. This library never looks into
    /// one; it only hands it on.
    type Region;

    /// What a failed seek reports.
    type Error;

    /// Puts the cursor at the end of the file and returns its position there,
    /// which is the file's size.
    fn seek_to_end(&mut self) -> Result<u64, Self::Error>;

    /// Maps the first `len` bytes of the file for reading only, or returns nothing
    /// where that cannot be done. The cursor stays where it is.
    fn map_bytes(&self, len: usize) -> Option<Self::Region>;

    /// Puts the cursor back at the start of the file.
    fn rewind(&mut self) -> Result<(), Self::Error>;
}

/// Something that is done with a file.
#[derive(Debug, PartialEq, Eq)]
pub enum Request {
    /// A seek to the end, to learn the file's size.
    SeekToEnd,
    /// Mapping that many bytes from the start of the file.
    MapBytes(usize),
    /// A seek back to the start.
    Rewind,
}

/// What came of a request.
pub enum Answer<R, E> {
    /// The seek to the end gave this size, or failed.
    Size(Option<u64>),
    /// The attempt to map gave this region, or failed.
    Mapped(Option<R>),
    /// The seek back to the start succeeded, or failed with this error.
    Rewound(Result<(), E>),
}

/// One request made of a file, with what the file answered.
pub struct Exchange<R, E> {
    pub request: Request,
    pub answer: Answer<R, E>,
}

/// A file together with the record of everything that was done with it through
/// this handle. The record exists in proofs only.
///
/// The record grows in one way only: by a request that one of the three methods
/// below really made of the file, with the answer that the file gave.
pub struct Handle<F: MappableFile> {
    file: F,
    record: Ghost<Seq<Exchange<F::Region, F::Error>>>,
}

impl<F: MappableFile> Handle<F> {
    /// Every request made through this handle with its answer, oldest first.
    pub closed spec fn exchanges(&self) -> Seq<Exchange<F::Region, F::Error>> {
        self.record@
    }

    /// The file as it stands.
    pub closed spec fn target(&self) -> F {
        self.file
    }

    /// A handle on `file`, with nothing done yet.
    pub fn new(file: F) -> (handle: Handle<F>)
        ensures
            handle.exchanges() == Seq::<Exchange<F::Region, F::Error>>::empty(),
            handle.target() == file,
    {
        Handle { file, record: Ghost(Seq::empty()) }
    }

    /// Gives the file back.
    pub fn into_file(self) -> (file: F)
        ensures
            file == self.target(),
    {
        self.file
    }

    /// Seeks to the end of the file and returns its size, or nothing where the
    /// seek failed.
    pub fn seek_to_end(&mut self) -> (size: Option<u64>)
        ensures
            final(self).exchanges() == old(self).exchanges().push(
                Exchange { request: Request::SeekToEnd, answer: Answer::Size(size) },
            ),
    {
        let size = match self.file.seek_to_end() {
            Ok(size) => Some(size),
            Err(_) => None,
        };
        proof {
            self.record@ = self.record@.push(
                Exchange { request: Request::SeekToEnd, answer: Answer::Size(size) },
            );
        }
        size
    }

    /// Tries to map the first `len` bytes of the file and returns the region, or
    /// nothing where that failed.
    pub fn map_bytes(&mut self, len: usize) -> (region: Option<F::Region>)
        ensures
            final(self).exchanges() == old(self).exchanges().push(
                Exchange { request: Request::MapBytes(len), answer: Answer::Mapped(region) },
            ),
    {
        let region = self.file.map_bytes(len);
        proof {
            self.record@ = self.record@.push(
                Exchange { request: Request::MapBytes(len), answer: Answer::Mapped(region) },
            );
        }
        region
    }

    /// Seeks back to the start of the file and returns what came of it.
    pub fn rewind(&mut self) -> (done: Result<(), F::Error>)
        ensures
            final(self).exchanges() == old(self).exchanges().push(
                Exchange { request: Request::Rewind, answer: Answer::Rewound(done) },
            ),
    {
        let done = self.file.rewind();
        proof {
            self.record@ = self.record@.push(
                Exchange { request: Request::Rewind, answer: Answer::Rewound(done) },
            );
        }
        done
    }
}

} // verus!
