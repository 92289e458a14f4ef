use vstd::prelude::*;
use crate::file::{Answer, Exchange, Handle, MappableFile, Request};

verus! {

/// Files shorter than this many bytes (16 KiB) are read, not mapped: setting up a
/// mapping costs more than it saves on them.
pub const MIN_MAP_LEN: u64 = 16384;

/// Whether a file of `size` bytes is one to map: large enough to be worth it, and
/// no larger than this machine can address.
pub open spec fn worth_mapping(size: u64) -> bool {
    MIN_MAP_LEN <= size <= usize::MAX
}

/// A file and a machine as `maybe_mmap_file` meets them: what each request gives.
pub struct Setting<R, E> {
    /// What a seek to the end gives: the file's size, or nothing where it fails.
    pub size: Option<u64>,
    /// What an attempt to map the file gives: the region, or nothing where it fails.
    pub region: Option<R>,
    /// What a seek back to the start gives.
    pub rewind: Result<(), E>,
}

impl<R, E> Setting<R, E> {
    /// What `request` gives here.
    pub open spec fn answer(self, request: Request) -> Answer<R, E> {
        match request {
            Request::SeekToEnd => Answer::Size(self.size),
            Request::MapBytes(_) => Answer::Mapped(self.region),
            Request::Rewind => Answer::Rewound(self.rewind),
        }
    }

    /// Where the file's cursor stands once `request` is carried out, if it stood at
    /// `cursor` before. A seek that succeeds puts it where it was asked to; one that
    /// fails leaves it alone, and so does mapping.
    pub open spec fn moves(self, request: Request, cursor: u64) -> u64 {
        match request {
            Request::SeekToEnd => match self.size {
                Some(size) => size,
                None => cursor,
            },
            Request::MapBytes(_) => cursor,
            Request::Rewind => if self.rewind is Ok {
                0
            } else {
                cursor
            },
        }
    }

    /// Where the cursor stands after `requests`, carried out in order from `cursor`.
    pub open spec fn cursor_after(self, requests: Seq<Request>, cursor: u64) -> u64
        decreases requests.len(),
    {
        if requests.len() == 0 {
            cursor
        } else {
            self.cursor_after(requests.skip(1), self.moves(requests[0], cursor))
        }
    }

    /// Whether the file is mapped here: it is worth mapping and the attempt succeeds.
    pub open spec fn maps(self) -> bool {
        self.size matches Some(size) && worth_mapping(size) && self.region is Some
    }

    /// What `maybe_mmap_file` asks of the file here, in order.
    ///
    /// It starts with the seek for the size. If that fails, nothing more is done. A
    /// file worth mapping is mapped in its whole length, and if that succeeds,
    /// nothing more is done either. In every other case the file is rewound last.
    pub open spec fn requests(self) -> Seq<Request> {
        match self.size {
            None => seq![Request::SeekToEnd],
            Some(size) => if !worth_mapping(size) {
                seq![Request::SeekToEnd, Request::Rewind]
            } else if self.region is Some {
                seq![Request::SeekToEnd, Request::MapBytes(size as usize)]
            } else {
                seq![Request::SeekToEnd, Request::MapBytes(size as usize), Request::Rewind]
            },
        }
    }

    /// What `maybe_mmap_file` returns here: the mapping where the file is mapped;
    /// the error where the file had to be rewound and could not be; and otherwise
    /// nothing, which tells the caller to read the file instead.
    pub open spec fn result(self) -> Result<Option<R>, E> {
        if self.maps() {
            Ok(self.region)
        } else if self.size is Some && self.rewind is Err {
            Err(self.rewind->Err_0)
        } else {
            Ok(None)
        }
    }

    /// The requests made here, each with its answer.
    pub open spec fn transcript(self) -> Seq<Exchange<R, E>> {
        Seq::new(
            self.requests().len(),
            |i: int| Exchange { request: self.requests()[i], answer: self.answer(self.requests()[i]) },
        )
    }
}

/// Maps `file` for reading if that looks worth it and can be done; returns
/// `Ok(None)` where it is not or cannot, so that the caller reads the file instead.
///
/// The file's cursor is expected at 0. What is done with the file, and what comes
/// back, is what `Setting::requests` and `Setting::result` say for the answers that
/// the file gives: the call adds exactly that transcript to the handle's record.
pub fn maybe_mmap_file<F: MappableFile>(file: &mut Handle<F>) -> (result: Result<
    Option<F::Region>,
    F::Error,
>)
    ensures
        exists|setting: Setting<F::Region, F::Error>|
            {
                &&& final(file).exchanges() == old(file).exchanges() + #[trigger] setting.transcript()
                &&& result == setting.result()
            },
{
    let ghost before = file.exchanges();
    let file_size = match file.seek_to_end() {
        Some(size) => size,
        None => {
            proof {
                let setting = Setting::<F::Region, F::Error> {
                    size: None,
                    region: None,
                    rewind: Ok(()),
                };
                assert(file.exchanges() =~= before + setting.transcript());
            }
            return Ok(None);
        },
    };
    if MIN_MAP_LEN <= file_size && file_size <= usize::MAX as u64 {
        if let Some(region) = file.map_bytes(file_size as usize) {
            proof {
                let setting = Setting::<F::Region, F::Error> {
                    size: Some(file_size),
                    region: Some(region),
                    rewind: Ok(()),
                };
                assert(file.exchanges() =~= before + setting.transcript());
            }
            return Ok(Some(region));
        }
    }
    let rewound = file.rewind();
    proof {
        let setting = Setting::<F::Region, F::Error> {
            size: Some(file_size),
            region: None,
            rewind: rewound,
        };
        assert(file.exchanges() =~= before + setting.transcript());
    }
    match rewound {
        Ok(_) => Ok(None),
        Err(e) => Err(e),
    }
}

/// A file shorter than 16 KiB is never mapped, whatever the machine would do: no
/// mapping is asked for and none is returned.
pub proof fn lemma_small_file_is_not_mapped<R, E>(setting: Setting<R, E>)
    requires
        setting.size matches Some(size) && size < MIN_MAP_LEN,
    ensures
        forall|i: int|
            0 <= i < setting.requests().len() ==> !(#[trigger] setting.requests()[i] is MapBytes),
        !(setting.result() matches Ok(Some(_))),
{
}

/// A file of 16 KiB or more that the machine can address and agrees to map is
/// mapped, in its whole length, and the mapping is what the caller gets.
pub proof fn lemma_large_file_is_mapped<R, E>(setting: Setting<R, E>, size: u64, region: R)
    requires
        setting.size == Some(size),
        setting.region == Some(region),
        MIN_MAP_LEN <= size <= usize::MAX,
    ensures
        setting.requests() == seq![Request::SeekToEnd, Request::MapBytes(size as usize)],
        setting.result() == Ok::<Option<R>, E>(Some(region)),
{
}

/// Where the seek for the file's size fails there is no mapping and no error, and
/// nothing more is done with the file.
pub proof fn lemma_failed_probe_declines<R, E>(setting: Setting<R, E>)
    requires
        setting.size is None,
    ensures
        setting.requests() == seq![Request::SeekToEnd],
        setting.result() == Ok::<Option<R>, E>(None),
        forall|cursor: u64| setting.cursor_after(setting.requests(), cursor) == cursor,
{
    reveal_with_fuel(Setting::cursor_after, 2);
}

/// Whenever the caller is told that there is no mapping, the cursor of a file that
/// was at 0 is at 0 again, so that the file can be read from its first byte.
pub proof fn lemma_declined_leaves_cursor_at_start<R, E>(setting: Setting<R, E>)
    requires
        setting.result() == Ok::<Option<R>, E>(None),
    ensures
        setting.cursor_after(setting.requests(), 0) == 0,
{
    reveal_with_fuel(Setting::cursor_after, 4);
    let requests = setting.requests();
    if requests.len() >= 2 {
        assert(requests.skip(1)[0] == requests[1]);
        if requests.len() >= 3 {
            assert(requests.skip(1).skip(1)[0] == requests[2]);
        }
    }
}

/// A mapping is only ever asked for in the file's whole length, as the seek to its
/// end gave it.
pub proof fn lemma_mapping_spans_file<R, E>(setting: Setting<R, E>, i: int)
    requires
        0 <= i < setting.requests().len(),
        setting.requests()[i] is MapBytes,
    ensures
        setting.size == Some(setting.requests()[i]->MapBytes_0 as u64),
{
}

/// The result is an error only where the file had to be rewound and could not be,
/// and then it is the error of the rewinding. A failure to find the size or to map
/// is never an error.
pub proof fn lemma_only_rewinding_fails<R, E>(setting: Setting<R, E>, e: E)
    ensures
        setting.result() == Err::<Option<R>, E>(e) <==> {
            &&& setting.rewind == Err::<(), E>(e)
            &&& setting.size is Some
            &&& !setting.maps()
        },
{
}

} // verus!
