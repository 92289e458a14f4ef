use hash_io::file::{Handle, MappableFile, Request};
use hash_io::mapping::{maybe_mmap_file, MIN_MAP_LEN};

/// A file held in memory, with the means to make each operation on it fail.
struct FakeFile {
    contents: Vec<u8>,
    cursor: u64,
    seek_fails: bool,
    map_fails: bool,
    rewind_fails: bool,
    requests: Vec<Request>,
}

impl FakeFile {
    fn of_len(len: usize) -> FakeFile {
        let mut contents = Vec::with_capacity(len);
        for i in 0..len {
            contents.push((i % 253) as u8);
        }
        FakeFile {
            contents,
            cursor: 0,
            seek_fails: false,
            map_fails: false,
            rewind_fails: false,
            requests: Vec::new(),
        }
    }

    fn read(&mut self, n: usize) -> Vec<u8> {
        let start = self.cursor as usize;
        let end = (start + n).min(self.contents.len());
        self.cursor = end as u64;
        self.contents[start..end].to_vec()
    }
}

impl MappableFile for FakeFile {
    type Region = Vec<u8>;
    type Error = String;

    fn seek_to_end(&mut self) -> Result<u64, String> {
        self.requests.push(Request::SeekToEnd);
        if self.seek_fails {
            Err(String::from("cannot seek"))
        } else {
            self.cursor = self.contents.len() as u64;
            Ok(self.cursor)
        }
    }

    fn map_bytes(&self, len: usize) -> Option<Vec<u8>> {
        if self.map_fails {
            None
        } else {
            Some(self.contents[..len].to_vec())
        }
    }

    fn rewind(&mut self) -> Result<(), String> {
        self.requests.push(Request::Rewind);
        if self.rewind_fails {
            Err(String::from("cannot rewind"))
        } else {
            self.cursor = 0;
            Ok(())
        }
    }
}

/// A file that claims a size and counts the attempts to map it.
struct ClaimedSize {
    size: u64,
    asked_len: std::cell::Cell<Option<usize>>,
    rewound: bool,
}

impl ClaimedSize {
    fn of(size: u64) -> ClaimedSize {
        ClaimedSize { size, asked_len: std::cell::Cell::new(None), rewound: false }
    }
}

impl MappableFile for ClaimedSize {
    type Region = usize;
    type Error = i32;

    fn seek_to_end(&mut self) -> Result<u64, i32> {
        Ok(self.size)
    }

    fn map_bytes(&self, len: usize) -> Option<usize> {
        self.asked_len.set(Some(len));
        Some(len)
    }

    fn rewind(&mut self) -> Result<(), i32> {
        self.rewound = true;
        Ok(())
    }
}

fn consult(file: FakeFile) -> (Result<Option<Vec<u8>>, String>, FakeFile) {
    let mut handle = Handle::new(file);
    let result = maybe_mmap_file(&mut handle);
    (result, handle.into_file())
}

fn claim(size: u64) -> (Result<Option<usize>, i32>, ClaimedSize) {
    let mut handle = Handle::new(ClaimedSize::of(size));
    let result = maybe_mmap_file(&mut handle);
    (result, handle.into_file())
}

#[test]
fn threshold_is_16_kib() {
    assert_eq!(MIN_MAP_LEN, 16 * 1024);
}

#[test]
fn file_one_byte_short_is_not_mapped() {
    let (result, file) = consult(FakeFile::of_len(16 * 1024 - 1));
    assert_eq!(result, Ok(None));
    assert_eq!(file.requests, vec![Request::SeekToEnd, Request::Rewind]);
    assert_eq!(file.cursor, 0);
}

#[test]
fn file_of_16_kib_is_mapped() {
    let (result, file) = consult(FakeFile::of_len(16 * 1024));
    let region = result.unwrap().unwrap();
    assert_eq!(region.len(), 16 * 1024);
    assert_eq!(region, file.contents);
    assert_eq!(file.requests, vec![Request::SeekToEnd]);
}

#[test]
fn sizes_below_the_threshold_are_never_mapped() {
    for size in [0u64, 1, 4096, 16 * 1024 - 1] {
        let (result, file) = claim(size);
        assert_eq!(result, Ok(None));
        assert_eq!(file.asked_len.get(), None);
        assert!(file.rewound);
    }
}

#[test]
fn sizes_from_the_threshold_up_are_mapped_whole() {
    for size in [16u64 * 1024, 16 * 1024 + 1, 1 << 20, u32::MAX as u64] {
        let (result, file) = claim(size);
        assert_eq!(result, Ok(Some(size as usize)));
        assert_eq!(file.asked_len.get(), Some(size as usize));
        assert!(!file.rewound);
    }
}

#[test]
fn sizes_beyond_the_address_space_are_not_mapped() {
    let (result, file) = claim(usize::MAX as u64);
    assert_eq!(result, Ok(Some(usize::MAX)));
    assert!(!file.rewound);

    let (result, file) = claim(u64::MAX);
    if (usize::MAX as u64) < u64::MAX {
        assert_eq!(result, Ok(None));
        assert_eq!(file.asked_len.get(), None);
        assert!(file.rewound);
    } else {
        assert_eq!(result, Ok(Some(usize::MAX)));
    }
}

#[test]
fn mapping_spans_the_whole_file() {
    let (result, file) = consult(FakeFile::of_len(100_000));
    let region = result.unwrap().unwrap();
    assert_eq!(region.len(), 100_000);
    assert_eq!(region, file.contents);
}

#[test]
fn failed_probe_leaves_the_file_alone() {
    let mut file = FakeFile::of_len(100_000);
    file.seek_fails = true;
    let (result, file) = consult(file);
    assert_eq!(result, Ok(None));
    assert_eq!(file.requests, vec![Request::SeekToEnd]);
    assert_eq!(file.cursor, 0);
}

#[test]
fn declined_small_file_reads_from_its_first_byte() {
    let (result, mut file) = consult(FakeFile::of_len(5000));
    assert_eq!(result, Ok(None));
    assert_eq!(file.cursor, 0);
    assert_eq!(file.read(4), vec![0, 1, 2, 3]);
}

#[test]
fn declined_after_failed_mapping_reads_from_its_first_byte() {
    let mut file = FakeFile::of_len(50_000);
    file.map_fails = true;
    let (result, mut file) = consult(file);
    assert_eq!(result, Ok(None));
    assert_eq!(file.requests, vec![Request::SeekToEnd, Request::Rewind]);
    assert_eq!(file.cursor, 0);
    assert_eq!(file.read(4), vec![0, 1, 2, 3]);
}

#[test]
fn rewind_failure_is_not_hidden() {
    let mut file = FakeFile::of_len(100);
    file.rewind_fails = true;
    assert_eq!(consult(file).0, Err(String::from("cannot rewind")));

    let mut file = FakeFile::of_len(50_000);
    file.map_fails = true;
    file.rewind_fails = true;
    assert_eq!(consult(file).0, Err(String::from("cannot rewind")));
}

#[test]
fn failed_probe_is_no_error() {
    let mut file = FakeFile::of_len(50_000);
    file.seek_fails = true;
    file.rewind_fails = true;
    assert_eq!(consult(file).0, Ok(None));
}

#[test]
fn successful_mapping_skips_the_rewind() {
    let mut file = FakeFile::of_len(20_000);
    file.rewind_fails = true;
    let (result, file) = consult(file);
    assert!(result.unwrap().is_some());
    assert_eq!(file.requests, vec![Request::SeekToEnd]);
    assert_eq!(file.cursor, 20_000);
}

#[test]
fn empty_file_is_declined() {
    let (result, file) = consult(FakeFile::of_len(0));
    assert_eq!(result, Ok(None));
    assert_eq!(file.requests, vec![Request::SeekToEnd, Request::Rewind]);
}

#[test]
fn handle_gives_the_file_back() {
    let file = Handle::new(FakeFile::of_len(7)).into_file();
    assert_eq!(file.contents.len(), 7);
    assert!(file.requests.is_empty());
}

/// A file that cannot be rewound, whose mapping is an anonymous region of memory.
struct Anonymous {
    len: u64,
}

impl MappableFile for Anonymous {
    type Region = memmap2::Mmap;
    type Error = std::io::Error;

    fn seek_to_end(&mut self) -> std::io::Result<u64> {
        Ok(self.len)
    }

    fn map_bytes(&self, len: usize) -> Option<memmap2::Mmap> {
        memmap2::MmapMut::map_anon(len).ok()?.make_read_only().ok()
    }

    fn rewind(&mut self) -> std::io::Result<()> {
        Err(std::io::Error::new(std::io::ErrorKind::Other, "no rewinding here"))
    }
}

#[test]
fn a_real_mapping_is_handed_on() {
    let mut handle = Handle::new(Anonymous { len: 16 * 1024 });
    let region = maybe_mmap_file(&mut handle).unwrap().unwrap();
    assert_eq!(region.len(), 16 * 1024);
    assert!(region.iter().all(|byte| *byte == 0));
}

#[test]
fn io_error_of_the_rewind_comes_back_as_it_is() {
    let mut handle = Handle::new(Anonymous { len: 12 });
    let error = maybe_mmap_file(&mut handle).unwrap_err();
    assert_eq!(error.kind(), std::io::ErrorKind::Other);
    assert_eq!(error.to_string(), "no rewinding here");
}
