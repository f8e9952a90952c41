use lethe::actions::marker::BlockMarker;
use lethe::actions::wipe::after_failure;
use lethe::actions::wipe::have_to_verify;
use lethe::actions::wipe::is_device_busy;
use lethe::actions::wipe::share_of_blocks;
use lethe::actions::phase::judge;
use lethe::actions::phase::same_bytes;
use lethe::actions::phase::Taken;
use lethe::actions::wipe::underlying_io_error_kind;
use lethe::actions::wipe::AfterFailure;
use lethe::actions::wipe::Verify;
use lethe::actions::wipe::WipeError;
use lethe::actions::wipe::WipeEvent;
use lethe::actions::wipe::WipeEvent::{
    Completed, MarkBlockAsBad, Progress, Retrying, StageCompleted, StageStarted, Started,
};
use lethe::actions::wipe::WipeEventReceiver;
use lethe::actions::wipe::WipeState;
use lethe::actions::wipe::WipeTask;
use lethe::sanitization::scheme::Scheme;
use lethe::sanitization::scheme::SchemeRepo;
use lethe::sanitization::stage::Stage;
use lethe::storage::StorageAccess;
use lethe::storage::StorageError;
use std::io::{Cursor, ErrorKind, Read, Seek, SeekFrom, Write};

struct StubReceiver {
    collected: Vec<(WipeState, WipeEvent)>,
}

impl StubReceiver {
    pub fn new() -> Self {
        StubReceiver {
            collected: Vec::new(),
        }
    }
}

impl WipeEventReceiver for StubReceiver {
    fn handle(&mut self, _task: &WipeTask, state: &WipeState, event: WipeEvent) -> () {
        println!("{:?}", event);
        self.collected.push((state.clone(), event));
    }
}

struct InMemoryStorage {
    file: Cursor<Vec<u8>>,
    size: usize,
    total_written: usize,
    total_read: usize,
    failures: Vec<usize>,
    bad_blocks: Vec<u64>,
    flushes: usize,
}

impl InMemoryStorage {
    fn new(size: usize) -> Self {
        InMemoryStorage {
            file: Cursor::new(vec![0xff; size]),
            size,
            total_written: 0,
            total_read: 0,
            failures: Vec::new(),
            bad_blocks: Vec::new(),
            flushes: 0,
        }
    }

    fn fail_after_any(&mut self, amount: usize) -> () {
        self.failures.push(amount);
        self.failures.sort();
    }

    fn fail_at(&mut self, pos: u64) -> () {
        self.bad_blocks.push(pos);
        self.bad_blocks.sort();
    }

    fn check_for_traps(&mut self, read_bytes: usize, write_bytes: usize) -> Result<(), StorageError> {
        let block_start = self.file.position();
        let block_end = block_start + write_bytes as u64;
        let is_bad_block = self
            .bad_blocks
            .iter()
            .find(|b| block_start <= **b && block_end > **b)
            .is_some();

        if is_bad_block {
            return Err(StorageError::BadBlock);
        }

        let old_total = self.total_read + self.total_written;

        self.total_read += read_bytes;
        self.total_written += write_bytes;

        match self.failures.iter().find(|x| **x >= old_total) {
            Some(v) if old_total + read_bytes + write_bytes > *v => Err(StorageError::Other(
                std::io::Error::new(ErrorKind::Other, "Mocked IO failure"),
            )),
            _ => Ok(()),
        }
    }
}

impl StorageAccess for InMemoryStorage {
    fn position(&mut self) -> Result<u64, StorageError> {
        self.file
            .seek(SeekFrom::Current(0))
            .map_err(StorageError::Other)
    }

    fn seek(&mut self, position: u64) -> Result<u64, StorageError> {
        self.file
            .seek(SeekFrom::Start(position))
            .map_err(StorageError::Other)
    }

    fn read(&mut self, buffer: &mut [u8]) -> Result<usize, StorageError> {
        self.check_for_traps(buffer.len(), 0)?;
        self.file.read(buffer).map_err(StorageError::Other)
    }

    fn write(&mut self, data: &[u8]) -> Result<(), StorageError> {
        self.check_for_traps(0, data.len())?;
        self.file.write_all(data).map_err(StorageError::Other)
    }

    fn flush(&mut self) -> Result<(), StorageError> {
        self.flushes += 1;
        Ok(())
    }
}

struct Forgetful {
    inner: InMemoryStorage,
}
impl StorageAccess for Forgetful {
    fn position(&mut self) -> Result<u64, StorageError> {
        self.inner.position()
    }
    fn seek(&mut self, position: u64) -> Result<u64, StorageError> {
        self.inner.seek(position)
    }
    fn read(&mut self, buffer: &mut [u8]) -> Result<usize, StorageError> {
        self.inner.read(buffer)
    }
    fn write(&mut self, data: &[u8]) -> Result<(), StorageError> {
        let position = self.inner.file.position();
        self.inner.file.set_position(position + data.len() as u64);
        Ok(())
    }
    fn flush(&mut self) -> Result<(), StorageError> {
        Ok(())
    }
}

struct ForgetfulMinuted<'a> {
    inner: &'a mut Minuted,
}
impl<'a> StorageAccess for ForgetfulMinuted<'a> {
    fn position(&mut self) -> Result<u64, StorageError> {
        self.inner.position()
    }
    fn seek(&mut self, position: u64) -> Result<u64, StorageError> {
        self.inner.seek(position)
    }
    fn read(&mut self, buffer: &mut [u8]) -> Result<usize, StorageError> {
        self.inner.read(buffer)
    }
    fn write(&mut self, data: &[u8]) -> Result<(), StorageError> {
        let position = self.inner.inner.file.position();
        self.inner.inner.file.set_position(position + data.len() as u64);
        Ok(())
    }
    fn flush(&mut self) -> Result<(), StorageError> {
        Ok(())
    }
}

struct Stuck {
    inner: InMemoryStorage,
    stuck_at: u64,
}
impl StorageAccess for Stuck {
    fn position(&mut self) -> Result<u64, StorageError> {
        self.inner.position()
    }
    fn seek(&mut self, position: u64) -> Result<u64, StorageError> {
        if position == self.stuck_at {
            Err(StorageError::BadBlock)
        } else {
            self.inner.seek(position)
        }
    }
    fn read(&mut self, buffer: &mut [u8]) -> Result<usize, StorageError> {
        self.inner.read(buffer)
    }
    fn write(&mut self, data: &[u8]) -> Result<(), StorageError> {
        self.inner.write(data)
    }
    fn flush(&mut self) -> Result<(), StorageError> {
        self.inner.flush()
    }
}

struct Unreadable {
    inner: InMemoryStorage,
    flush_fails: bool,
}

impl StorageAccess for Unreadable {
    fn position(&mut self) -> Result<u64, StorageError> {
        self.inner.position()
    }
    fn seek(&mut self, position: u64) -> Result<u64, StorageError> {
        self.inner.seek(position)
    }
    fn read(&mut self, _buffer: &mut [u8]) -> Result<usize, StorageError> {
        Err(StorageError::BadBlock)
    }
    fn write(&mut self, data: &[u8]) -> Result<(), StorageError> {
        self.inner.write(data)
    }
    fn flush(&mut self) -> Result<(), StorageError> {
        if self.flush_fails {
            Err(StorageError::BadBlock)
        } else {
            Ok(())
        }
    }
}

#[derive(Debug, Clone, PartialEq)]
enum Asked {
    Seek(u64),
    Read(u64),
    Write(u64, Vec<u8>),
    Flush,
}

#[derive(Debug, Clone, Copy, PartialEq)]
enum Came {
    Done,
    BadBlock,
    Failed,
}

struct Minuted {
    inner: InMemoryStorage,
    minutes: Vec<(Asked, Came)>,
}

impl Minuted {
    fn new(inner: InMemoryStorage) -> Self {
        Minuted {
            inner,
            minutes: Vec::new(),
        }
    }

    fn note<T>(&mut self, asked: Asked, result: &Result<T, StorageError>) {
        let came = match result {
            Ok(_) => Came::Done,
            Err(StorageError::BadBlock) => Came::BadBlock,
            Err(StorageError::Other(_)) => Came::Failed,
        };
        self.minutes.push((asked, came));
    }

    fn ends_of_attempts(&self) -> usize {
        self.minutes
            .iter()
            .filter(|(asked, came)| match (asked, came) {
                (_, Came::Done) => false,
                (Asked::Seek(_), Came::BadBlock) => false,
                (Asked::Write(_, _), Came::BadBlock) => false,
                _ => true,
            })
            .count()
    }

    fn refused(&self, block_size: u64) -> Vec<u32> {
        let mut blocks: Vec<u32> = self
            .minutes
            .iter()
            .filter_map(|(asked, came)| match (asked, came) {
                (Asked::Seek(at), Came::BadBlock) => Some((at / block_size) as u32),
                (Asked::Write(at, _), Came::BadBlock) => Some((at / block_size) as u32),
                _ => None,
            })
            .collect();
        blocks.sort();
        blocks.dedup();
        blocks
    }
}

impl StorageAccess for Minuted {
    fn position(&mut self) -> Result<u64, StorageError> {
        self.inner.position()
    }
    fn seek(&mut self, position: u64) -> Result<u64, StorageError> {
        let result = self.inner.seek(position);
        self.note(Asked::Seek(position), &result);
        result
    }
    fn read(&mut self, buffer: &mut [u8]) -> Result<usize, StorageError> {
        let at = self.inner.file.position();
        let result = self.inner.read(buffer);
        self.note(Asked::Read(at), &result);
        result
    }
    fn write(&mut self, data: &[u8]) -> Result<(), StorageError> {
        let at = self.inner.file.position();
        let result = self.inner.write(data);
        self.note(Asked::Write(at, data.to_vec()), &result);
        result
    }
    fn flush(&mut self) -> Result<(), StorageError> {
        let result = self.inner.flush();
        self.note(Asked::Flush, &result);
        result
    }
}

fn scheme_called(name: &str) -> Scheme {
    let schemes = SchemeRepo::default();
    schemes.find(name).unwrap().clone()
}

#[test]
fn test_wipe_task_validation() {
    let scheme = scheme_called("zero");

    assert!(WipeTask::new(scheme.clone(), Verify::No, 1 << 32, 1).is_ok());
    assert!(WipeTask::new(scheme.clone(), Verify::No, 1 << 35, 8).is_ok());
    assert!(WipeTask::new(scheme.clone(), Verify::No, 1 << 33, 1).is_err());
    assert!(WipeTask::new(scheme.clone(), Verify::No, 1 << 36, 8).is_err());
}

#[test]
fn wipe_test_wiping_happy_path() {
    let scheme = scheme_called("zero");
    let mut storage = InMemoryStorage::new(100000);
    let block_size = 32768;
    let mut receiver = StubReceiver::new();

    let task = WipeTask::new(
        scheme.clone(),
        Verify::Last,
        storage.size as u64,
        block_size,
    )
    .unwrap();
    let mut state = WipeState::default();
    let result = task.run(&mut storage, &mut state, &mut receiver);

    assert_eq!(result, true);

    let mut e = receiver.collected.iter();
    assert!(matches!(e.next(), Some((_, Started))));
    assert!(matches!(e.next(), Some((ref s, StageStarted)) if !s.at_verification));
    assert!(matches!(e.next(), Some((_, Progress(0)))));
    assert!(matches!(e.next(), Some((_, Progress(32768)))));
    assert!(matches!(e.next(), Some((_, Progress(65536)))));
    assert!(matches!(e.next(), Some((_, Progress(98304)))));
    assert!(matches!(e.next(), Some((_, Progress(100000)))));
    assert!(matches!(e.next(), Some((_, StageCompleted(None)))));
    assert!(matches!(e.next(), Some((ref s, StageStarted)) if s.at_verification));
    assert!(matches!(e.next(), Some((_, Progress(0)))));
    assert!(matches!(e.next(), Some((_, Progress(32768)))));
    assert!(matches!(e.next(), Some((_, Progress(65536)))));
    assert!(matches!(e.next(), Some((_, Progress(98304)))));
    assert!(matches!(e.next(), Some((_, Progress(100000)))));
    assert!(matches!(e.next(), Some((_, StageCompleted(None)))));
    assert!(matches!(e.next(), Some((_, Completed(None)))));
    assert!(e.next().is_none());

    assert_eq!(
        storage.file.get_ref().iter().filter(|x| **x != 0u8).count(),
        0
    );
}

#[test]
fn test_wiping_fill_failure() {
    let scheme = scheme_called("zero");
    let mut storage = InMemoryStorage::new(100000);
    let block_size = 32768;
    let mut receiver = StubReceiver::new();

    storage.fail_after_any(50000);

    let task = WipeTask::new(
        scheme.clone(),
        Verify::Last,
        storage.size as u64,
        block_size,
    )
    .unwrap();
    let mut state = WipeState::default();
    let result = task.run(&mut storage, &mut state, &mut receiver);

    assert_eq!(result, false);

    let mut e = receiver.collected.iter();
    assert!(matches!(e.next(), Some((_, Started))));
    assert!(matches!(e.next(), Some((ref s, StageStarted)) if !s.at_verification));
    assert!(matches!(e.next(), Some((_, Progress(0)))));
    assert!(matches!(e.next(), Some((_, Progress(32768)))));
    assert!(matches!(e.next(), Some((_, StageCompleted(Some(_))))));
    assert!(matches!(e.next(), Some((_, Completed(Some(_))))));

    assert_eq!(
        storage.file.get_ref().iter().filter(|x| **x != 0u8).count(),
        100000 - 32768
    );
}

#[test]
fn test_wiping_validation_failure_with_retries() {
    let scheme = scheme_called("random");
    let mut storage = InMemoryStorage::new(100000);
    let block_size = 32768;
    let mut receiver = StubReceiver::new();

    storage.fail_after_any(150000);

    let task = WipeTask::new(
        scheme.clone(),
        Verify::Last,
        storage.size as u64,
        block_size,
    )
    .unwrap();
    let mut state = WipeState::default();
    state.retries_left = 8;
    let result = task.run(&mut storage, &mut state, &mut receiver);

    assert_eq!(result, true);

    let mut e = receiver.collected.iter();
    assert!(matches!(e.next(), Some((_, Started))));
    assert!(matches!(e.next(), Some((ref s, StageStarted)) if !s.at_verification));
    assert!(matches!(e.next(), Some((_, Progress(0)))));
    assert!(matches!(e.next(), Some((_, Progress(32768)))));
    assert!(matches!(e.next(), Some((_, Progress(65536)))));
    assert!(matches!(e.next(), Some((_, Progress(98304)))));
    assert!(matches!(e.next(), Some((_, Progress(100000)))));
    assert!(matches!(e.next(), Some((_, StageCompleted(None)))));
    assert!(matches!(e.next(), Some((ref s, StageStarted)) if s.at_verification));
    assert!(matches!(e.next(), Some((_, Progress(0)))));
    assert!(matches!(e.next(), Some((_, Progress(32768)))));
    assert!(matches!(e.next(), Some((_, StageCompleted(Some(_))))));
    assert!(matches!(e.next(), Some((_, Retrying))));
    assert!(matches!(e.next(), Some((ref s, StageStarted)) if !s.at_verification));
    assert!(matches!(e.next(), Some((_, Progress(32768)))));
    assert!(matches!(e.next(), Some((_, Progress(65536)))));
    assert!(matches!(e.next(), Some((_, Progress(98304)))));
    assert!(matches!(e.next(), Some((_, Progress(100000)))));
    assert!(matches!(e.next(), Some((_, StageCompleted(None)))));
    assert!(matches!(e.next(), Some((ref s, StageStarted)) if s.at_verification));
    assert!(matches!(e.next(), Some((_, Progress(32768)))));
    assert!(matches!(e.next(), Some((_, Progress(65536)))));
    assert!(matches!(e.next(), Some((_, Progress(98304)))));
    assert!(matches!(e.next(), Some((_, Progress(100000)))));
    assert!(matches!(e.next(), Some((_, StageCompleted(None)))));
    assert!(matches!(e.next(), Some((_, Completed(None)))));

    assert_eq!(state.retries_left, 7);
}

#[test]
fn test_wiping_write_failures_skips_bad_blocks() {
    let scheme = scheme_called("random");
    let mut storage = InMemoryStorage::new(100000);
    let block_size = 32768;
    let mut receiver = StubReceiver::new();

    storage.fail_at(50000);

    let task = WipeTask::new(
        scheme.clone(),
        Verify::Last,
        storage.size as u64,
        block_size,
    )
    .unwrap();
    let mut state = WipeState::default();
    state.retries_left = 8;
    let result = task.run(&mut storage, &mut state, &mut receiver);

    assert_eq!(result, true);

    let mut e = receiver.collected.iter();
    assert!(matches!(e.next(), Some((_, Started))));
    assert!(matches!(e.next(), Some((ref s, StageStarted)) if !s.at_verification));
    assert!(matches!(e.next(), Some((_, Progress(0)))));
    assert!(matches!(e.next(), Some((_, Progress(32768)))));
    assert!(matches!(e.next(), Some((_, MarkBlockAsBad(32768)))));
    assert!(matches!(e.next(), Some((_, Progress(65536)))));
    assert!(matches!(e.next(), Some((_, Progress(98304)))));
    assert!(matches!(e.next(), Some((_, Progress(100000)))));
    assert!(matches!(e.next(), Some((_, StageCompleted(None)))));
    assert!(matches!(e.next(), Some((ref s, StageStarted)) if s.at_verification));
    assert!(matches!(e.next(), Some((_, Progress(0)))));
    assert!(matches!(e.next(), Some((_, Progress(32768)))));
    assert!(matches!(e.next(), Some((_, Progress(65536)))));
    assert!(matches!(e.next(), Some((_, Progress(98304)))));
    assert!(matches!(e.next(), Some((_, Progress(100000)))));
    assert!(matches!(e.next(), Some((_, StageCompleted(None)))));
    assert!(matches!(e.next(), Some((_, Completed(None)))));

    assert_eq!(state.bad_blocks.total_marked(), 1);
    assert!(state.bad_blocks.is_marked(1));
    let bytes = storage.file.get_ref();
    assert!(bytes[32768..65536].iter().all(|x| *x == 0xff));
}

#[test]
fn test_wiping_skip_bad_blocks_at_beginning() {
    let scheme = scheme_called("random");
    let mut storage = InMemoryStorage::new(100000);
    let block_size = 32768;
    let mut receiver = StubReceiver::new();

    storage.fail_at(0);
    storage.fail_at(32768);

    let task = WipeTask::new(
        scheme.clone(),
        Verify::Last,
        storage.size as u64,
        block_size,
    )
    .unwrap();
    let mut state = WipeState::default();
    state.retries_left = 8;
    let result = task.run(&mut storage, &mut state, &mut receiver);

    assert_eq!(result, true);

    let mut e = receiver.collected.iter();
    assert!(matches!(e.next(), Some((_, Started))));
    assert!(matches!(e.next(), Some((ref s, StageStarted)) if !s.at_verification));
    assert!(matches!(e.next(), Some((_, Progress(0)))));
    assert!(matches!(e.next(), Some((_, MarkBlockAsBad(0)))));
    assert!(matches!(e.next(), Some((_, Progress(32768)))));
    assert!(matches!(e.next(), Some((_, MarkBlockAsBad(32768)))));
    assert!(matches!(e.next(), Some((_, Progress(65536)))));
    assert!(matches!(e.next(), Some((_, Progress(98304)))));
    assert!(matches!(e.next(), Some((_, Progress(100000)))));
    assert!(matches!(e.next(), Some((_, StageCompleted(None)))));
    assert!(matches!(e.next(), Some((ref s, StageStarted)) if s.at_verification));
    assert!(matches!(e.next(), Some((_, Progress(0)))));
    assert!(matches!(e.next(), Some((_, Progress(32768)))));
    assert!(matches!(e.next(), Some((_, Progress(65536)))));
    assert!(matches!(e.next(), Some((_, Progress(98304)))));
    assert!(matches!(e.next(), Some((_, Progress(100000)))));
    assert!(matches!(e.next(), Some((_, StageCompleted(None)))));
    assert!(matches!(e.next(), Some((_, Completed(None)))));
}

#[test]
fn test_wiping_handle_completely_corrupt_storage() {
    let scheme = scheme_called("random");
    let mut storage = InMemoryStorage::new(100000);
    let block_size = 32768;
    let mut receiver = StubReceiver::new();

    storage.fail_at(0);
    storage.fail_at(32768);
    storage.fail_at(65536);
    storage.fail_at(98304);

    let task = WipeTask::new(
        scheme.clone(),
        Verify::Last,
        storage.size as u64,
        block_size,
    )
    .unwrap();
    let mut state = WipeState::default();
    state.retries_left = 8;
    let result = task.run(&mut storage, &mut state, &mut receiver);

    assert_eq!(result, true);

    let mut e = receiver.collected.iter();
    assert!(matches!(e.next(), Some((_, Started))));
    assert!(matches!(e.next(), Some((ref s, StageStarted)) if !s.at_verification));
    assert!(matches!(e.next(), Some((_, Progress(0)))));
    assert!(matches!(e.next(), Some((_, MarkBlockAsBad(0)))));
    assert!(matches!(e.next(), Some((_, Progress(32768)))));
    assert!(matches!(e.next(), Some((_, MarkBlockAsBad(32768)))));
    assert!(matches!(e.next(), Some((_, Progress(65536)))));
    assert!(matches!(e.next(), Some((_, MarkBlockAsBad(65536)))));
    assert!(matches!(e.next(), Some((_, Progress(98304)))));
    assert!(matches!(e.next(), Some((_, MarkBlockAsBad(98304)))));
    assert!(matches!(e.next(), Some((_, Progress(100000)))));
    assert!(matches!(e.next(), Some((_, StageCompleted(None)))));
    assert!(matches!(e.next(), Some((ref s, StageStarted)) if s.at_verification));
    assert!(matches!(e.next(), Some((_, Progress(0)))));
    assert!(matches!(e.next(), Some((_, Progress(32768)))));
    assert!(matches!(e.next(), Some((_, Progress(65536)))));
    assert!(matches!(e.next(), Some((_, Progress(98304)))));
    assert!(matches!(e.next(), Some((_, Progress(100000)))));
    assert!(matches!(e.next(), Some((_, StageCompleted(None)))));
    assert!(matches!(e.next(), Some((_, Completed(None)))));

    assert_eq!(state.bad_blocks.total_marked(), 4);
    for index in 0..4 {
        assert!(state.bad_blocks.is_marked(index));
    }
    assert!(storage.file.get_ref().iter().all(|x| *x == 0xff));
}

#[test]
fn test_wiping_validation_failure_without_retries() {
    let scheme = scheme_called("random");
    let mut storage = InMemoryStorage::new(100000);
    let block_size = 32768;
    let mut receiver = StubReceiver::new();

    storage.fail_after_any(150000);

    let task = WipeTask::new(
        scheme.clone(),
        Verify::Last,
        storage.size as u64,
        block_size,
    )
    .unwrap();
    let mut state = WipeState::default();
    state.retries_left = 0;
    let result = task.run(&mut storage, &mut state, &mut receiver);

    assert_eq!(result, false);

    let mut e = receiver.collected.iter();
    assert!(matches!(e.next(), Some((_, Started))));
    assert!(matches!(e.next(), Some((ref s, StageStarted)) if !s.at_verification));
    assert!(matches!(e.next(), Some((_, Progress(0)))));
    assert!(matches!(e.next(), Some((_, Progress(32768)))));
    assert!(matches!(e.next(), Some((_, Progress(65536)))));
    assert!(matches!(e.next(), Some((_, Progress(98304)))));
    assert!(matches!(e.next(), Some((_, Progress(100000)))));
    assert!(matches!(e.next(), Some((_, StageCompleted(None)))));
    assert!(matches!(e.next(), Some((ref s, StageStarted)) if s.at_verification));
    assert!(matches!(e.next(), Some((_, Progress(0)))));
    assert!(matches!(e.next(), Some((_, Progress(32768)))));
    assert!(matches!(e.next(), Some((_, StageCompleted(Some(_))))));
    assert!(matches!(e.next(), Some((_, Completed(Some(_))))));
}

#[test]
fn test_wipe_task_keeps_what_it_is_given() {
    let task = WipeTask::new(scheme_called("dod"), Verify::All, 4096, 512).unwrap();
    assert_eq!(task.total_size, 4096);
    assert_eq!(task.block_size, 512);
    assert_eq!(task.verify, Verify::All);
    assert_eq!(task.scheme.stages.len(), 3);
}

#[test]
fn test_wipe_task_rejects_too_many_blocks() {
    let limit: u64 = 1 << 32;
    assert!(WipeTask::new(scheme_called("zero"), Verify::No, limit * 512 + 511, 512).is_ok());
    let refused = WipeTask::new(scheme_called("zero"), Verify::No, (limit + 1) * 512, 512);
    assert!(matches!(refused, Err(WipeError::TaskInvalid)));
}

#[test]
fn test_wiping_empty_storage_reports_no_progress() {
    let mut storage = InMemoryStorage::new(0);
    let mut receiver = StubReceiver::new();
    let task = WipeTask::new(scheme_called("dod"), Verify::Last, 0, 4096).unwrap();
    let mut state = WipeState::default();
    state.retries_left = 3;

    assert!(task.run(&mut storage, &mut state, &mut receiver));

    let mut e = receiver.collected.iter();
    assert!(matches!(e.next(), Some((_, Started))));
    assert!(matches!(e.next(), Some((ref s, StageStarted)) if s.stage == 0 && !s.at_verification));
    assert!(matches!(e.next(), Some((ref s, StageCompleted(None))) if s.stage == 0));
    assert!(matches!(e.next(), Some((ref s, StageStarted)) if s.stage == 1 && !s.at_verification));
    assert!(matches!(e.next(), Some((ref s, StageCompleted(None))) if s.stage == 1));
    assert!(matches!(e.next(), Some((ref s, StageStarted)) if s.stage == 2 && !s.at_verification));
    assert!(matches!(e.next(), Some((ref s, StageCompleted(None))) if s.stage == 2));
    assert!(matches!(e.next(), Some((ref s, StageStarted)) if s.stage == 2 && s.at_verification));
    assert!(matches!(e.next(), Some((ref s, StageCompleted(None))) if s.stage == 2));
    assert!(matches!(e.next(), Some((_, Completed(None)))));
    assert!(e.next().is_none());
    assert_eq!(state.retries_left, 3);
    assert_eq!(storage.total_written + storage.total_read, 0);
}

#[test]
fn test_wiping_without_verification_reads_nothing() {
    let mut storage = InMemoryStorage::new(10000);
    let mut receiver = StubReceiver::new();
    let task = WipeTask::new(scheme_called("badblocks"), Verify::No, 10000, 4096).unwrap();
    let mut state = WipeState::default();

    assert!(task.run(&mut storage, &mut state, &mut receiver));

    assert_eq!(storage.total_read, 0);
    assert_eq!(storage.total_written, 40000);
    assert_eq!(storage.flushes, 4);
    assert!(storage.file.get_ref().iter().all(|x| *x == 0x00));
    let started = receiver
        .collected
        .iter()
        .filter(|(_, event)| matches!(event, StageStarted))
        .count();
    assert_eq!(started, 4);
}

#[test]
fn test_wiping_verifies_every_stage_when_asked() {
    let mut storage = InMemoryStorage::new(10000);
    let mut receiver = StubReceiver::new();
    let task = WipeTask::new(scheme_called("badblocks"), Verify::All, 10000, 4096).unwrap();
    let mut state = WipeState::default();

    assert!(task.run(&mut storage, &mut state, &mut receiver));

    assert_eq!(storage.total_read, 40000);
    assert_eq!(storage.total_written, 40000);
}

#[test]
fn test_wiping_leaves_the_last_pattern_on_good_blocks() {
    let seed = [7u8; 32];
    let scheme = Scheme {
        description: "zero, then seeded".to_string(),
        stages: vec![Stage::zero(), Stage::random_with_seed(seed)],
    };
    let mut storage = InMemoryStorage::new(100000);
    storage.fail_at(40000);
    let mut receiver = StubReceiver::new();
    let task = WipeTask::new(scheme, Verify::All, 100000, 32768).unwrap();
    let mut state = WipeState::default();

    assert!(task.run(&mut storage, &mut state, &mut receiver));

    let mut expected = vec![0u8; 100000];
    let mut stream = Stage::random_with_seed(seed).stream(100000, 32768, 0);
    let mut position = 0;
    while let Some(chunk) = stream.next() {
        expected[position..position + chunk.len()].copy_from_slice(chunk);
        position += chunk.len();
    }
    let bytes = storage.file.get_ref();
    assert!(state.bad_blocks.is_marked(1));
    assert_eq!(bytes[..32768], expected[..32768]);
    assert_eq!(bytes[65536..], expected[65536..]);
    assert!(bytes[32768..65536].iter().all(|x| *x == 0xff));
}

#[test]
fn test_progress_stays_within_the_device_and_only_grows_within_a_phase() {
    let mut storage = InMemoryStorage::new(100001);
    storage.fail_at(70000);
    storage.fail_after_any(120000);
    let mut receiver = StubReceiver::new();
    let task = WipeTask::new(scheme_called("random2x"), Verify::All, 100001, 4096).unwrap();
    let mut state = WipeState::default();
    state.retries_left = 2;

    task.run(&mut storage, &mut state, &mut receiver);

    let mut last = 0;
    let mut marked = 0;
    let mut ends = 0;
    for (seen, event) in receiver.collected.iter() {
        match event {
            StageStarted => {
                last = seen.position;
                ends = 0;
            }
            Progress(position) => {
                assert_eq!(*position, seen.position);
                assert!(*position <= 100001);
                assert!(*position >= last);
                last = *position;
                if *position == 100001 {
                    ends += 1;
                    assert_eq!(ends, 1);
                }
            }
            _ => {}
        }
        assert!(seen.bad_blocks.total_marked() >= marked);
        marked = seen.bad_blocks.total_marked();
    }
}

#[test]
fn test_wiping_storage_with_every_block_marked_touches_nothing() {
    let mut storage = InMemoryStorage::new(100000);
    storage.fail_after_any(1);
    let mut receiver = StubReceiver::new();
    let task = WipeTask::new(scheme_called("random"), Verify::Last, 100000, 32768).unwrap();
    let mut state = WipeState::default();
    for index in 0..4 {
        state.bad_blocks.mark(index);
    }

    assert!(task.run(&mut storage, &mut state, &mut receiver));
    assert!(task_untouched(&storage));
    assert_eq!(state.bad_blocks.total_marked(), 4);
}

fn task_untouched(storage: &InMemoryStorage) -> bool {
    storage.total_read + storage.total_written == 0
        && storage.file.get_ref().iter().all(|x| *x == 0xff)
}

#[test]
fn test_failure_is_shared_between_stage_and_wipe() {
    let mut storage = InMemoryStorage::new(100000);
    storage.fail_after_any(50000);
    let mut receiver = StubReceiver::new();
    let task = WipeTask::new(scheme_called("zero"), Verify::No, 100000, 32768).unwrap();
    let mut state = WipeState::default();

    assert!(!task.run(&mut storage, &mut state, &mut receiver));

    let count = receiver.collected.len();
    let stage = match &receiver.collected[count - 2].1 {
        StageCompleted(Some(error)) => error.clone(),
        other => panic!("unexpected {:?}", other),
    };
    let wipe = match &receiver.collected[count - 1].1 {
        Completed(Some(error)) => error.clone(),
        other => panic!("unexpected {:?}", other),
    };
    assert!(std::rc::Rc::ptr_eq(&stage, &wipe));
    assert!(matches!(*wipe, WipeError::Io(_)));
    assert_eq!(underlying_io_error_kind(&wipe), Some(ErrorKind::Other));
    assert_eq!(wipe.message(), "Mocked IO failure");
}

#[test]
fn test_verification_mismatch_is_reported() {
    let mut storage = Forgetful {
        inner: InMemoryStorage::new(8192),
    };
    let mut receiver = StubReceiver::new();
    let task = WipeTask::new(scheme_called("zero"), Verify::Last, 8192, 4096).unwrap();
    let mut state = WipeState::default();

    assert!(!task.run(&mut storage, &mut state, &mut receiver));

    match &receiver.collected.last().unwrap().1 {
        Completed(Some(error)) => {
            assert!(matches!(**error, WipeError::VerificationMismatch));
            assert_eq!(error.message(), "Verification failed!");
            assert_eq!(underlying_io_error_kind(error), None);
        }
        other => panic!("unexpected {:?}", other),
    }
}

#[test]
fn test_seek_failure_marks_the_block() {
    let mut storage = Stuck {
        inner: InMemoryStorage::new(16384),
        stuck_at: 0,
    };
    let mut receiver = StubReceiver::new();
    let task = WipeTask::new(scheme_called("zero"), Verify::No, 16384, 4096).unwrap();
    let mut state = WipeState::default();

    assert!(task.run(&mut storage, &mut state, &mut receiver));

    let mut e = receiver.collected.iter();
    assert!(matches!(e.next(), Some((_, Started))));
    assert!(matches!(e.next(), Some((_, StageStarted))));
    assert!(matches!(e.next(), Some((_, Progress(0)))));
    assert!(matches!(e.next(), Some((_, MarkBlockAsBad(0)))));
    assert!(matches!(e.next(), Some((_, Progress(4096)))));
    assert!(matches!(e.next(), Some((_, Progress(8192)))));
    let bytes = storage.inner.file.get_ref();
    assert!(bytes[..4096].iter().all(|x| *x == 0xff));
    assert!(bytes[4096..].iter().all(|x| *x == 0x00));
    assert!(state.bad_blocks.is_marked(0));
}

#[test]
fn test_decisions() {
    assert_eq!(after_failure(0), AfterFailure::GiveUp);
    assert_eq!(after_failure(1), AfterFailure::Retry);
    assert!(!have_to_verify(Verify::No, 2, 3));
    assert!(have_to_verify(Verify::Last, 2, 3));
    assert!(!have_to_verify(Verify::Last, 1, 3));
    assert!(have_to_verify(Verify::All, 0, 3));
    assert!(same_bytes(&[1, 2, 3], &[1, 2, 3]));
    assert!(!same_bytes(&[1, 2, 3], &[1, 2, 4]));
    assert!(!same_bytes(&[1, 2, 3], &[1, 2]));
    assert!(same_bytes(&[], &[]));
}

#[test]
fn test_wipe_error_messages() {
    assert_eq!(WipeError::BadBlock.message(), "bad block");
    assert_eq!(
        WipeError::TaskInvalid.message(),
        "Number of blocks in this device is more than 2^32. Try using a bigger block size."
    );
    let cause = std::io::Error::new(ErrorKind::NotFound, "gone");
    let error = WipeError::from_storage(StorageError::Other(cause));
    assert_eq!(underlying_io_error_kind(&error), Some(ErrorKind::NotFound));
    assert!(matches!(
        WipeError::from_storage(StorageError::BadBlock),
        WipeError::BadBlock
    ));
}

#[test]
fn test_verify_from_name() {
    assert_eq!(Verify::from_name("no"), Verify::No);
    assert_eq!(Verify::from_name("last"), Verify::Last);
    assert_eq!(Verify::from_name("all"), Verify::All);
    assert_eq!(Verify::from_name("ALL"), Verify::Last);
    assert_eq!(Verify::from_name(""), Verify::Last);
}

#[test]
fn test_wiping_with_blocks_of_any_size() {
    for block_size in [1usize, 3, 1000, 4096, 100000, 250000] {
        for verify in [Verify::No, Verify::Last, Verify::All] {
            let mut storage = InMemoryStorage::new(100000);
            let mut receiver = StubReceiver::new();
            let task = WipeTask::new(scheme_called("dod"), verify, 100000, block_size).unwrap();
            let mut state = WipeState::default();
            if block_size == 1 && verify == Verify::All {
                continue;
            }
            assert!(task.run(&mut storage, &mut state, &mut receiver));
            assert_eq!(state.position, 100000);
            assert_eq!(state.stage, 2);
            assert_eq!(state.at_verification, verify != Verify::No);
            assert_eq!(storage.total_written, 300000);
        }
    }
}

#[test]
fn test_wiping_through_a_trait_object() {
    let mut storage = InMemoryStorage::new(5000);
    let mut receiver = StubReceiver::new();
    let task = WipeTask::new(scheme_called("zero"), Verify::Last, 5000, 512).unwrap();
    let mut state = WipeState::default();
    {
        let access: &mut dyn StorageAccess = &mut storage;
        let frontend: &mut dyn WipeEventReceiver = &mut receiver;
        assert!(task.run(access, &mut state, frontend));
    }
    assert!(storage.file.get_ref().iter().all(|x| *x == 0));
    assert!(matches!(receiver.collected.last(), Some((_, Completed(None)))));
}

#[test]
fn test_retries_are_used_up_one_by_one() {
    let mut storage = InMemoryStorage::new(10000);
    for amount in [1000, 5000, 9000, 13000] {
        storage.fail_after_any(amount);
    }
    let mut receiver = StubReceiver::new();
    let task = WipeTask::new(scheme_called("zero"), Verify::No, 10000, 4096).unwrap();
    let mut state = WipeState::default();
    state.retries_left = 2;

    assert!(!task.run(&mut storage, &mut state, &mut receiver));

    assert_eq!(state.retries_left, 0);
    let retried = receiver
        .collected
        .iter()
        .filter(|(_, event)| matches!(event, Retrying))
        .count();
    assert_eq!(retried, 2);
    let left: Vec<u32> = receiver
        .collected
        .iter()
        .filter(|(_, event)| matches!(event, StageCompleted(Some(_))))
        .map(|(seen, _)| seen.retries_left)
        .collect();
    assert_eq!(left, vec![2, 1, 0]);
}

#[test]
fn test_bad_tail_block_is_marked() {
    let mut storage = InMemoryStorage::new(10000);
    storage.fail_at(9000);
    let mut receiver = StubReceiver::new();
    let task = WipeTask::new(scheme_called("zero"), Verify::Last, 10000, 4096).unwrap();
    let mut state = WipeState::default();

    assert!(task.run(&mut storage, &mut state, &mut receiver));

    assert!(state.bad_blocks.is_marked(2));
    assert_eq!(state.bad_blocks.total_marked(), 1);
    let bytes = storage.file.get_ref();
    assert!(bytes[..8192].iter().all(|x| *x == 0));
    assert!(bytes[8192..].iter().all(|x| *x == 0xff));
    let marks: Vec<u64> = receiver
        .collected
        .iter()
        .filter_map(|(_, event)| match event {
            MarkBlockAsBad(offset) => Some(*offset),
            _ => None,
        })
        .collect();
    assert_eq!(marks, vec![8192]);
}

#[test]
fn test_task_without_stages_completes_at_once() {
    let mut storage = InMemoryStorage::new(100);
    let mut receiver = StubReceiver::new();
    let scheme = Scheme {
        description: "nothing".to_string(),
        stages: vec![],
    };
    let task = WipeTask::new(scheme, Verify::All, 100, 10).unwrap();
    let mut state = WipeState::default();
    state.position = 77;

    assert!(task.run(&mut storage, &mut state, &mut receiver));

    assert_eq!(receiver.collected.len(), 2);
    assert!(matches!(receiver.collected[0].1, Started));
    assert!(matches!(receiver.collected[1].1, Completed(None)));
    assert_eq!(state.position, 77);
}

#[test]
fn test_share_of_blocks() {
    assert_eq!(share_of_blocks(0, 100000, 32768), 0);
    assert_eq!(share_of_blocks(1, 100000, 32768), 33);
    assert_eq!(share_of_blocks(3, 100000, 32768), 100);
    assert_eq!(share_of_blocks(4, 100000, 32768), 133);
    assert_eq!(share_of_blocks(4, 100, 32768), 0);
    assert_eq!(share_of_blocks(u32::MAX, u64::MAX, 1), 0);
    assert_eq!(share_of_blocks(u32::MAX, 1, 1), 429496729500);
    assert!(is_device_busy(Some(16)));
    assert!(!is_device_busy(Some(5)));
    assert!(!is_device_busy(None));
}

#[test]
fn test_device_answers_are_judged() {
    assert!(matches!(judge::<u64>(Ok(7)), Taken::Done));
    assert!(matches!(judge::<()>(Ok(())), Taken::Done));
    assert!(matches!(
        judge::<u64>(Err(StorageError::BadBlock)),
        Taken::BadBlock
    ));
    let cause = std::io::Error::new(ErrorKind::PermissionDenied, "no");
    match judge::<()>(Err(StorageError::Other(cause))) {
        Taken::Failed(WipeError::Io(error)) => assert_eq!(error.kind(), ErrorKind::PermissionDenied),
        other => panic!("unexpected {:?}", other),
    }
}

#[test]
fn test_bad_block_on_read_fails_the_verification() {
    let mut storage = Unreadable {
        inner: InMemoryStorage::new(8192),
        flush_fails: false,
    };
    let mut receiver = StubReceiver::new();
    let task = WipeTask::new(scheme_called("zero"), Verify::Last, 8192, 4096).unwrap();
    let mut state = WipeState::default();

    assert!(!task.run(&mut storage, &mut state, &mut receiver));

    match &receiver.collected.last().unwrap().1 {
        Completed(Some(error)) => {
            assert!(matches!(**error, WipeError::BadBlock));
            assert_eq!(error.message(), "bad block");
        }
        other => panic!("unexpected {:?}", other),
    }
    assert_eq!(state.bad_blocks.total_marked(), 0);
    assert!(state.at_verification);
    assert_eq!(state.position, 0);
    assert!(storage.inner.file.get_ref().iter().all(|x| *x == 0));
}

#[test]
fn test_failing_flush_fails_the_attempt() {
    let mut storage = Unreadable {
        inner: InMemoryStorage::new(8192),
        flush_fails: true,
    };
    let mut receiver = StubReceiver::new();
    let task = WipeTask::new(scheme_called("zero"), Verify::No, 8192, 4096).unwrap();
    let mut state = WipeState::default();

    assert!(!task.run(&mut storage, &mut state, &mut receiver));

    let mut e = receiver.collected.iter();
    assert!(matches!(e.next(), Some((_, Started))));
    assert!(matches!(e.next(), Some((_, StageStarted))));
    assert!(matches!(e.next(), Some((_, Progress(0)))));
    assert!(matches!(e.next(), Some((_, Progress(4096)))));
    assert!(matches!(e.next(), Some((_, Progress(8192)))));
    assert!(matches!(e.next(), Some((_, StageCompleted(Some(_))))));
    assert!(matches!(e.next(), Some((_, Completed(Some(_))))));
    assert!(e.next().is_none());
}

#[test]
fn test_retry_at_the_end_has_nothing_left_to_write() {
    let mut storage = Unreadable {
        inner: InMemoryStorage::new(8192),
        flush_fails: true,
    };
    let mut receiver = StubReceiver::new();
    let task = WipeTask::new(scheme_called("zero"), Verify::No, 8192, 4096).unwrap();
    let mut state = WipeState::default();
    state.retries_left = 1;

    assert!(task.run(&mut storage, &mut state, &mut receiver));

    let mut e = receiver.collected.iter();
    assert!(matches!(e.next(), Some((_, Started))));
    assert!(matches!(e.next(), Some((_, StageStarted))));
    assert!(matches!(e.next(), Some((_, Progress(0)))));
    assert!(matches!(e.next(), Some((_, Progress(4096)))));
    assert!(matches!(e.next(), Some((_, Progress(8192)))));
    assert!(matches!(e.next(), Some((_, StageCompleted(Some(_))))));
    assert!(matches!(e.next(), Some((_, Retrying))));
    assert!(matches!(e.next(), Some((_, StageStarted))));
    assert!(matches!(e.next(), Some((_, Progress(8192)))));
    assert!(matches!(e.next(), Some((_, StageCompleted(None)))));
    assert!(matches!(e.next(), Some((_, Completed(None)))));
    assert_eq!(state.retries_left, 0);
    assert_eq!(storage.inner.total_written, 8192);
}

#[test]
fn test_every_answer_that_ends_an_attempt_costs_a_retry() {
    for (failures, retries, succeeds, left) in [
        (vec![], 3u32, true, 3u32),
        (vec![1000], 3, true, 2),
        (vec![1000, 5000, 9000], 3, true, 0),
        (vec![1000, 5000, 9000, 13000], 3, false, 0),
        (vec![1000], 0, false, 0),
    ] {
        let mut inner = InMemoryStorage::new(10000);
        for amount in failures.iter() {
            inner.fail_after_any(*amount);
        }
        let mut storage = Minuted::new(inner);
        let mut receiver = StubReceiver::new();
        let task = WipeTask::new(scheme_called("zero"), Verify::No, 10000, 4096).unwrap();
        let mut state = WipeState::default();
        state.retries_left = retries;

        assert_eq!(task.run(&mut storage, &mut state, &mut receiver), succeeds);

        assert_eq!(state.retries_left, left);
        let used = (retries - left) as usize + if succeeds { 0 } else { 1 };
        assert_eq!(storage.ends_of_attempts(), used);
        assert_eq!(storage.ends_of_attempts(), failures.len());
        if !succeeds {
            let (_, came) = storage.minutes.last().unwrap();
            assert_eq!(*came, Came::Failed);
        }
        assert!(storage
            .minutes
            .iter()
            .all(|(asked, _)| !matches!(asked, Asked::Read(_))));
    }
}

#[test]
fn test_blocks_are_marked_as_the_device_refuses_them() {
    let mut inner = InMemoryStorage::new(100000);
    inner.fail_at(50000);
    inner.fail_at(99000);
    let mut storage = Minuted::new(inner);
    let mut receiver = StubReceiver::new();
    let task = WipeTask::new(scheme_called("zero"), Verify::All, 100000, 32768).unwrap();
    let mut state = WipeState::default();
    state.retries_left = 2;

    assert!(task.run(&mut storage, &mut state, &mut receiver));

    assert_eq!(state.retries_left, 2);
    assert_eq!(storage.ends_of_attempts(), 0);
    let refused = storage.refused(32768);
    assert_eq!(refused, vec![1, 3]);
    assert_eq!(state.bad_blocks.total_marked(), 2);
    for block in refused.iter() {
        assert!(state.bad_blocks.is_marked(*block));
    }
    for at in [0u64, 65536] {
        let len = 32768;
        assert!(storage.minutes.iter().any(|(asked, came)| *came == Came::Done
            && *asked == Asked::Write(at, vec![0u8; len])));
        assert!(storage
            .minutes
            .iter()
            .any(|(asked, came)| *came == Came::Done && *asked == Asked::Read(at)));
    }
    for (asked, _) in storage.minutes.iter() {
        if let Asked::Read(at) = asked {
            assert_eq!(at % 32768, 0);
            assert!(!refused.contains(&((at / 32768) as u32)));
        }
    }
    let bytes = storage.inner.file.get_ref();
    assert!(bytes[..32768].iter().all(|x| *x == 0));
    assert!(bytes[65536..98304].iter().all(|x| *x == 0));
    assert!(bytes[32768..65536].iter().all(|x| *x == 0xff));
}

#[test]
fn test_a_mismatch_is_found_at_a_read_that_the_device_answered() {
    let inner = InMemoryStorage::new(10000);
    let mut storage = Minuted::new(inner);
    let mut forgetful = ForgetfulMinuted { inner: &mut storage };
    let mut receiver = StubReceiver::new();
    let task = WipeTask::new(scheme_called("zero"), Verify::Last, 10000, 4096).unwrap();
    let mut state = WipeState::default();
    state.retries_left = 1;

    assert!(!task.run(&mut forgetful, &mut state, &mut receiver));

    assert_eq!(state.retries_left, 0);
    assert_eq!(storage.ends_of_attempts(), 0);
    let (asked, came) = storage.minutes.last().unwrap();
    assert!(matches!(asked, Asked::Read(_)));
    assert_eq!(*came, Came::Done);
    assert!(matches!(
        receiver.collected.last(),
        Some((_, Completed(Some(error)))) if matches!(**error, WipeError::VerificationMismatch)
    ));
}

#[test]
fn test_the_wipe_keeps_within_the_device() {
    for verify in [Verify::No, Verify::Last, Verify::All] {
        let reads_asked = !matches!(verify, Verify::No);
        let mut storage = Minuted::new(InMemoryStorage::new(20000));
        let mut receiver = StubReceiver::new();
        let task = WipeTask::new(scheme_called("dod"), verify, 10000, 4096).unwrap();
        let mut state = WipeState::default();

        assert!(task.run(&mut storage, &mut state, &mut receiver));

        let mut read = false;
        for (asked, _) in storage.minutes.iter() {
            match asked {
                Asked::Seek(position) => assert!(*position <= 10000),
                Asked::Write(at, data) => assert!(*at + data.len() as u64 <= 10000),
                Asked::Read(at) => {
                    assert!(reads_asked);
                    assert!(*at < 10000);
                    read = true;
                }
                Asked::Flush => {}
            }
        }
        assert_eq!(read, reads_asked);
        let bytes = storage.inner.file.get_ref();
        assert!(bytes[..10000].iter().any(|x| *x != 0xff));
        assert!(bytes[10000..].iter().all(|x| *x == 0xff));
    }
}

#[test]
fn test_a_failed_write_phase_stands_where_the_write_failed() {
    let mut inner = InMemoryStorage::new(100000);
    inner.fail_after_any(50000);
    let mut storage = Minuted::new(inner);
    let mut receiver = StubReceiver::new();
    let task = WipeTask::new(scheme_called("zero"), Verify::Last, 100000, 32768).unwrap();
    let mut state = WipeState::default();

    assert!(!task.run(&mut storage, &mut state, &mut receiver));

    assert_eq!(state.position, 32768);
    assert_eq!(state.bad_blocks.total_marked(), 0);
    let (asked, came) = storage.minutes.last().unwrap();
    assert!(matches!(asked, Asked::Write(32768, _)));
    assert_eq!(*came, Came::Failed);
    let bytes = storage.inner.file.get_ref();
    assert!(bytes[..32768].iter().all(|x| *x == 0));
    assert!(bytes[32768..].iter().all(|x| *x == 0xff));
    let failed: Vec<u64> = receiver
        .collected
        .iter()
        .filter(|(_, event)| matches!(event, StageCompleted(Some(_))))
        .map(|(seen, _)| seen.position)
        .collect();
    assert_eq!(failed, vec![32768]);
}

#[test]
fn test_each_good_block_is_read_once_and_in_order() {
    let mut inner = InMemoryStorage::new(100000);
    inner.fail_at(50000);
    let mut storage = Minuted::new(inner);
    let mut receiver = StubReceiver::new();
    let task = WipeTask::new(scheme_called("random"), Verify::Last, 100000, 32768).unwrap();
    let mut state = WipeState::default();
    state.retries_left = 8;

    assert!(task.run(&mut storage, &mut state, &mut receiver));

    let reads: Vec<u64> = storage
        .minutes
        .iter()
        .filter_map(|(asked, _)| match asked {
            Asked::Read(at) => Some(*at),
            _ => None,
        })
        .collect();
    assert_eq!(reads, vec![0, 65536, 98304]);
    assert_eq!(storage.inner.total_read, 67232);
    assert_eq!(state.retries_left, 8);
    for (i, (asked, _)) in storage.minutes.iter().enumerate() {
        if let Asked::Read(at) = asked {
            assert!(storage.minutes[..i].iter().any(|(earlier, came)| *came == Came::Done
                && matches!(earlier, Asked::Write(place, _) if place == at)));
        }
    }
}

#[test]
fn test_nothing_is_read_where_nothing_was_written() {
    let mut inner = InMemoryStorage::new(100000);
    for position in [0u64, 32768, 65536, 98304] {
        inner.fail_at(position);
    }
    let mut storage = Minuted::new(inner);
    let mut receiver = StubReceiver::new();
    let task = WipeTask::new(scheme_called("random"), Verify::Last, 100000, 32768).unwrap();
    let mut state = WipeState::default();
    state.retries_left = 8;

    assert!(task.run(&mut storage, &mut state, &mut receiver));

    assert_eq!(state.retries_left, 8);
    assert_eq!(state.bad_blocks.total_marked(), 4);
    assert!(storage
        .minutes
        .iter()
        .all(|(asked, came)| !matches!(asked, Asked::Read(_)) && *came != Came::Failed));
    assert_eq!(storage.refused(32768), vec![0, 1, 2, 3]);
    assert!(storage.inner.file.get_ref().iter().all(|x| *x == 0xff));
}

#[test]
fn test_a_second_wipe_of_marked_blocks_reports_no_marking() {
    let mut inner = InMemoryStorage::new(100000);
    for position in [0u64, 32768, 65536, 98304] {
        inner.fail_at(position);
    }
    let mut storage = Minuted::new(inner);
    let mut state = WipeState::default();
    state.retries_left = 2;
    let mut first = StubReceiver::new();
    let task = WipeTask::new(scheme_called("zero"), Verify::No, 100000, 32768).unwrap();
    assert!(task.run(&mut storage, &mut state, &mut first));
    let marked: Vec<u64> = first
        .collected
        .iter()
        .filter_map(|(_, event)| match event {
            MarkBlockAsBad(offset) => Some(*offset),
            _ => None,
        })
        .collect();
    assert_eq!(marked, vec![0, 32768, 65536, 98304]);
    assert_eq!(state.bad_blocks.total_marked(), 4);
    let asked_before = storage.minutes.len();

    let mut second = StubReceiver::new();
    let task = WipeTask::new(scheme_called("zero"), Verify::No, 100000, 32768).unwrap();
    assert!(task.run(&mut storage, &mut state, &mut second));

    assert_eq!(storage.minutes.len(), asked_before);
    assert_eq!(state.bad_blocks.total_marked(), 4);
    assert_eq!(state.retries_left, 2);
    let mut e = second.collected.iter();
    assert!(matches!(e.next(), Some((_, Started))));
    assert!(matches!(e.next(), Some((_, StageStarted))));
    for position in [0u64, 32768, 65536, 98304, 100000] {
        assert!(matches!(e.next(), Some((_, Progress(p))) if *p == position));
    }
    assert!(matches!(e.next(), Some((_, StageCompleted(None)))));
    assert!(matches!(e.next(), Some((_, Completed(None)))));
    assert!(e.next().is_none());
}

#[test]
fn test_progress_is_reported_block_by_block() {
    for (failures, bad, verify) in [
        (vec![], vec![], Verify::All),
        (vec![50000usize], vec![], Verify::Last),
        (vec![150000], vec![], Verify::Last),
        (vec![], vec![50000u64], Verify::Last),
        (vec![40000, 170000], vec![0, 99000], Verify::All),
    ] {
        let mut storage = InMemoryStorage::new(100000);
        for amount in failures.iter() {
            storage.fail_after_any(*amount);
        }
        for position in bad.iter() {
            storage.fail_at(*position);
        }
        let mut receiver = StubReceiver::new();
        let task = WipeTask::new(scheme_called("dod"), verify, 100000, 32768).unwrap();
        let mut state = WipeState::default();
        state.retries_left = 3;
        task.run(&mut storage, &mut state, &mut receiver);

        let mut marked: Vec<u32> = Vec::new();
        for pair in receiver.collected.windows(2) {
            let (before, earlier) = &pair[0];
            let (now, later) = &pair[1];
            match (earlier, later) {
                (Progress(_), Progress(p)) | (MarkBlockAsBad(_), Progress(p)) => {
                    assert_eq!(*p, std::cmp::min(before.position + 32768, 100000));
                    assert_eq!(now.position, *p);
                }
                (StageStarted, Progress(p)) => assert_eq!(*p, before.position),
                (_, MarkBlockAsBad(offset)) => {
                    assert!(matches!(earlier, Progress(p) if p == offset));
                    let block = (*offset / 32768) as u32;
                    assert!(!marked.contains(&block));
                    marked.push(block);
                }
                _ => {}
            }
        }
    }
}
