use lethe::actions::marker::BlockMarker;
use lethe::actions::marker::RoaringBlockMarker;
use lethe::actions::recorder::Recorder;
use lethe::actions::wipe::Verify;
use lethe::actions::wipe::WipeEvent;
use lethe::actions::wipe::WipeState;
use lethe::actions::wipe::WipeTask;
use lethe::sanitization::scheme::SchemeRepo;
use lethe::storage::memory::MemoryStorage;
use lethe::storage::StorageAccess;
use lethe::storage::StorageError;

#[test]
fn test_memory_storage_reads_what_it_holds() {
    let mut storage = MemoryStorage::with_bytes((0..=255u8).collect());
    let mut buffer = [0u8; 4];
    assert_eq!(storage.position().unwrap(), 0);
    assert_eq!(storage.read(&mut buffer).unwrap(), 4);
    assert_eq!(buffer, [0, 1, 2, 3]);
    assert_eq!(storage.position().unwrap(), 4);
    assert_eq!(storage.seek(254).unwrap(), 254);
    assert_eq!(storage.read(&mut buffer).unwrap(), 2);
    assert_eq!(buffer, [254, 255, 2, 3]);
    assert_eq!(storage.position().unwrap(), 256);
    assert_eq!(storage.read(&mut buffer).unwrap(), 0);
    assert_eq!(storage.seek(1000).unwrap(), 1000);
    assert_eq!(storage.read(&mut buffer).unwrap(), 0);
    assert_eq!(storage.position().unwrap(), 1000);
    assert_eq!(storage.bytes().len(), 256);
}

#[test]
fn test_memory_storage_writes_within_its_bounds() {
    let mut storage = MemoryStorage::new(8, 0xff);
    assert_eq!(storage.bytes(), &vec![0xff; 8]);
    storage.seek(2).unwrap();
    storage.write(&[1, 2, 3]).unwrap();
    assert_eq!(storage.position().unwrap(), 5);
    assert_eq!(storage.bytes(), &vec![0xff, 0xff, 1, 2, 3, 0xff, 0xff, 0xff]);
    storage.write(&[4, 5, 6]).unwrap();
    assert_eq!(storage.position().unwrap(), 8);
    assert!(matches!(storage.write(&[7]), Err(StorageError::Other(_))));
    assert_eq!(storage.position().unwrap(), 8);
    storage.write(&[]).unwrap();
    storage.seek(7).unwrap();
    assert!(matches!(storage.write(&[8, 9]), Err(StorageError::Other(_))));
    assert_eq!(storage.bytes(), &vec![0xff, 0xff, 1, 2, 3, 4, 5, 6]);
    storage.seek(9).unwrap();
    assert!(storage.write(&[]).is_err());
    assert!(storage.flush().is_ok());
}

#[test]
fn test_wiping_memory_with_a_recorder() {
    let schemes = SchemeRepo::default();
    let mut storage = MemoryStorage::new(10000, 0xff);
    let mut recorder = Recorder::new();
    let task = WipeTask::new(
        schemes.find("badblocks").unwrap().clone(),
        Verify::All,
        10000,
        4096,
    )
    .unwrap();
    let mut state = WipeState::default();
    state.bad_blocks.mark(1);

    assert!(task.run(&mut storage, &mut state, &mut recorder));

    let bytes = storage.bytes();
    assert!(bytes[..4096].iter().all(|x| *x == 0));
    assert!(bytes[4096..8192].iter().all(|x| *x == 0xff));
    assert!(bytes[8192..].iter().all(|x| *x == 0));
    let seen = recorder.seen();
    assert!(matches!(seen[0].event, WipeEvent::Started));
    assert!(matches!(seen[seen.len() - 1].event, WipeEvent::Completed(None)));
    let progress: Vec<u64> = seen
        .iter()
        .take(7)
        .filter_map(|s| match s.event {
            WipeEvent::Progress(position) => Some(position),
            _ => None,
        })
        .collect();
    assert_eq!(progress, vec![0, 4096, 8192, 10000]);
    assert!(seen.iter().all(|s| s.state.bad_blocks.is_marked(1)));
    assert_eq!(seen.len(), 1 + 4 * 2 * 6 + 1);
}

#[test]
fn test_wiping_memory_that_is_too_small_fails() {
    let schemes = SchemeRepo::default();
    let mut storage = MemoryStorage::new(5000, 0xff);
    let mut recorder = Recorder::new();
    let task = WipeTask::new(schemes.find("zero").unwrap().clone(), Verify::No, 10000, 4096).unwrap();
    let mut state = WipeState::default();
    state.retries_left = 1;

    assert!(!task.run(&mut storage, &mut state, &mut recorder));

    assert_eq!(state.retries_left, 0);
    assert_eq!(state.position, 4096);
    assert!(storage.bytes()[..4096].iter().all(|x| *x == 0));
    assert!(storage.bytes()[4096..].iter().all(|x| *x == 0xff));
    assert!(matches!(
        recorder.seen().last().unwrap().event,
        WipeEvent::Completed(Some(_))
    ));
}

#[test]
fn test_marker_duplicate() {
    let mut marker = RoaringBlockMarker::new();
    marker.mark(3);
    let copy = marker.duplicate();
    marker.mark(4);
    assert!(copy.is_marked(3));
    assert!(!copy.is_marked(4));
    assert_eq!(copy.total_marked(), 1);
    assert_eq!(marker.total_marked(), 2);
}

#[test]
fn test_wiping_an_obliging_device_uses_no_retry_and_marks_no_block() {
    let schemes = SchemeRepo::default();
    for name in ["zero", "badblocks", "dod", "vsitr", "random2x"] {
        for (size, total, block) in [(100000usize, 100000u64, 32768usize), (9000, 8192, 4096), (64, 61, 4)] {
            let mut storage = MemoryStorage::new(size, 0xff);
            let mut recorder = Recorder::new();
            let task =
                WipeTask::new(schemes.find(name).unwrap().clone(), Verify::All, total, block).unwrap();
            let mut state = WipeState::default();
            state.retries_left = 3;

            assert!(task.run(&mut storage, &mut state, &mut recorder));

            assert_eq!(state.retries_left, 3);
            assert_eq!(state.bad_blocks.total_marked(), 0);
            assert_eq!(state.position, total);
            let seen = recorder.seen();
            assert!(seen
                .iter()
                .all(|s| !matches!(s.event, WipeEvent::Retrying | WipeEvent::MarkBlockAsBad(_))));
            assert!(storage.bytes()[total as usize..].iter().all(|x| *x == 0xff));
            if name == "zero" || name == "badblocks" {
                assert!(storage.bytes()[..total as usize].iter().all(|x| *x == 0));
            }
        }
    }
}

#[test]
fn test_a_plain_wipe_reports_every_block_once() {
    let schemes = SchemeRepo::default();
    let mut storage = MemoryStorage::new(100000, 0xff);
    let mut recorder = Recorder::new();
    let task = WipeTask::new(schemes.find("zero").unwrap().clone(), Verify::Last, 100000, 32768).unwrap();
    let mut state = WipeState::default();
    state.retries_left = 8;

    assert!(task.run(&mut storage, &mut state, &mut recorder));

    let seen = recorder.seen();
    assert_eq!(seen.len(), 16);
    assert!(matches!(seen[0].event, WipeEvent::Started));
    for (first, checking) in [(1usize, false), (8, true)] {
        assert!(matches!(seen[first].event, WipeEvent::StageStarted));
        assert_eq!(seen[first].state.at_verification, checking);
        assert_eq!(seen[first].state.position, 0);
        for (k, position) in [0u64, 32768, 65536, 98304, 100000].iter().enumerate() {
            let report = &seen[first + 1 + k];
            assert!(matches!(report.event, WipeEvent::Progress(p) if p == *position));
            assert_eq!(report.state.position, *position);
            assert_eq!(report.state.at_verification, checking);
        }
        assert!(matches!(seen[first + 6].event, WipeEvent::StageCompleted(None)));
        assert_eq!(seen[first + 6].state.position, 100000);
    }
    assert!(matches!(seen[15].event, WipeEvent::Completed(None)));
    assert!(seen.iter().all(|s| s.state.retries_left == 8 && s.state.stage == 0));
    assert!(seen.iter().all(|s| s.state.bad_blocks.total_marked() == 0));
    assert!(storage.bytes().iter().all(|x| *x == 0));
}
