use lethe::storage::discovery::chars_of;
use lethe::storage::discovery::device_file_path;
use lethe::storage::discovery::device_paths;
use lethe::storage::discovery::drive_indices;
use lethe::storage::discovery::normalize_volume_path;
use lethe::storage::discovery::drive_type;
use lethe::storage::discovery::media_kind;
use lethe::storage::discovery::mount_point_in;
use lethe::storage::discovery::parse_property;
use lethe::storage::discovery::partition_name;
use lethe::storage::discovery::resolve_mount_point;
use lethe::storage::enrich_storage_details;
use lethe::storage::is_trim_supported;
use lethe::storage::lookup;
use lethe::storage::media_failure;
use lethe::storage::resolve_file_type;
use lethe::storage::resolve_storage_size;
use lethe::storage::DeviceRef;
use lethe::storage::FileRef;
use lethe::storage::FileType;
use lethe::storage::MediaType;
use lethe::storage::OsFamily;
use lethe::storage::Property;
use lethe::storage::StorageDetails;
use lethe::storage::StorageError;
use lethe::storage::StorageRef;
use lethe::storage::StorageType;
use lethe::ui::storage_repo::StorageRepo;
use std::io::Error;

fn property(key: &str, value: &str) -> Property {
    Property {
        key: key.to_string(),
        value: value.to_string(),
    }
}

fn device(id: &str, parts: Vec<DeviceRef>) -> DeviceRef {
    DeviceRef {
        id: id.to_string(),
        details: StorageDetails::default(),
        children: parts,
    }
}

#[test]
fn test_media_failures() {
    assert!(media_failure(OsFamily::Posix, 5));
    assert!(media_failure(OsFamily::Posix, 29));
    assert!(!media_failure(OsFamily::Posix, 16));
    assert!(!media_failure(OsFamily::Posix, 23));
    for code in [23, 25, 27, 29, 30] {
        assert!(media_failure(OsFamily::Windows, code));
    }
    assert!(!media_failure(OsFamily::Windows, 5));
    assert!(!media_failure(OsFamily::Windows, 0));
}

#[test]
fn test_errors_are_classified_by_their_code() {
    assert!(matches!(
        StorageError::from(Error::from_raw_os_error(5), OsFamily::Posix),
        StorageError::BadBlock
    ));
    assert!(matches!(
        StorageError::from(Error::from_raw_os_error(29), OsFamily::Posix),
        StorageError::BadBlock
    ));
    match StorageError::from(Error::from_raw_os_error(16), OsFamily::Posix) {
        StorageError::Other(error) => assert_eq!(error.raw_os_error(), Some(16)),
        StorageError::BadBlock => panic!("busy is no bad block"),
    }
    assert!(matches!(
        StorageError::from(Error::from_raw_os_error(5), OsFamily::Windows),
        StorageError::Other(_)
    ));
    assert!(matches!(
        StorageError::from(Error::from_raw_os_error(23), OsFamily::Windows),
        StorageError::BadBlock
    ));
    assert!(matches!(
        StorageError::from(Error::new(std::io::ErrorKind::Other, "no code"), OsFamily::Posix),
        StorageError::Other(_)
    ));
    assert!(matches!(
        StorageError::classify(None, OsFamily::Posix, Error::from_raw_os_error(5)),
        StorageError::Other(_)
    ));
    assert!(matches!(
        StorageError::classify(Some(5), OsFamily::Posix, Error::from_raw_os_error(1)),
        StorageError::BadBlock
    ));
    assert_eq!(StorageError::BadBlock.message(), "bad block");
    assert_eq!(
        StorageError::Other(Error::from_raw_os_error(1)).message(),
        "other i/o error"
    );
}

#[test]
fn test_file_types() {
    assert_eq!(resolve_file_type(0o100644), FileType::File);
    assert_eq!(resolve_file_type(0o060660), FileType::Block);
    assert_eq!(resolve_file_type(0o020620), FileType::Raw);
    assert_eq!(resolve_file_type(0o040755), FileType::Other);
    assert_eq!(resolve_storage_size(FileType::File, 10, 20), 10);
    assert_eq!(resolve_storage_size(FileType::Other, 10, 20), 10);
    assert_eq!(resolve_storage_size(FileType::Block, 10, 20), 20);
    assert_eq!(resolve_storage_size(FileType::Raw, 10, 20), 20);
}

#[test]
fn test_trim_support() {
    assert!(is_trim_supported(0x10));
    assert!(is_trim_supported(0xffff_ffff));
    assert!(!is_trim_supported(0));
    assert!(!is_trim_supported(0xffff_ffef));
}

#[test]
fn test_storage_type_names() {
    assert_eq!(StorageType::Unknown.name(), "Unknown");
    assert_eq!(StorageType::Removable.name(), "Removable");
    assert_eq!(StorageType::CD.name(), "CD");
    assert_eq!(StorageType::RAID.name(), "RAID");
}

#[test]
fn test_default_details() {
    let details = StorageDetails::default();
    assert_eq!(details.size, 0);
    assert_eq!(details.block_size, 0);
    assert_eq!(details.storage_type, StorageType::Unknown);
    assert_eq!(details.media_type, MediaType::Unknown);
    assert!(!details.is_trim_supported);
    assert!(details.serial.is_none());
    assert!(details.mount_point.is_none());
}

#[test]
fn test_lookup_takes_the_last_word() {
    let properties = vec![
        property("Whole", "Yes"),
        property("Mount Point", "/"),
        property("Whole", "No"),
    ];
    assert_eq!(lookup(&properties, "Whole").unwrap(), "No");
    assert_eq!(lookup(&properties, "Mount Point").unwrap(), "/");
    assert!(lookup(&properties, "Missing").is_none());
    assert!(lookup(&Vec::new(), "Whole").is_none());
}

#[test]
fn test_enrich_storage_details() {
    let mut details = StorageDetails::default();
    details.size = 77;
    enrich_storage_details(
        &vec![
            property("Whole", "No"),
            property("Removable Media", "Removable"),
            property("Mount Point", "/Volumes/x"),
        ],
        &mut details,
    );
    assert_eq!(details.storage_type, StorageType::Partition);
    assert_eq!(details.mount_point.as_deref(), Some("/Volumes/x"));
    assert_eq!(details.size, 77);

    enrich_storage_details(
        &vec![property("Whole", "Yes"), property("Removable Media", "Removable")],
        &mut details,
    );
    assert_eq!(details.storage_type, StorageType::Removable);
    assert!(details.mount_point.is_none());

    enrich_storage_details(&vec![property("Removable Media", "Fixed")], &mut details);
    assert_eq!(details.storage_type, StorageType::Fixed);

    enrich_storage_details(&vec![property("Removable Media", "fixed")], &mut details);
    assert_eq!(details.storage_type, StorageType::Unknown);

    enrich_storage_details(&Vec::new(), &mut details);
    assert_eq!(details.storage_type, StorageType::Unknown);
}

#[test]
fn test_file_ref() {
    let mut details = StorageDetails::default();
    details.size = 4096;
    let file = FileRef::new("/dev/sdz", details);
    assert_eq!(file.id(), "/dev/sdz");
    assert_eq!(file.details().size, 4096);
    let drive = device("/dev/sda", vec![]);
    assert_eq!(drive.id(), "/dev/sda");
    assert_eq!(drive.details().size, 0);
}

#[test]
fn test_storage_repo() {
    let repo = StorageRepo::from(vec![
        device(
            "/dev/sda",
            vec![device("/dev/sda1", vec![]), device("/dev/sda2", vec![])],
        ),
        device("/dev/sdb", vec![device("/dev/sdb1", vec![])]),
    ]);
    assert_eq!(repo.devices().len(), 2);
    assert_eq!(repo.devices()[1].id, "/dev/sdb");
    assert_eq!(repo.find_by_id("/dev/sda").unwrap().id, "/dev/sda");
    assert_eq!(repo.find_by_id("/dev/sda2").unwrap().id, "/dev/sda2");
    assert_eq!(repo.find_by_id("/dev/sdb1").unwrap().id, "/dev/sdb1");
    assert!(repo.find_by_id("/dev/sdc").is_none());
    for id in ["/dev/sda", "/dev/sda1", "/dev/sda2", "/dev/sdb", "/dev/sdb1"] {
        let short = repo.get_short_id(id).unwrap().clone();
        assert_eq!(repo.find_by_id(&short).unwrap().id, id);
    }
    assert_eq!(repo.get_short_id("/dev/sda1").unwrap(), "a1");
    assert_eq!(repo.get_short_id("/dev/sdb").unwrap(), "b");
    assert!(repo.get_short_id("/dev/sdc").is_none());
}

#[test]
fn test_empty_storage_repo() {
    let repo = StorageRepo::from(vec![]);
    assert!(repo.devices().is_empty());
    assert!(repo.find_by_id("x").is_none());
    assert!(repo.get_short_id("x").is_none());
}

#[test]
fn test_partition_names() {
    assert_eq!(partition_name("   8        0  500107608 sda").as_deref(), Some("sda"));
    assert_eq!(partition_name(" 259        1     524288 nvme0n1p1").as_deref(), Some("nvme0n1p1"));
    assert_eq!(partition_name("major minor  #blocks  name").as_deref(), Some("name"));
    assert_eq!(partition_name("\tloop_0").as_deref(), Some("loop_0"));
    assert!(partition_name("").is_none());
    assert!(partition_name("sda").is_none());
    assert!(partition_name("   ").is_none());
    assert!(partition_name("8 0 sda ").is_none());
    assert!(partition_name("8 0 dm-0").is_none());
    assert!(partition_name("8 0 /sda").is_none());
}

#[test]
fn test_device_paths_skip_the_heading() {
    let table: Vec<String> = [
        "major minor  #blocks  name",
        "",
        "   8        0  500107608 sda",
        "   8        1     524288 sda1",
        "garbage-",
        " 259        0  250059096 nvme0n1",
    ]
    .iter()
    .map(|line| line.to_string())
    .collect();
    assert_eq!(
        device_paths(&table),
        vec!["/dev/sda", "/dev/sda1", "/dev/nvme0n1"]
    );
    assert!(device_paths(&Vec::new()).is_empty());
    assert!(device_paths(&vec!["   8   0  1 sda".to_string()]).is_empty());
}

#[test]
fn test_mount_points() {
    assert_eq!(
        mount_point_in("/dev/sda1 /boot ext4 rw,relatime 0 0", "/dev/sda1").as_deref(),
        Some("/boot")
    );
    assert_eq!(
        mount_point_in("  /dev/sda1\t/boot", "/dev/sda1").as_deref(),
        Some("/boot")
    );
    assert!(mount_point_in("/dev/sda1 /boot ext4", "/dev/sda").is_none());
    assert!(mount_point_in("/dev/sda1", "/dev/sda1").is_none());
    assert!(mount_point_in("/dev/sda1   ", "/dev/sda1").is_none());
    assert!(mount_point_in("", "/dev/sda1").is_none());
    assert!(mount_point_in("x /dev/sda1 /boot", "/dev/sda1").is_none());

    let table: Vec<String> = [
        "proc /proc proc rw 0 0",
        "",
        "/dev/sda2 / ext4 rw 0 0",
        "/dev/sda1 /boot ext4 rw 0 0",
        "/dev/sda2 /again ext4 rw 0 0",
    ]
    .iter()
    .map(|line| line.to_string())
    .collect();
    assert_eq!(resolve_mount_point(&table, "/dev/sda2").as_deref(), Some("/"));
    assert_eq!(resolve_mount_point(&table, "/dev/sda1").as_deref(), Some("/boot"));
    assert_eq!(resolve_mount_point(&table, "proc").as_deref(), Some("/proc"));
    assert!(resolve_mount_point(&table, "/dev/sdb").is_none());
}

#[test]
fn test_properties() {
    let read = |line: &str| parse_property(line).map(|p| (p.key, p.value));
    assert_eq!(
        read("   Device Node:              /dev/disk0s1"),
        Some(("Device Node".to_string(), "/dev/disk0s1".to_string()))
    );
    assert_eq!(
        read("Whole: No"),
        Some(("Whole".to_string(), "No".to_string()))
    );
    assert_eq!(
        read("Mount Point:"),
        Some(("Mount Point".to_string(), "".to_string()))
    );
    assert_eq!(
        read("  Time: 12:30 "),
        Some(("Time".to_string(), "12:30 ".to_string()))
    );
    assert_eq!(
        read("key :value"),
        Some(("key ".to_string(), "value".to_string()))
    );
    assert_eq!(read("  : x"), Some((" ".to_string(), "x".to_string())));
    assert_eq!(read(": x"), None);
    assert_eq!(read("no colon here"), None);
    assert_eq!(read(""), None);
    assert_eq!(chars_of("añb"), vec!['a', 'ñ', 'b']);
}

#[test]
fn test_drive_kinds() {
    assert_eq!(drive_type(1), StorageType::Removable);
    assert_eq!(drive_type(0), StorageType::Fixed);
    assert_eq!(drive_type(2), StorageType::Fixed);
    assert_eq!(media_kind(11), StorageType::Removable);
    assert_eq!(media_kind(12), StorageType::Fixed);
    assert_eq!(media_kind(0), StorageType::Other);
    assert_eq!(media_kind(5), StorageType::Other);
}

#[test]
fn test_windows_paths() {
    assert_eq!(normalize_volume_path("\\\\?\\Volume{1}\\"), "\\\\?\\Volume{1}");
    assert_eq!(normalize_volume_path("\\\\?\\Volume{1}"), "\\\\?\\Volume{1}");
    assert_eq!(normalize_volume_path("C:\\\\"), "C:\\");
    assert_eq!(normalize_volume_path("\\"), "");
    assert_eq!(normalize_volume_path(""), "");
    assert_eq!(
        device_file_path("\\\\.\\PhysicalDrive0"),
        "\\\\.\\PhysicalDrive0"
    );
    assert_eq!(
        device_file_path("\\Device\\Harddisk1\\Partition1"),
        "\\\\.\\GLOBALROOT\\Device\\Harddisk1\\Partition1"
    );
    assert_eq!(device_file_path(""), "\\\\.\\GLOBALROOT");
    assert_eq!(device_file_path("\\"), "\\\\.\\GLOBALROOT\\");
}

#[test]
fn test_drive_indices() {
    assert!(drive_indices(0).is_empty());
    assert_eq!(drive_indices(0b1), vec![0]);
    assert_eq!(drive_indices(0b1100), vec![2, 3]);
    assert_eq!(drive_indices(1 << 25), vec![25]);
    assert!(drive_indices(1 << 26).is_empty());
    assert_eq!(drive_indices(u32::MAX).len(), 26);
}
