use lethe::ui::idshortcuts::IdShortcuts;

#[test]
fn idshortcuts_test_no_intersection() {
    let ids = IdShortcuts::from(vec!["abc", "def", "ghi"]);

    let mut sorted = ids.keys();
    sorted.sort();
    assert_eq!(vec!("a", "d", "g"), sorted);
}

#[test]
fn idshortcuts_test_last_part() {
    let ids = IdShortcuts::from(vec!["abc1", "abc2", "abc123"]);

    let mut sorted = ids.keys();
    sorted.sort();
    assert_eq!(vec!("1", "12", "2"), sorted);
}

#[test]
fn idshortcuts_test_normal() {
    let ids = IdShortcuts::from(vec!["abc", "acd", "abd", "bac", "bad"]);

    let mut sorted = ids.keys();
    sorted.sort();
    assert_eq!(vec!("abc", "abd", "ac", "bc", "bd"), sorted);
}

#[test]
fn idshortcuts_test_sub_prefixes() {
    let ids = IdShortcuts::from(vec!["abc", "abc1", "abc2", "abc23", "abc123"]);

    let mut sorted = ids.keys();
    sorted.sort();
    assert_eq!(vec!("", "1", "12", "2", "23"), sorted);
}

#[test]
fn idshortcuts_test_real_windows() {
    let ids = IdShortcuts::from(vec![
        "\\Device\\Harddisk0\\Partition1",
        "\\Device\\Harddisk0\\Partition2",
        "\\Device\\Harddisk0\\Partition3",
        "\\Device\\Harddisk0\\Partition4",
        "\\Device\\Harddisk1\\Partition1",
        "\\Device\\Harddisk2\\Partition1",
        "\\Device\\Harddisk2\\Partition2",
        "\\Device\\Harddisk4\\Partition1",
        "\\Device\\Harddisk4\\Partition2",
        "\\\\.\\PhysicalDrive0",
        "\\\\.\\PhysicalDrive1",
        "\\\\.\\PhysicalDrive2",
        "\\\\.\\PhysicalDrive3",
        "\\\\.\\PhysicalDrive4",
    ]);

    let mut sorted = ids.keys();
    sorted.sort();
    assert_eq!(
        vec!(
            "D01", "D02", "D03", "D04", "D1", "D21", "D22", "D41", "D42", "\\0", "\\1", "\\2",
            "\\3", "\\4"
        ),
        sorted
    );
    assert_eq!("\\\\.\\PhysicalDrive2", ids.get("\\2").unwrap());
    assert_eq!("\\Device\\Harddisk2\\Partition2", ids.get("D22").unwrap());
}

#[test]
fn test_real_nix() {
    let ids = IdShortcuts::from(vec![
        "/dev/rdisk0s1",
        "/dev/rdisk0s3",
        "/dev/rdisk0s4",
        "/dev/rdisk2",
        "/dev/rdisk2s1",
    ]);

    let mut sorted = ids.keys();
    sorted.sort();
    assert_eq!(vec!("01", "03", "04", "2", "2s"), sorted);
    assert_eq!("/dev/rdisk2", ids.get("2").unwrap());
    assert_eq!("/dev/rdisk2", ids.get("/dev/rdisk2").unwrap());
    assert_eq!("/dev/rdisk0s3", ids.get("03").unwrap());
    assert_eq!("/dev/rdisk0s3", ids.get("/dev/rdisk0s3").unwrap());
}

#[test]
fn test_shortcuts_of_nothing() {
    let ids = IdShortcuts::from(vec![]);
    assert!(ids.keys().is_empty());
    assert!(ids.get("x").is_none());
    assert!(ids.get_short("x").is_none());
}

#[test]
fn test_single_identifier_gets_the_empty_shortcut() {
    let ids = IdShortcuts::from(vec!["/dev/sda"]);
    assert_eq!(ids.keys(), vec![""]);
    assert_eq!(ids.get_short("/dev/sda").unwrap(), "");
    assert_eq!(ids.get("").unwrap(), "/dev/sda");
    assert!(ids.get_short("/dev/sdb").is_none());
}

#[test]
fn test_repeated_identifiers_count_once() {
    let ids = IdShortcuts::from(vec!["sda", "sdb", "sda", "sdb", "sda"]);
    let mut sorted = ids.keys();
    sorted.sort();
    assert_eq!(sorted, vec!["a", "b"]);
    assert_eq!(ids.get("a").unwrap(), "sda");
}

#[test]
fn test_short_forms_lead_back() {
    let all = vec!["/dev/sda", "/dev/sda1", "/dev/sda2", "/dev/sdb", "/dev/nvme0n1"];
    let ids = IdShortcuts::from(all.clone());
    let keys = ids.keys();
    assert_eq!(keys.len(), all.len());
    for id in all {
        let short = ids.get_short(id).unwrap();
        assert_eq!(ids.get(short).unwrap(), id);
        assert_eq!(ids.get(id).unwrap(), id);
    }
    assert!(ids.get("zzz").is_none());
}

#[test]
fn test_identifiers_beyond_ascii() {
    let ids = IdShortcuts::from(vec!["däta", "dåta", "dota"]);
    let mut sorted = ids.keys();
    sorted.sort();
    assert_eq!(sorted, vec!["o", "ä", "å"]);
}
