use lethe::ui::id::IdMapper;

#[test]
fn id_test_no_intersection() {
    let ids = IdMapper::from(vec!["abc", "def", "ghi"]);

    let mut sorted = ids.keys();
    sorted.sort();
    assert_eq!(vec!("a", "d", "g"), sorted);
}

#[test]
fn id_test_last_part() {
    let ids = IdMapper::from(vec!["abc1", "abc2", "abc123"]);

    let mut sorted = ids.keys();
    sorted.sort();
    assert_eq!(vec!("1", "12", "2"), sorted);
}

#[test]
fn id_test_normal() {
    let ids = IdMapper::from(vec!["abc", "acd", "abd", "bac", "bad"]);

    let mut sorted = ids.keys();
    sorted.sort();
    assert_eq!(vec!("abc", "abd", "ac", "bc", "bd"), sorted);
}

#[test]
fn id_test_sub_prefixes() {
    let ids = IdMapper::from(vec!["abc", "abc1", "abc2", "abc23", "abc123"]);

    let mut sorted = ids.keys();
    sorted.sort();
    assert_eq!(vec!("", "1", "12", "2", "23"), sorted);
}

#[test]
fn id_test_real_windows() {
    let ids = IdMapper::from(vec![
        "\\Device\\Harddisk0\\Partition1",
        "\\Device\\Harddisk0\\Partition2",
        "\\Device\\Harddisk0\\Partition3",
        "\\Device\\Harddisk0\\Partition4",
        "\\Device\\Harddisk1\\Partition1",
        "\\Device\\Harddisk2\\Partition1",
        "\\Device\\Harddisk2\\Partition2",
        "\\Device\\Harddisk4\\Partition1",
        "\\Device\\Harddisk4\\Partition2",
        "\\\\.\\PhysicalDrive0",
        "\\\\.\\PhysicalDrive1",
        "\\\\.\\PhysicalDrive2",
        "\\\\.\\PhysicalDrive3",
        "\\\\.\\PhysicalDrive4",
    ]);

    let mut sorted = ids.keys();
    sorted.sort();
    assert_eq!(
        vec!(
            "D01", "D02", "D03", "D04", "D1", "D21", "D22", "D41", "D42", "\\0", "\\1", "\\2",
            "\\3", "\\4"
        ),
        sorted
    );
}
