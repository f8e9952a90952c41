use lethe::actions::marker::BlockMarker;
use lethe::actions::marker::RoaringBlockMarker;

#[test]
fn test_empty_marker() {
    let marker = RoaringBlockMarker::new();

    assert_eq!(0, marker.total_marked());
}

#[test]
fn test_marker_tracking_unique_values() {
    let mut marker = RoaringBlockMarker::new();

    marker.mark(13);

    assert_eq!(1, marker.total_marked());
    assert!(marker.is_marked(13));
    assert!(!marker.is_marked(12));
    assert!(!marker.is_marked(14));

    marker.mark(133);
    assert_eq!(2, marker.total_marked());
    assert!(marker.is_marked(13));
    assert!(marker.is_marked(133));

    marker.mark(13);
    assert_eq!(2, marker.total_marked());
    assert!(marker.is_marked(13));
    assert!(marker.is_marked(133));
}

#[test]
fn test_marker_tracking_edge_values() {
    let mut marker = RoaringBlockMarker::new();

    marker.mark(0);

    assert_eq!(1, marker.total_marked());
    assert!(marker.is_marked(0));
    assert!(!marker.is_marked(1));

    marker.mark(u32::max_value());
    assert_eq!(2, marker.total_marked());
    assert!(marker.is_marked(0));
    assert!(marker.is_marked(u32::max_value()));
}

#[test]
fn test_marking_again_changes_nothing() {
    let mut marker = RoaringBlockMarker::new();
    for index in [5u32, 70000, 5, 5, 70000] {
        marker.mark(index);
    }
    assert_eq!(2, marker.total_marked());
    let copy = marker.clone();
    marker.mark(5);
    assert_eq!(copy.total_marked(), marker.total_marked());
    assert!(copy.is_marked(70000));
}

#[test]
fn test_marker_holds_dense_runs() {
    let mut marker = RoaringBlockMarker::new();
    for index in 0..100000u32 {
        marker.mark(index);
    }
    assert_eq!(100000, marker.total_marked());
    assert!(marker.is_marked(99999));
    assert!(!marker.is_marked(100000));
}
