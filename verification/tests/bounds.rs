use perple::color::bounds::BoundingBox;
use perple::color::bounds::Bounds;
use perple::color::bounds::Detection;
use perple::config::DETECTIONS_CAPACITY;

fn det(confidence: i64) -> Detection {
    Detection::new(BoundingBox::new(0, 0, 10, 10), 0, String::from("person"), confidence)
}

#[test]
fn bounding_box_geometry() {
    let b = BoundingBox::new(0, 0, 10, 5);
    assert_eq!(b.width(), 10);
    assert_eq!(b.height(), 5);
    assert_eq!(b.area(), 50);
    assert!(b.is_valid());

    // Extents are absolute, so an inverted box still reports them.
    let inverted = BoundingBox::new(10, 5, 0, 0);
    assert_eq!(inverted.width(), 10);
    assert_eq!(inverted.height(), 5);
    assert_eq!(inverted.area(), 50);

    let flat = BoundingBox::new(3, 3, 3, 9);
    assert_eq!(flat.width(), 0);
    assert!(!flat.is_valid());

    let origin = BoundingBox::default();
    assert_eq!(origin, BoundingBox::new(0, 0, 0, 0));
}

#[test]
fn detection_construction() {
    let d = Detection::new(BoundingBox::new(1, 2, 3, 4), 0, String::from("person"), 750_000);
    assert_eq!(d.bbox, BoundingBox::new(1, 2, 3, 4));
    assert_eq!(d.class_id, 0);
    assert_eq!(d.class_name, "person");
    assert_eq!(d.confidence, 750_000);

    let z = Detection::default();
    assert_eq!(z.bbox, BoundingBox::new(0, 0, 0, 0));
    assert_eq!(z.class_name, "");
    assert_eq!(z.confidence, 0);
}

#[test]
fn bounds_push_drops_beyond_capacity() {
    let mut b = Bounds::new();
    assert!(b.is_empty());
    for i in 0..DETECTIONS_CAPACITY {
        assert!(b.push(det(i as i64)));
    }
    assert_eq!(b.len(), DETECTIONS_CAPACITY);
    // The batch is full: the next push is a silent drop, reported as such.
    assert!(!b.push(det(12_345)));
    assert_eq!(b.len(), DETECTIONS_CAPACITY);
    match b.last() {
        Some(d) => assert_eq!(d.confidence, DETECTIONS_CAPACITY as i64 - 1),
        None => panic!("the batch is not empty"),
    }
    b.clear();
    assert!(b.is_empty());
    assert_eq!(b.len(), 0);
}

#[test]
fn bounds_accessors() {
    let mut b = Bounds::new();
    assert!(matches!(b.first(), None));
    assert!(matches!(b.last(), None));
    assert!(matches!(b.get(0), None));
    assert!(b.push(det(1)));
    assert!(b.push(det(2)));
    assert!(b.push(det(3)));
    match b.first() {
        Some(d) => assert_eq!(d.confidence, 1),
        None => panic!("the batch holds three detections"),
    }
    match b.last() {
        Some(d) => assert_eq!(d.confidence, 3),
        None => panic!("the batch holds three detections"),
    }
    match b.get(1) {
        Some(d) => assert_eq!(d.confidence, 2),
        None => panic!("index 1 is in range"),
    }
    assert!(matches!(b.get(3), None));
    assert_eq!(b.as_slice().len(), 3);
    match b.get_mut(0) {
        Some(d) => d.confidence = 9,
        None => panic!("index 0 is in range"),
    }
    match b.get(0) {
        Some(d) => assert_eq!(d.confidence, 9),
        None => panic!("index 0 is in range"),
    }
}

#[test]
fn bounds_sort_by_confidence_descending() {
    let mut b = Bounds::new();
    for c in [300_000i64, 900_000, 100_000, 500_000] {
        assert!(b.push(det(c)));
    }
    b.sort_by_confidence();
    let confs: Vec<i64> = b.as_slice().iter().map(|d| d.confidence).collect();
    assert_eq!(confs, vec![900_000, 500_000, 300_000, 100_000]);
}

#[test]
fn bounds_retain_keeps_approved_detections_in_order() {
    let mut b = Bounds::new();
    for c in [100_000i64, 600_000, 200_000, 700_000] {
        assert!(b.push(det(c)));
    }
    b.retain(|d: &Detection| d.confidence >= 500_000);
    let confs: Vec<i64> = b.as_slice().iter().map(|d| d.confidence).collect();
    assert_eq!(confs, vec![600_000, 700_000]);
    b.retain(|_d: &Detection| false);
    assert!(b.is_empty());
}

#[test]
fn bounds_as_mut_slice_edits_in_place() {
    let mut b = Bounds::new();
    assert!(b.push(det(1)));
    assert!(b.push(det(2)));
    let s = b.as_mut_slice();
    s[1].confidence = 42;
    assert_eq!(b.as_slice()[1].confidence, 42);
    assert_eq!(b.len(), 2);
}

#[test]
fn bounds_sort_by_follows_the_comparator() {
    let mut b = Bounds::new();
    for c in [200_000i64, 900_000, 500_000] {
        assert!(b.push(det(c)));
    }
    b.sort_by(|x: &Detection, y: &Detection| x.confidence.cmp(&y.confidence));
    let confs: Vec<i64> = b.as_slice().iter().map(|d| d.confidence).collect();
    assert_eq!(confs, vec![200_000, 500_000, 900_000]);
}
