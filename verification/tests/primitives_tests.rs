//! Tests of the label and bounding-box primitives.

use rt_datastructure::primitives::bbox::BBox;
use rt_datastructure::primitives::label::Label;
use std::cmp::Ordering;

#[test]
fn test_label_accessors() {
    let l = Label::new(90, 45, 9, 1234567, 16, 2, "Test".to_string());

    assert!(*l.get_label() == "Test".to_string());
    assert!(l.get_osm_id() == 1234567);
    assert!(l.get_prio() == 16);
    assert!(l.get_t() == 9);
    assert!(l.get_x() == 90);
    assert!(l.get_y() == 45);
    assert!(l.get_size_factor() == 2);
}

#[test]
fn test_label_order_t() {
    let p1 = Label::new(90, 90, 9, 1234567, 16, 1, "Test1".to_string());
    let p2 = Label::new(90, 90, 8, 1234568, 16, 1, "Test2".to_string());
    let p3 = Label::new(90, 90, 8, 1234569, 16, 1, "Test3".to_string());
    assert!(Label::order_t(&p1, &p2) == Ordering::Greater);
    assert!(Label::order_t(&p2, &p3) == Ordering::Equal);
    assert!(Label::order_t(&p3, &p1) == Ordering::Less);
}

#[test]
fn test_label_order_x() {
    let p1 = Label::new(90, 90, 9, 1234567, 16, 1, "Test1".to_string());
    let p2 = Label::new(45, 90, 9, 1234568, 16, 1, "Test2".to_string());
    let p3 = Label::new(45, 90, 9, 1234569, 16, 1, "Test3".to_string());
    assert!(Label::order_x(&p1, &p2) == Ordering::Greater);
    assert!(Label::order_x(&p2, &p3) == Ordering::Equal);
    assert!(Label::order_x(&p3, &p1) == Ordering::Less);
}

#[test]
fn test_label_order_y() {
    let p1 = Label::new(90, 90, 9, 1234567, 16, 1, "Test1".to_string());
    let p2 = Label::new(90, 45, 9, 1234568, 16, 1, "Test2".to_string());
    let p3 = Label::new(90, 45, 9, 1234569, 16, 1, "Test3".to_string());
    assert!(Label::order_y(&p1, &p2) == Ordering::Greater);
    assert!(Label::order_y(&p2, &p3) == Ordering::Equal);
    assert!(Label::order_y(&p3, &p1) == Ordering::Less);
}

#[test]
fn test_label_to_string() {
    let l = Label::new(90, 45, 9, 1234567, 16, 2, "Test".to_string());
    let s = l.to_string();
    assert!(s == "Label [#1234567]: 'Test' at (90, 45) with prio 16, elim-t: 9 and label factor: 2");
}

#[test]
fn test_label_to_string_negative() {
    let l = Label::new(-180, -90, -3, 7, 1, 1, "West".to_string());
    let s = l.to_string();
    assert!(s == "Label [#7]: 'West' at (-180, -90) with prio 1, elim-t: -3 and label factor: 1");
}

#[test]
fn test_bbox_contains() {
    let bb = BBox::new(0, 0, 10, 10);
    let not_contained = Label::new(-1, -1, 0, 0, 0, 1, "Not contained".to_string());
    let at_the_border = Label::new(0, 0, 0, 0, 0, 1, "On the border".to_string());
    let contained = Label::new(5, 5, 0, 0, 0, 1, "Contained".to_string());

    assert!(bb.is_contained(&contained));
    assert!(bb.is_contained(&at_the_border));
    assert!(!bb.is_contained(&not_contained));
}

#[test]
fn test_bbox_new_empty() {
    let bb = BBox::new_empty();
    let l = Label::new(0, 0, 0, 0, 0, 1, "Not contained".to_string());

    assert!(!bb.is_contained(&l));
}

#[test]
fn test_bbox_new_from_point() {
    let defining = Label::new(0, 0, 0, 0, 0, 1, "Defining label".to_string());
    let bb = BBox::new_from_point(&defining);
    let contained = Label::new(0, 0, 0, 0, 0, 1, "Contained".to_string());
    let not_contained = Label::new(1, 0, 0, 0, 0, 1, "Not contained".to_string());

    assert!(bb.is_contained(&defining));
    assert!(bb.is_contained(&contained));
    assert!(!bb.is_contained(&not_contained));
}

#[test]
fn test_bbox_add_to_box() {
    let mut bb = BBox::new(0, 0, 1, 1);
    let tba = Label::new(-1, -1, 0, 0, 0, 1, "To be added".to_string());
    assert!(!bb.is_contained(&tba));
    bb.add_to_box(&tba);
    assert!(bb.is_contained(&tba));
    assert!(bb.get_min_x() == -1);
    assert!(bb.get_min_y() == -1);
    assert!(bb.get_max_x() == 1);
    assert!(bb.get_max_y() == 1);
}

#[test]
fn test_bbox_add_box() {
    let mut bb = BBox::new(-1, -1, 0, 0);

    let bb1 = BBox::new(0, 0, 2, 2);
    let c1 = Label::new(1, 1, 0, 0, 0, 1, "Contained in 1".to_string());
    assert!(bb1.is_contained(&c1));
    assert!(!bb.is_contained(&c1));

    bb.add_box(&bb1);
    assert!(bb.is_contained(&c1));
}

#[test]
fn test_bbox_getters() {
    let bb = BBox::new(1, 2, 3, 4);
    assert!(bb.get_min_x() == 1);
    assert!(bb.get_min_y() == 2);
    assert!(bb.get_max_x() == 3);
    assert!(bb.get_max_y() == 4);
}

#[test]
fn test_bbox_to_string() {
    let bb = BBox::new(1, 2, 3, 4);
    let s = bb.to_string();

    assert!(s == "[x: 1 - 3, y: 2 - 4]".to_string());
}

#[test]
fn test_bbox_coordinate_consistency() {
    let bb = BBox::new(1, 2, 3, 4);
    assert!(bb.check_coordinate_consistency().is_ok());

    let inverted = BBox::new(10, 4, 3, 2);
    assert!(inverted.check_coordinate_consistency().is_err());
    assert!(
        inverted.check_coordinate_consistency()
            == Err("lower y bound is greater than upper y bound")
    );

    let bad_lat = BBox::new(10, -92, 3, 4);
    assert!(
        bad_lat.check_coordinate_consistency()
            == Err("y values have to be in the range [-90, 90]")
    );

    let bad_lon = BBox::new(-200, 2, 3, 4);
    assert!(
        bad_lon.check_coordinate_consistency()
            == Err("x values have to be in the range [-180, 180]")
    );
}
