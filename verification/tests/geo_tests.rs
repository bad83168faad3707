//! Tests of the geographic adapter, in particular antimeridian
//! wraparound queries.

use rt_datastructure::primitives::bbox::BBox;
use rt_datastructure::primitives::label::Label;
use rt_datastructure::pst_3d::GeoPst3d;

fn geo_labels() -> Vec<Label> {
    let mut v = Vec::new();
    v.push(Label::new(160, 20, 10, 1, 1, 1, "T1".to_string()));
    v.push(Label::new(170, 30, 9, 2, 1, 1, "T2".to_string()));
    v.push(Label::new(175, -40, 8, 3, 1, 1, "T3".to_string()));
    v.push(Label::new(180, 50, 7, 4, 1, 1, "T4".to_string()));
    v.push(Label::new(-180, 60, 6, 5, 1, 1, "T5".to_string()));
    v.push(Label::new(175, 70, 5, 6, 1, 1, "T6".to_string()));
    v.push(Label::new(170, -80, 4, 7, 1, 1, "T7".to_string()));
    v.push(Label::new(160, 90, 3, 8, 1, 1, "T8".to_string()));
    v
}

/// A wraparound box from longitude 170 east across the antimeridian to
/// -170 returns the union of the two strips [170, 180] and [-180, -170],
/// and excludes every longitude strictly between -170 and 170.
#[test]
fn test_geo_wraparound() {
    let t = GeoPst3d::new(geo_labels());

    let bb = BBox::new(170, 0, -170, 90);
    let r = t.get(&bb, 1);

    // T2 (170, 30), T4 (180, 50), T5 (-180, 60) and T6 (175, 70) lie in
    // the wrapped strips with y in [0, 90]; T3 and T7 fail the y-range,
    // T1 and T8 sit at longitude 160, strictly between the strips.
    assert_eq!(r.len(), 4);
    let mut ids: Vec<i64> = r.iter().map(|l| l.get_osm_id()).collect();
    ids.sort();
    assert_eq!(ids, vec![2, 4, 5, 6]);
}

/// The same strips queried separately give the same labels as the
/// wraparound query.
#[test]
fn test_geo_wraparound_matches_strips() {
    let t = GeoPst3d::new(geo_labels());

    let wrap = t.get(&BBox::new(170, 0, -170, 90), 1);
    let east = t.get(&BBox::new(170, 0, 180, 90), 1);
    let west = t.get(&BBox::new(-180, 0, -170, 90), 1);

    let mut wrap_ids: Vec<i64> = wrap.iter().map(|l| l.get_osm_id()).collect();
    let mut strip_ids: Vec<i64> = east
        .iter()
        .chain(west.iter())
        .map(|l| l.get_osm_id())
        .collect();
    wrap_ids.sort();
    strip_ids.sort();
    assert_eq!(wrap_ids, strip_ids);
}

/// An ordinary, non-wrapping geo query behaves like a plain tree query.
#[test]
fn test_geo_plain_box() {
    let t = GeoPst3d::new(geo_labels());

    let r = t.get(&BBox::new(160, 0, 175, 90), 4);
    // x in [160, 175], y in [0, 90], t > 4: T1 (160, 20, t 10),
    // T2 (170, 30, t 9) and T6 (175, 70, t 5).
    assert_eq!(r.len(), 3);
    let mut ids: Vec<i64> = r.iter().map(|l| l.get_osm_id()).collect();
    ids.sort();
    assert_eq!(ids, vec![1, 2, 6]);
}

/// The whole geographic domain with a threshold below every t returns
/// every label.
#[test]
fn test_geo_full_domain() {
    let t = GeoPst3d::new(geo_labels());

    let r = t.get(&BBox::new(-180, -90, 180, 90), 0);
    assert_eq!(r.len(), 8);
}

/// Building a geo tree from no labels and querying is safe.
#[test]
fn test_geo_empty() {
    let t = GeoPst3d::new(Vec::new());
    assert_eq!(t.get(&BBox::new(-180, -90, 180, 90), 0).len(), 0);
    assert!(t.to_string() == "PSKdT is empty!");
}
