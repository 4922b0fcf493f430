use bayesian_visualizer::plate_geometry::{compile_plate_irs, coordinate_key, PlateBounds, Point};

fn point(x: f32, y: f32) -> Point {
    Point::from_bits(x.to_bits(), y.to_bits())
}

fn bounds(a: (f32, f32), b: (f32, f32)) -> PlateBounds {
    PlateBounds::from_points(point(a.0, a.1), point(b.0, b.1))
}

#[test]
fn plate_ir_records_direct_nested_contents() {
    let plates = vec![(1, bounds((0.0, 0.0), (100.0, 100.0)), 10), (2, bounds((20.0, 20.0), (80.0, 80.0)), 15)];
    let nodes = vec![(1, point(10.0, 10.0)), (2, point(50.0, 50.0)), (3, point(120.0, 120.0))];

    let result = compile_plate_irs(&plates, &nodes).unwrap();

    assert_eq!(result[&1].nodes, vec![1]);
    assert_eq!(result[&1].plates, vec![2]);
    assert_eq!(result[&2].nodes, vec![2]);
    assert!(result[&2].plates.is_empty());
}

#[test]
fn plate_ir_rejects_partial_overlap() {
    let plates = vec![(10, bounds((0.0, 0.0), (100.0, 100.0)), 3), (11, bounds((50.0, 50.0), (150.0, 150.0)), 4)];

    let error = compile_plate_irs(&plates, &vec![]).unwrap_err();
    assert!(error.contains("partially overlap"));
}

#[test]
fn plate_ir_allows_touching_sibling_borders() {
    let plates = vec![(10, bounds((0.0, 0.0), (50.0, 50.0)), 3), (11, bounds((50.0, 0.0), (100.0, 50.0)), 4)];

    assert!(compile_plate_irs(&plates, &vec![]).is_ok());
}

#[test]
fn plate_ir_rejects_node_on_shared_sibling_border() {
    let plates = vec![(10, bounds((0.0, 0.0), (50.0, 50.0)), 3), (11, bounds((50.0, 0.0), (100.0, 50.0)), 4)];
    let nodes = vec![(1, point(50.0, 25.0))];

    let error = compile_plate_irs(&plates, &nodes).unwrap_err();
    assert!(error.contains("multiple sibling plates"));
    assert_eq!(error, "node 1 belongs to multiple sibling plates: 10 and 11");
}

#[test]
fn identical_plates_are_refused() {
    let plates = vec![(4, bounds((0.0, 0.0), (10.0, 10.0)), 1), (5, bounds((10.0, 10.0), (0.0, 0.0)), 1)];
    assert_eq!(compile_plate_irs(&plates, &vec![]).unwrap_err(), "plates 4 and 5 have identical bounds");
}

#[test]
fn coordinate_keys_follow_the_number_order() {
    let values = [-100.5f32, -1.0, -0.25, 0.0, 0.25, 1.0, 8.0, 1.0e6];
    for pair in values.windows(2) {
        assert!(coordinate_key(pair[0].to_bits()) < coordinate_key(pair[1].to_bits()));
    }
    assert_eq!(coordinate_key((-0.0f32).to_bits()), coordinate_key(0.0f32.to_bits()));
}

#[test]
fn bounds_contain_points_on_their_border() {
    let b = bounds((0.0, 0.0), (50.0, 50.0));
    assert!(b.contains_point(point(50.0, 25.0)));
    assert!(!b.contains_point(point(50.5, 25.0)));
    assert!(b.contains_bounds(bounds((10.0, 10.0), (50.0, 50.0))));
    assert!(!b.contains_bounds(bounds((10.0, 10.0), (60.0, 50.0))));
}
