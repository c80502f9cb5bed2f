use osmflat_hilbert::geometry::{classify, way_geometry, way_refs_valid, Coord, Shape};
use osmflat_hilbert::hilbert::{location_key, quantize, Point};
use osmflat_hilbert::pairs::build_hilbert_way_pairs;
use osmflat_hilbert::reorder::Osm;
use osmflat_hilbert::types::{HilbertPair, Node, NodeIndex, Way};
use geo::algorithm::interior_point::InteriorPoint;

fn c(lon: i32, lat: i32) -> Coord {
    Coord { lon, lat }
}

fn node_at(lon: i32, lat: i32) -> Node {
    Node { id: 0, lat, lon, tag_first_idx: 0 }
}

fn archive(refs: Vec<Option<u64>>, way_starts: Vec<u64>) -> Osm {
    Osm {
        nodes: vec![node_at(0, 0), node_at(10, 0), node_at(10, 10), node_at(0, 10)],
        node_tags_end: 0,
        ways: way_starts.iter().map(|&s| Way { id: 1, tag_first_idx: 0, ref_first_idx: s }).collect(),
        way_tags_end: 0,
        tags_index: vec![],
        nodes_index: refs.into_iter().map(|value| NodeIndex { value }).collect(),
    }
}

#[test]
fn closed_square_is_polygon() {
    let square = vec![c(0, 0), c(10, 0), c(10, 10), c(0, 10), c(0, 0)];
    assert_eq!(classify(&square), Shape::Polygon);
}

#[test]
fn open_line_is_linestring() {
    let zigzag = vec![c(0, 0), c(5, 5), c(10, 0)];
    assert_eq!(classify(&zigzag), Shape::LineString);
    assert_eq!(classify(&vec![c(1, 1), c(1, 1)]), Shape::LineString);
    assert_eq!(classify(&vec![]), Shape::LineString);
}

#[test]
fn way_geometry_resolves_closed_ring() {
    let a = archive(vec![Some(0), Some(1), Some(2), Some(3), Some(0), Some(1), Some(2)], vec![0, 5]);
    assert!(way_refs_valid(&a));
    let g = way_geometry(&a, 0).unwrap();
    assert_eq!(g.shape, Shape::Polygon);
    assert_eq!(g.coords, vec![c(0, 0), c(10, 0), c(10, 10), c(0, 10), c(0, 0)]);
    let g = way_geometry(&a, 1).unwrap();
    assert_eq!(g.shape, Shape::LineString);
    assert_eq!(g.coords, vec![c(10, 0), c(10, 10)]);
}

#[test]
fn way_geometry_skips_unresolved_refs() {
    let a = archive(vec![None, Some(2), Some(9), None, Some(3)], vec![0]);
    let g = way_geometry(&a, 0).unwrap();
    assert_eq!(g.shape, Shape::LineString);
    assert_eq!(g.coords, vec![c(10, 10), c(0, 10)]);
}

#[test]
fn way_with_only_unresolved_refs_has_no_location() {
    let a = archive(vec![Some(0), None, None, Some(7)], vec![0, 1]);
    assert!(way_geometry(&a, 0).is_some());
    assert!(way_geometry(&a, 1).is_none());
    let mut pairs = vec![HilbertPair { i: 0, h: 0 }; 2];
    let missing = build_hilbert_way_pairs(&mut pairs, &vec![Some(Point { x: 0, y: 0 }), None]);
    assert_eq!(missing, vec![1]);
    assert_eq!(pairs[1], HilbertPair { i: 1, h: 0 });
}

#[test]
fn invalid_way_refs_detected() {
    let a = archive(vec![Some(0), Some(1)], vec![0, 3]);
    assert!(!way_refs_valid(&a));
    let a = archive(vec![Some(0), Some(1)], vec![1, 0]);
    assert!(!way_refs_valid(&a));
}

#[test]
fn quantize_shifts_by_i32_max() {
    assert_eq!(quantize(-2147483647), 0);
    assert_eq!(quantize(0), 2147483647);
    assert_eq!(quantize(1), 2147483648);
    assert_eq!(quantize(-2147483648), 0xffff_ffff);
    assert_eq!(quantize(2147483648), 0xffff_ffff);
}

#[test]
fn location_key_is_hilbert_index_of_shifted_point() {
    let k = location_key(Point { x: -2147483646, y: -2147483647 });
    assert_eq!(k, 1);
    assert_eq!(k, fast_hilbert::xy2h(1u32, 0u32));
    let k = location_key(Point { x: -2147483647, y: -2147483646 });
    assert_eq!(k, 3);
}

#[test]
fn location_key_uses_latitude_on_second_axis() {
    let p = Point { x: 1000, y: -5000 };
    let expected = fast_hilbert::xy2h(quantize(1000), quantize(-5000));
    assert_eq!(location_key(p), expected);
    assert_ne!(location_key(p), fast_hilbert::xy2h(quantize(1000), quantize(1000)));
}

#[test]
fn way_pairs_keyed_by_location() {
    let p = Point { x: 10, y: 20 };
    let q = Point { x: -30, y: 40 };
    let mut pairs = vec![HilbertPair { i: 0, h: 0 }; 3];
    let missing = build_hilbert_way_pairs(&mut pairs, &vec![Some(p), None, Some(q)]);
    assert_eq!(missing, vec![1]);
    assert_eq!(
        pairs,
        vec![
            HilbertPair { i: 0, h: location_key(p) },
            HilbertPair { i: 1, h: 0 },
            HilbertPair { i: 2, h: location_key(q) },
        ]
    );
    assert_ne!(pairs[0].h, 0);
}

fn geo_point(g: &osmflat_hilbert::geometry::WayGeometry) -> Option<(f64, f64)> {
    let coords: Vec<geo::Coord<f64>> =
        g.coords.iter().map(|c| geo::Coord { x: c.lon as f64, y: c.lat as f64 }).collect();
    let p = match g.shape {
        Shape::Polygon => geo::Polygon::new(geo::LineString::new(coords), vec![]).interior_point(),
        Shape::LineString => geo::LineString::new(coords).interior_point(),
    }?;
    Some((p.x(), p.y()))
}

#[test]
fn square_ring_point_falls_inside() {
    let a = archive(vec![Some(0), Some(1), Some(2), Some(3), Some(0)], vec![0]);
    let g = way_geometry(&a, 0).unwrap();
    assert_eq!(g.shape, Shape::Polygon);
    let (x, y) = geo_point(&g).unwrap();
    assert!(x > 0.0 && x < 10.0 && y > 0.0 && y < 10.0);
}

#[test]
fn open_line_point_lies_on_line() {
    let a = archive(vec![Some(0), Some(2), Some(1)], vec![0]);
    let g = way_geometry(&a, 0).unwrap();
    assert_eq!(g.shape, Shape::LineString);
    let (x, y) = geo_point(&g).unwrap();
    let on_vertex = g.coords.iter().any(|c| c.lon as f64 == x && c.lat as f64 == y);
    assert!(on_vertex);
}

#[test]
fn square_way_pair_keyed_by_interior_point() {
    let a = archive(vec![Some(0), Some(1), Some(2), Some(3), Some(0)], vec![0]);
    let g = way_geometry(&a, 0).unwrap();
    let (x, y) = geo_point(&g).unwrap();
    let p = Point { x: x as i64, y: y as i64 };
    assert!(p.x > 0 && p.x < 10 && p.y > 0 && p.y < 10);
    let mut pairs = vec![HilbertPair { i: 0, h: 0 }];
    let missing = build_hilbert_way_pairs(&mut pairs, &vec![Some(p)]);
    assert!(missing.is_empty());
    assert_eq!(pairs[0].i, 0);
    assert_eq!(pairs[0].h, fast_hilbert::xy2h(quantize(p.x), quantize(p.y)));
}
