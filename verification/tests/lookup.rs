use bezirke::geo_to_bezirk::binary_search::BinarySearch;
use bezirke::geo_to_bezirk::naive_linear::NaiveLinear;
use bezirke::{Bezirk, BezirkeData, GeoData, RawBezirk};
use geo::{Contains, Coord, Geometry, Intersects, Point, Rect};
use wkt::TryFromWkt;

fn raw(identifier: u64, parents: Vec<u64>, name: &str, wkt: &str) -> RawBezirk {
    RawBezirk { identifier, parents, name: name.to_string(), wkt: wkt.to_string() }
}

fn sample() -> GeoData {
    GeoData {
        bezirke: vec![
            raw(1, vec![], "Land", "POLYGON((0 0, 8 0, 8 8, 0 8, 0 0))"),
            raw(2, vec![1], "West", "POLYGON((0 0, 4 0, 4 8, 0 8, 0 0))"),
            raw(3, vec![1], "East", "POLYGON((4 0, 8 0, 8 8, 4 8, 4 0))"),
            raw(4, vec![2, 1], "Old Town", "POLYGON((1 1, 2 1, 2 2, 1 2, 1 1))"),
        ],
    }
}

fn parse(w: &String) -> Geometry {
    Geometry::try_from_wkt_str(w).unwrap()
}

fn data() -> Vec<Bezirk<Geometry>> {
    BezirkeData::new(sample(), parse).data
}

fn split(r: &Rect, horizontal: bool) -> (Rect, Rect) {
    let [a, b] = if horizontal { r.split_x() } else { r.split_y() };
    (a, b)
}

fn square() -> Rect {
    Rect::new(Coord { x: 0.0, y: 0.0 }, Coord { x: 8.0, y: 8.0 })
}

fn grid(subdivisions: usize) -> BinarySearch<Rect, Geometry> {
    BinarySearch::new(subdivisions, square(), data(), split, |r: &Rect, g: &Geometry| r.intersects(g))
}

fn chunked(bs: &BinarySearch<Rect, Geometry>, x: f64, y: f64) -> Option<String> {
    let p = Point::new(x, y);
    bs.lookup(|r: &Rect| r.contains(&p), |g: &Geometry| g.contains(&p)).map(|b| b.name.clone())
}

fn linear(nl: &NaiveLinear<Geometry>, x: f64, y: f64) -> Option<String> {
    let p = Point::new(x, y);
    nl.lookup(|g: &Geometry| g.contains(&p)).map(|b| b.name.clone())
}

#[test]
fn bezirke_data_keeps_file_order_and_fields() {
    let d = data();
    assert_eq!(d.len(), 4);
    assert_eq!(d[0].identifier, 1);
    assert_eq!(d[3].identifier, 4);
    assert_eq!(d[3].parents, vec![2, 1]);
    assert_eq!(d[2].name, "East");
    assert!(d[1].location.contains(&Point::new(1.0, 1.0)));
    assert!(!d[1].location.contains(&Point::new(5.0, 1.0)));
}

#[test]
fn naive_linear_prefers_the_last_match() {
    let nl = NaiveLinear::new(data());
    assert_eq!(linear(&nl, 1.5, 1.5).as_deref(), Some("Old Town"));
    assert_eq!(linear(&nl, 3.0, 3.0).as_deref(), Some("West"));
    assert_eq!(linear(&nl, 6.0, 3.0).as_deref(), Some("East"));
    assert_eq!(linear(&nl, 9.0, 3.0), None);
}

#[test]
fn naive_linear_empty() {
    let nl: NaiveLinear<Geometry> = NaiveLinear::new(vec![]);
    assert_eq!(linear(&nl, 1.0, 1.0), None);
}

#[test]
fn binary_search_has_two_to_the_depth_chunks() {
    for depth in 0..6 {
        assert_eq!(grid(depth).chunk_count(), 1 << depth);
    }
}

#[test]
fn binary_search_chunks_follow_the_halving_order() {
    let bs = grid(2);
    // depth 0 splits left/right, depth 1 splits top/bottom; first halves first
    let expect = [
        (0.0, 0.0, 4.0, 4.0),
        (0.0, 4.0, 4.0, 8.0),
        (4.0, 0.0, 8.0, 4.0),
        (4.0, 4.0, 8.0, 8.0),
    ];
    for (c, (x0, y0, x1, y1)) in expect.iter().enumerate() {
        let r = bs.chunk_rectangle(c);
        assert_eq!(r.min(), Coord { x: *x0, y: *y0 });
        assert_eq!(r.max(), Coord { x: *x1, y: *y1 });
    }
}

#[test]
fn binary_search_chunk_members_are_the_intersecting_districts() {
    let bs = grid(2);
    // chunk 0 = [0,4]x[0,4]: Land, West, East (touches x = 4), Old Town
    assert_eq!(bs.chunk_districts(0), &vec![0, 1, 2, 3]);
    // chunk 3 = [4,8]x[4,8]: Land, West (touches x = 4), East
    assert_eq!(bs.chunk_districts(3), &vec![0, 1, 2]);
}

#[test]
fn binary_search_lookup_finds_the_finest_district() {
    let bs = grid(3);
    assert_eq!(chunked(&bs, 1.5, 1.5).as_deref(), Some("Old Town"));
    assert_eq!(chunked(&bs, 3.0, 7.0).as_deref(), Some("West"));
    assert_eq!(chunked(&bs, 6.5, 0.5).as_deref(), Some("East"));
    assert_eq!(chunked(&bs, 20.0, 3.0), None);
}

#[test]
fn binary_search_agrees_with_linear_scan_inside_the_square() {
    let nl = NaiveLinear::new(data());
    for depth in [0, 1, 4] {
        let bs = grid(depth);
        for xi in 0..16 {
            for yi in 0..16 {
                let (x, y) = (xi as f64 * 0.5 + 0.25, yi as f64 * 0.5 + 0.25);
                assert_eq!(chunked(&bs, x, y), linear(&nl, x, y));
            }
        }
    }
}

#[test]
fn binary_search_finds_nothing_outside_the_square() {
    // a district reaching beyond the starting square is not found there
    let wide = GeoData { bezirke: vec![raw(5, vec![], "Wide", "POLYGON((0 0, 20 0, 20 8, 0 8, 0 0))")] };
    let d = BezirkeData::new(wide, parse).data;
    let bs = BinarySearch::new(2, square(), d, split, |r: &Rect, g: &Geometry| r.intersects(g));
    assert_eq!(chunked(&bs, 12.0, 4.0), None);
    assert_eq!(chunked(&bs, 2.0, 3.0).as_deref(), Some("Wide"));
}

#[test]
fn binary_search_lookup_twice_gives_the_same_answer() {
    let bs = grid(3);
    for (x, y) in [(1.5, 1.5), (3.0, 7.0), (6.5, 0.5), (20.0, 3.0)] {
        assert_eq!(chunked(&bs, x, y), chunked(&bs, x, y));
    }
    let nl = NaiveLinear::new(data());
    assert_eq!(linear(&nl, 1.5, 1.5), linear(&nl, 1.5, 1.5));
}

#[test]
fn subdivision_depth_does_not_change_the_answer() {
    let shallow = grid(1);
    let deep = grid(5);
    for (x, y) in [(1.5, 1.5), (3.5, 7.0), (6.5, 0.5), (4.5, 4.5), (0.25, 7.75)] {
        assert_eq!(chunked(&shallow, x, y), chunked(&deep, x, y));
    }
}

#[test]
fn a_position_on_a_chunk_edge_lies_in_no_chunk() {
    // x = 3 is an edge between chunks five levels deep, but inside one chunk
    // one level deep: only the deeper grid misses the district there
    assert_eq!(chunked(&grid(1), 3.0, 7.0).as_deref(), Some("West"));
    assert_eq!(chunked(&grid(5), 3.0, 7.0), None);
}
