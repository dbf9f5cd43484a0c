use minimap::nesting::{classify, reversed, ring_contains, samples};
use minimap::rings::assemble_rings;
use minimap::wkb::{wkb_linestring, wkb_multipolygon, Pt};

/// Node "positions" for the assembly tests. Real ones are packed lat/lon
/// pairs; the assembler only compares them, so any distinct u64s will do.
fn way(ids: &[u64]) -> Vec<u64> {
    ids.to_vec()
}

#[test]
fn a_closed_way_is_one_ring() {
    let rings = assemble_rings(vec![way(&[1, 2, 3, 4, 1])]).unwrap();
    assert_eq!(rings.len(), 1);
    assert_eq!(rings[0].len(), 5, "closed: first node repeated");
    assert_eq!(rings[0][0], rings[0][4]);
}

/// Two members meeting end to end, one of them walked the other way round
/// -- the ordinary multipolygon case, and the direction must not matter.
#[test]
fn open_ways_chain_into_a_ring_whatever_their_direction() {
    let rings = assemble_rings(vec![way(&[1, 2, 3]), way(&[1, 4, 3])]).unwrap();
    assert_eq!(rings.len(), 1);
    let r = &rings[0];
    assert_eq!(r.len(), 5);
    assert_eq!(r[0], r[4]);
    let mut corners = r[..4].to_vec();
    corners.sort();
    assert_eq!(corners, vec![1, 2, 3, 4]);
}

/// Two members that share a wall describe one shape, not two. The shared
/// segment 2-3 appears in both squares and must cancel, leaving a single
/// six-cornered outline.
#[test]
fn a_shared_wall_cancels_and_the_members_merge() {
    let left = way(&[1, 2, 3, 4, 1]);
    let right = way(&[2, 5, 6, 3, 2]);
    let rings = assemble_rings(vec![left, right]).unwrap();
    assert_eq!(
        rings.len(),
        1,
        "nine adjacent outlines are one ring, not nine"
    );
    let r = &rings[0];
    assert_eq!(r.len(), 7, "six corners plus the repeated first");
    let mut corners = r[..6].to_vec();
    corners.sort();
    assert_eq!(corners, vec![1, 2, 3, 4, 5, 6]);
    // The wall itself is gone: 2 and 3 are never consecutive.
    let wall = r
        .windows(2)
        .any(|w| (w[0] == 2 && w[1] == 3) || (w[0] == 3 && w[1] == 2));
    assert!(!wall, "the shared wall survived: {r:?}");
}

/// A member missing from the extract leaves an open chain. libosmium
/// reports that as a broken area and emits nothing; so do we.
#[test]
fn an_unclosable_relation_is_refused() {
    assert!(assemble_rings(vec![way(&[1, 2, 3]), way(&[3, 4, 5])]).is_none());
}

/// Consecutive duplicate positions (two OSM nodes at one coordinate) are
/// not segments, and a "ring" of two points is not a ring.
#[test]
fn degenerate_input_produces_no_ring() {
    assert_eq!(assemble_rings(vec![way(&[1, 1, 1])]).unwrap().len(), 0);
    assert_eq!(assemble_rings(vec![way(&[1, 2, 1])]).unwrap().len(), 0);
    assert_eq!(assemble_rings(vec![]).unwrap().len(), 0);
}

#[test]
fn the_order_of_the_members_changes_no_outline() {
    let parts = [way(&[1, 2, 3]), way(&[3, 4, 1]), way(&[7, 8, 9, 7])];
    let sorted = |rings: Vec<Vec<u64>>| {
        let mut all: Vec<(u64, u64)> = rings
            .iter()
            .flat_map(|r| r.windows(2).map(|w| (w[0].min(w[1]), w[0].max(w[1]))))
            .collect();
        all.sort();
        all
    };
    let want = sorted(assemble_rings(parts.to_vec()).unwrap());
    assert_eq!(want, vec![(1, 2), (1, 4), (2, 3), (3, 4), (7, 8), (7, 9), (8, 9)]);
    for order in [[0, 2, 1], [1, 0, 2], [1, 2, 0], [2, 0, 1], [2, 1, 0]] {
        let shuffled: Vec<Vec<u64>> = order.iter().map(|&i| parts[i].clone()).collect();
        assert_eq!(sorted(assemble_rings(shuffled).unwrap()), want);
    }
}

// --- nesting -----------------------------------------------------------------
// What a ring is on the plane is measured here; what follows from the
// measurements is the library's.

#[derive(Clone)]
struct Ring {
    pts: Vec<[f64; 2]>,
    bbox: [f64; 4],
    area: f64,
}

fn ring(pts: Vec<[f64; 2]>) -> Ring {
    let mut bbox = [f64::INFINITY, f64::INFINITY, f64::NEG_INFINITY, f64::NEG_INFINITY];
    let mut acc = 0.0;
    for w in pts.windows(2) {
        let (a, b) = (w[0], w[1]);
        bbox[0] = bbox[0].min(a[0]);
        bbox[1] = bbox[1].min(a[1]);
        bbox[2] = bbox[2].max(a[0]);
        bbox[3] = bbox[3].max(a[1]);
        acc += a[0] * b[1] - b[0] * a[1];
    }
    Ring { pts, bbox, area: acc / 2.0 }
}

fn square(x0: f64, y0: f64, x1: f64, y1: f64) -> Ring {
    ring(vec![[x0, y0], [x1, y0], [x1, y1], [x0, y1], [x0, y0]])
}

fn point_in_ring(pts: &[[f64; 2]], p: [f64; 2]) -> bool {
    let mut inside = false;
    for w in pts.windows(2) {
        let (a, b) = (w[0], w[1]);
        if (a[1] > p[1]) != (b[1] > p[1]) {
            let t = (p[1] - a[1]) / (b[1] - a[1]);
            if p[0] < a[0] + t * (b[0] - a[0]) {
                inside = !inside;
            }
        }
    }
    inside
}

fn contains(outer: &Ring, inner: &Ring) -> bool {
    let (o, i) = (outer.bbox, inner.bbox);
    let boxed = !(i[0] < o[0] || i[1] < o[1] || i[2] > o[2] || i[3] > o[3]);
    let looks = samples(inner.pts.len())
        .iter()
        .map(|&k| point_in_ring(&outer.pts, inner.pts[k]))
        .collect();
    ring_contains(boxed, &looks)
}

fn polygons(rings: Vec<Ring>) -> Vec<Vec<Ring>> {
    let areas = rings.iter().map(|r| r.area.abs().to_bits()).collect();
    let inside = rings
        .iter()
        .map(|outer| rings.iter().map(|inner| contains(outer, inner)).collect())
        .collect();
    classify(&areas, &inside)
        .iter()
        .map(|poly| {
            poly.iter()
                .enumerate()
                .map(|(at, &i)| {
                    let mut r = rings[i].clone();
                    if reversed(r.area > 0.0, at == 0) {
                        r.pts.reverse();
                        r.area = -r.area;
                    }
                    r
                })
                .collect()
        })
        .collect()
}

/// Roles are never consulted: nesting is decided by containment, and a
/// ring inside a ring is a hole whichever order they arrive in.
#[test]
fn a_ring_inside_another_is_its_hole() {
    for order in [[0, 1], [1, 0]] {
        let rings: Vec<Ring> = order
            .iter()
            .map(|&i| {
                if i == 0 {
                    square(0.0, 0.0, 10.0, 10.0)
                } else {
                    square(2.0, 2.0, 4.0, 4.0)
                }
            })
            .collect();
        let polys = polygons(rings);
        assert_eq!(polys.len(), 1);
        assert_eq!(polys[0].len(), 2, "one outer, one hole");
        assert!(polys[0][0].area > 0.0, "outer is counter-clockwise");
        assert!(polys[0][1].area < 0.0, "hole is clockwise");
        assert_eq!(polys[0][0].bbox, [0.0, 0.0, 10.0, 10.0]);
    }
}

/// An island in a lake in an island: depth 2 is an outer ring again, so the
/// result is two polygons and not one with a bogus hole.
#[test]
fn nesting_alternates_outer_and_hole_by_depth() {
    let polys = polygons(vec![
        square(0.0, 0.0, 10.0, 10.0),
        square(1.0, 1.0, 9.0, 9.0),
        square(4.0, 4.0, 6.0, 6.0),
    ]);
    assert_eq!(polys.len(), 2);
    let big = polys
        .iter()
        .find(|p| p[0].bbox == [0.0, 0.0, 10.0, 10.0])
        .unwrap();
    let small = polys
        .iter()
        .find(|p| p[0].bbox == [4.0, 4.0, 6.0, 6.0])
        .unwrap();
    assert_eq!(big.len(), 2, "the lake is the island's hole");
    assert_eq!(small.len(), 1, "the inner island is its own polygon");
}

/// Two disjoint rings are two polygons, and neither is a hole.
#[test]
fn disjoint_rings_are_separate_polygons() {
    let polys = polygons(vec![square(0.0, 0.0, 1.0, 1.0), square(5.0, 5.0, 6.0, 6.0)]);
    assert_eq!(polys.len(), 2);
    assert!(polys.iter().all(|p| p.len() == 1));
}

/// A hole that touches its outer ring at a vertex -- a lake reaching the
/// edge of its wood -- still counts as inside, because containment samples
/// several vertices rather than trusting one that sits on the boundary.
#[test]
fn a_hole_sharing_a_vertex_with_its_outer_is_still_inside() {
    let outer = square(0.0, 0.0, 10.0, 10.0);
    let inner = ring(vec![
        [0.0, 0.0],
        [3.0, 1.0],
        [3.0, 3.0],
        [1.0, 3.0],
        [0.0, 0.0],
    ]);
    let polys = polygons(vec![outer, inner]);
    assert_eq!(polys.len(), 1);
    assert_eq!(polys[0].len(), 2);
}

#[test]
fn containment_takes_a_majority() {
    assert_eq!(samples(5), vec![0, 1, 2, 3]);
    assert_eq!(samples(28), vec![0, 3, 6, 9, 12, 15, 18, 21, 24]);
    assert!(!ring_contains(false, &vec![true, true, true]));
    assert!(ring_contains(true, &vec![true, true, false]));
    assert!(!ring_contains(true, &vec![true, false]), "half is no majority");
}

// --- well-known binary ---------------------------------------------------------

fn u32_at(b: &[u8], p: usize) -> u32 {
    u32::from_le_bytes(b[p..p + 4].try_into().unwrap())
}

fn f64_at(b: &[u8], p: usize) -> f64 {
    f64::from_le_bytes(b[p..p + 8].try_into().unwrap())
}

fn points(pts: &[[f64; 2]]) -> Vec<Pt> {
    pts.iter()
        .map(|p| Pt { x: p[0].to_bits(), y: p[1].to_bits() })
        .collect()
}

/// The WKB layout DuckDB's ST_GeomFromWKB reads: little-endian marker, type,
/// counts, then coordinate pairs.
#[test]
fn wkb_layouts_match_the_spec() {
    let line = wkb_linestring(&points(&[[1.0, 2.0], [3.0, 4.0]]));
    assert_eq!(line.len(), 1 + 4 + 4 + 2 * 16);
    assert_eq!(line[0], 1, "little-endian");
    assert_eq!(u32_at(&line, 1), 2, "LineString");
    assert_eq!(u32_at(&line, 5), 2, "two points");
    assert_eq!(f64_at(&line, 9), 1.0);
    assert_eq!(f64_at(&line, 9 + 24), 4.0);

    let polys = polygons(vec![
        square(0.0, 0.0, 10.0, 10.0),
        square(2.0, 2.0, 4.0, 4.0),
    ]);
    let plain = polys
        .iter()
        .map(|poly| poly.iter().map(|r| points(&r.pts)).collect())
        .collect();
    let mp = wkb_multipolygon(&plain);
    assert_eq!(u32_at(&mp, 1), 6, "MultiPolygon");
    assert_eq!(u32_at(&mp, 5), 1, "one polygon");
    assert_eq!(mp[9], 1);
    assert_eq!(u32_at(&mp, 10), 3, "Polygon");
    assert_eq!(u32_at(&mp, 14), 2, "two rings");
    assert_eq!(u32_at(&mp, 18), 5, "five points in the outer ring");
    assert_eq!(mp.len(), 9 + 9 + 2 * 4 + 10 * 16);
}
