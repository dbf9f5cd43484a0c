use minimap::hilbert::{cell_at, cells_of, edge_of, extent_of, hilbert, quads_of};

#[test]
fn hilbert_is_a_permutation_and_a_walk() {
    // Every cell exactly once, consecutive keys on adjacent cells, and the
    // inverse agreeing throughout -- the properties the whole partition
    // leans on, since a zone is an interval of this curve and is only
    // compact if the curve is local.
    for level in 1..=5 {
        let n = 1u32 << level;
        let mut seen = vec![None; (n as usize) * (n as usize)];
        for y in 0..n {
            for x in 0..n {
                let d = hilbert(level, x, y);
                assert_eq!(cell_at(level, d), (x, y), "level {level}: inverse");
                let slot = &mut seen[d as usize];
                assert!(slot.is_none(), "level {level}: key {d} twice");
                *slot = Some((x, y));
            }
        }
        for pair in seen.windows(2) {
            let (a, b) = (pair[0].unwrap(), pair[1].unwrap());
            let step = a.0.abs_diff(b.0) + a.1.abs_diff(b.1);
            assert_eq!(step, 1, "level {level}: jump from {a:?} to {b:?}");
        }
    }
}

fn lon_of(level: u32, x: u32) -> f64 {
    f64::from(x) / f64::from(1u32 << level) * 360.0 - 180.0
}

fn lat_of(level: u32, y: u32) -> f64 {
    let t = std::f64::consts::PI * (1.0 - 2.0 * f64::from(y) / f64::from(1u32 << level));
    t.sinh().atan().to_degrees()
}

/// The claim that lets a zone be stored as two numbers: the interval's box,
/// derived by decomposing it into aligned squares, is the same box you get by
/// walking every cell in it.
#[test]
fn interval_boxes_match_brute_force() {
    for level in 1..=4 {
        let n = 1u64 << (2 * level);
        for a in 0..n {
            for b in a + 1..=n {
                let (mut bx, mut by, mut mx, mut my) = (u32::MAX, u32::MAX, 0, 0);
                for d in a..b {
                    let (x, y) = cell_at(level, d);
                    bx = bx.min(x);
                    by = by.min(y);
                    mx = mx.max(x);
                    my = my.max(y);
                }
                let e = extent_of(level, a, b);
                assert_eq!(e.cells, b - a);
                assert_eq!(
                    [
                        lon_of(level, bx),
                        lat_of(level, my + 1),
                        lon_of(level, mx + 1),
                        lat_of(level, by)
                    ],
                    [
                        lon_of(level, e.min_x),
                        lat_of(level, e.max_y + 1),
                        lon_of(level, e.max_x + 1),
                        lat_of(level, e.min_y)
                    ],
                    "level {level}, interval [{a},{b})"
                );
            }
        }
    }
}

#[test]
fn the_squares_of_an_interval_tile_it() {
    for level in 1..=3 {
        let n = cells_of(level);
        for a in 0..n {
            for b in a..=n {
                let mut seen = std::collections::HashSet::new();
                for q in quads_of(level, a, b) {
                    assert!(q.side.is_power_of_two());
                    assert_eq!((q.x % q.side, q.y % q.side), (0, 0));
                    for y in q.y..q.y + q.side {
                        for x in q.x..q.x + q.side {
                            assert!(seen.insert((x, y)), "a cell is in one square only");
                            let d = hilbert(level, x, y);
                            assert!(a <= d && d < b);
                        }
                    }
                }
                assert_eq!(seen.len() as u64, b - a);
            }
        }
    }
}

#[test]
fn the_curve_starts_in_a_corner_and_ends_in_the_next() {
    assert_eq!(edge_of(18), 1 << 18);
    assert_eq!(cells_of(18), 1 << 36);
    assert_eq!(hilbert(18, 0, 0), 0);
    assert_eq!(cell_at(18, cells_of(18) - 1), ((1 << 18) - 1, 0));
    assert_eq!(hilbert(1, 0, 1), 1);
    assert_eq!(hilbert(1, 1, 1), 2);
    assert_eq!(hilbert(1, 1, 0), 3);
    // The deepest grid whose coordinates are machine numbers.
    let (x, y) = (0xdead_beef, 0x0bad_cafe);
    assert_eq!(cell_at(32, hilbert(32, x, y)), (x, y));
}
