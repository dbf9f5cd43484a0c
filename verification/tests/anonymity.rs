use minimap::answer::{kind_of, unpack_density, unpack_index, Shape};
use minimap::cut::{cut, Bin, Piece};
use minimap::hilbert::{cell_at, cells_of, hilbert, Extent};
use minimap::zones::{encode, EncodeError, Index, IndexError, Record};

const WORLD_BOUNDS: [f64; 4] = [-180.0, -85.0, 180.0, 85.0];
const LAT_LIMIT: f64 = 85.0511287798066;

fn bits(bounds: [f64; 4]) -> [u64; 4] {
    bounds.map(f64::to_bits)
}

fn lon_of(level: u32, x: u32) -> f64 {
    f64::from(x) / f64::from(1u32 << level) * 360.0 - 180.0
}

fn lat_of(level: u32, y: u32) -> f64 {
    let t = std::f64::consts::PI * (1.0 - 2.0 * f64::from(y) / f64::from(1u32 << level));
    t.sinh().atan().to_degrees()
}

fn cell_of(level: u32, lat: f64, lon: f64) -> (u32, u32) {
    let n = f64::from(1u32 << level);
    let lat = lat.clamp(-LAT_LIMIT, LAT_LIMIT);
    let x = (lon + 180.0) / 360.0 * n;
    let y = (1.0 - (lat.to_radians().tan()).asinh() / std::f64::consts::PI) / 2.0 * n;
    let last = (1u32 << level) - 1;
    (
        (x.floor().max(0.0) as u32).min(last),
        (y.floor().max(0.0) as u32).min(last),
    )
}

fn bbox(level: u32, e: &Extent) -> [f64; 4] {
    [
        lon_of(level, e.min_x),
        lat_of(level, e.max_y + 1),
        lon_of(level, e.max_x + 1),
        lat_of(level, e.min_y),
    ]
}

struct Measured {
    bin: Bin,
    density: f32,
    built: f32,
}

/// A deterministic pseudo-random continent: dense in one corner, thinning
/// out, empty over most of it.
fn continent(level: u32) -> Vec<Measured> {
    let n = 1u32 << level;
    let mut bins = Vec::new();
    for y in 0..n {
        for x in 0..n {
            let h = u64::from(x)
                .wrapping_mul(6_364_136_223_846_793_005)
                .wrapping_add(u64::from(y).wrapping_mul(1_442_695_040_888_963_407))
                >> 33;
            let buildings = match (x < n / 5 && y < n / 5, h % 7) {
                (true, _) => 20 + (h % 90) as u32,
                (false, 0) => 1 + (h % 3) as u32,
                _ => 0,
            };
            if buildings > 0 {
                bins.push(Measured {
                    bin: Bin {
                        key: hilbert(level, x, y),
                        buildings,
                    },
                    density: (buildings * 40) as f32,
                    built: f32::from(buildings as u16) / 4.0,
                });
            }
        }
    }
    bins.sort_by_key(|b| b.bin.key);
    bins
}

fn pieces(bins: &[Measured], k: u32) -> Vec<Piece> {
    let plain: Vec<Bin> = bins.iter().map(|b| b.bin).collect();
    cut(&plain, k)
}

/// The mean of a measure over a zone's buildings.
fn mean(bins: &[Measured], p: &Piece, of: fn(&Measured) -> f32) -> f64 {
    let sum: f64 = bins[p.first..p.last]
        .iter()
        .map(|b| f64::from(of(b)) * f64::from(b.bin.buildings))
        .sum();
    sum / f64::from(p.buildings)
}

fn records(bins: &[Measured], k: u32) -> Vec<Record> {
    pieces(bins, k)
        .iter()
        .map(|p| Record {
            start: p.start,
            buildings: p.buildings,
            density: (mean(bins, p, |b| b.density).max(0.0).sqrt() * 3.0).round().min(255.0) as u8,
            built: (mean(bins, p, |b| b.built).max(0.0).sqrt() * 18.0).round().min(255.0) as u8,
        })
        .collect()
}

/// The guarantee, over *every* cell of the grid rather than a sample --
/// because the failure being guarded against is a leak on the sparse fringe,
/// which is exactly where a sample would not look.
#[test]
fn every_position_is_hidden_among_k_buildings() {
    let level = 6;
    let n = 1u32 << level;
    let bins = continent(level);
    let total: u32 = bins.iter().map(|b| b.bin.buildings).sum();

    for k in [2, 16, 64, 512] {
        for block in [1, 7, 64] {
            let zones = records(&bins, k);
            let bytes = encode(level, block, bits(WORLD_BOUNDS), &vec![(k, zones.clone())]).unwrap();
            let ix = Index::parse(&bytes).unwrap();

            let mut answers = std::collections::HashMap::new();
            for y in 0..n {
                for x in 0..n {
                    let lat = (lat_of(level, y) + lat_of(level, y + 1)) / 2.0;
                    let lon = (lon_of(level, x) + lon_of(level, x + 1)) / 2.0;
                    let (cx, cy) = cell_of(level, lat, lon);
                    let z = ix.zone(&bytes, 0, cx, cy).expect("total");
                    assert!(
                        z.buildings >= k.min(total),
                        "k={k} block={block}: ({x},{y}) hidden among only {}",
                        z.buildings
                    );
                    // The box has to contain the position that asked, which
                    // is the property a box around the zone's buildings
                    // would not have.
                    let [w, s, e, nn] = bbox(level, &z.extent);
                    assert!(
                        w <= lon && lon <= e && s <= lat && lat <= nn,
                        "k={k}: ({x},{y}) outside its own zone {:?}",
                        z.extent
                    );
                    answers.insert((x, y), z.id);
                }
            }

            // Every zone reachable, and no answer that is not a zone: the
            // count of distinct ids has to match the partition exactly.
            let ids: std::collections::HashSet<_> = answers.values().copied().collect();
            assert_eq!(
                ids.len(),
                zones.len(),
                "k={k} block={block}: partition has a hole"
            );
            assert!(zones.iter().all(|z| ids.contains(&z.start)));
        }
    }
}

/// Clipping the reported box to the covered region must not clip away a
/// position the index still answers for.
#[test]
fn clipping_keeps_every_answerable_position_inside_its_box() {
    let level = 6;
    let n = 1u32 << level;
    let bins = continent(level);
    // A region covering the dense corner and a little slack, so most of the
    // grid is out of bounds and the clip actually bites.
    let bounds = [
        lon_of(level, 0),
        lat_of(level, n / 3),
        lon_of(level, n / 3),
        lat_of(level, 0),
    ];
    let bytes = encode(level, 64, bits(bounds), &vec![(32, records(&bins, 32))]).unwrap();
    let ix = Index::parse(&bytes).unwrap();
    let [bw, bs, be, bn] = ix.bounds.map(f64::from_bits);

    let mut inside = 0;
    for y in 0..n {
        for x in 0..n {
            let lat = (lat_of(level, y) + lat_of(level, y + 1)) / 2.0;
            let lon = (lon_of(level, x) + lon_of(level, x + 1)) / 2.0;
            if !((bw..=be).contains(&lon) && (bs..=bn).contains(&lat)) {
                continue;
            }
            inside += 1;
            let (cx, cy) = cell_of(level, lat, lon);
            let z = ix.zone(&bytes, 0, cx, cy).expect("total");
            let [zw, zs, ze, zn] = bbox(level, &z.extent);
            let [w, s, e, nn] = [zw.max(bw), zs.max(bs), ze.min(be), zn.min(bn)];
            assert!(
                w <= lon && lon <= e && s <= lat && lat <= nn,
                "({x},{y}) clipped out of its own zone {:?}",
                z.extent
            );
        }
    }
    assert!(
        inside > 100,
        "the covered region should hold most of a corner"
    );
}

#[test]
fn payloads_survive_the_round_trip() {
    let level = 6;
    let bins = continent(level);
    let cuts = pieces(&bins, 32);
    let zones = records(&bins, 32);
    let bytes = encode(level, 64, bits(WORLD_BOUNDS), &vec![(32, zones.clone())]).unwrap();
    let ix = Index::parse(&bytes).unwrap();

    for (piece, want) in cuts.iter().zip(&zones) {
        let (x, y) = cell_at(level, want.start);
        let lat = (lat_of(level, y) + lat_of(level, y + 1)) / 2.0;
        let lon = (lon_of(level, x) + lon_of(level, x + 1)) / 2.0;
        let (cx, cy) = cell_of(level, lat, lon);
        let got = ix.zone(&bytes, 0, cx, cy).expect("its own zone");
        assert_eq!(got.id, want.start);
        assert_eq!(got.buildings, want.buildings);
        assert_eq!((got.density, got.built), (want.density, want.built));
        // Square-root quantised to a byte: 3% on density, 0.4 points at the
        // top of the built-up range and far finer at the bottom.
        let density = mean(&bins, piece, |b| b.density);
        assert!(
            (f64::from(unpack_density(got.density)) - density).abs() <= density * 0.03 + 1.0,
            "density {} vs {}",
            unpack_density(got.density),
            density
        );
        let built = mean(&bins, piece, |b| b.built);
        let index: f64 = unpack_index(got.built).parse().unwrap();
        assert!((index - built).abs() <= 1.2, "built index {} vs {}", index, built);
    }
}

#[test]
fn nonsense_files_are_refused_not_misread() {
    let bins = continent(4);
    let zones = records(&bins, 16);
    let good = encode(4, 8, bits(WORLD_BOUNDS), &vec![(16, zones)]).unwrap();
    assert!(Index::parse(&good).is_ok());

    assert!(Index::parse(b"").is_err());
    assert!(Index::parse(&good[..40]).is_err());
    for (at, to) in [(8, 9u8), (12, 99), (16, 0)] {
        let mut bad = good.clone();
        bad[at] = to;
        assert!(
            Index::parse(&bad).is_err(),
            "byte {at} -> {to} should be refused"
        );
    }
    // Truncated mid-stream: parse cannot see it, so the lookup has to.
    let ix = Index::parse(&good).unwrap();
    let short = &good[..good.len() - 4];
    let mut refused = 0;
    for x in 0..16u32 {
        let (cx, cy) = cell_of(4, 10.0, lon_of(4, x) + 1.0);
        if ix.zone(short, 0, cx, cy).is_none() {
            refused += 1;
        }
    }
    assert!(refused > 0, "a truncated stream must fail some lookup");
}

#[test]
fn a_gap_in_the_partition_is_refused() {
    let mut zones = records(&continent(4), 16);
    zones[0].start = 1; // no longer covers the start of the curve
    assert!(encode(4, 8, bits(WORLD_BOUNDS), &vec![(16, zones)]).is_err());

    let mut zones = records(&continent(4), 16);
    zones.swap(1, 2); // out of order
    assert!(encode(4, 8, bits(WORLD_BOUNDS), &vec![(16, zones)]).is_err());

    let mut zones = records(&continent(4), 16);
    zones[1].buildings = 3; // below k, and not the tail
    assert!(encode(4, 8, bits(WORLD_BOUNDS), &vec![(16, zones)]).is_err());
}

fn record(start: u64, buildings: u32) -> Record {
    Record { start, buildings, density: 9, built: 36 }
}

#[test]
fn every_way_to_misbuild_an_index_has_its_words() {
    let b = bits(WORLD_BOUNDS);
    let one = |tiers: Vec<Record>| encode(4, 8, b, &vec![(16, tiers)]).unwrap_err();
    assert_eq!(encode(0, 8, b, &vec![]).unwrap_err(), EncodeError::Level(0));
    assert_eq!(encode(25, 8, b, &vec![]).unwrap_err().message(), "level 25 out of range");
    assert_eq!(encode(4, 0, b, &vec![]).unwrap_err().message(), "block size must be positive");
    assert_eq!(one(vec![]).message(), "tier k=16 is empty");
    assert_eq!(
        one(vec![record(1, 20)]).message(),
        "tier k=16 does not start at 0, leaving a gap"
    );
    assert_eq!(
        one(vec![record(0, 20), record(256, 20)]).message(),
        "tier k=16 has a zone past the end of the curve"
    );
    assert_eq!(
        one(vec![record(0, 20), record(9, 20), record(9, 20)]).message(),
        "tier k=16 is not sorted by start"
    );
    assert_eq!(
        one(vec![record(0, 20), record(171, 15)]).message(),
        "tier k=16 has a zone of 15 buildings at ab"
    );
    assert_eq!(EncodeError::TooLong(7).message(), "tier k=7 stream exceeds 4 GB");
    // A tier of a single zone may fall short: there is nothing to merge it into.
    assert!(encode(4, 8, b, &vec![(16, vec![record(0, 3)])]).is_ok());
}

#[test]
fn every_way_to_misread_an_index_has_its_words() {
    let zones = records(&continent(4), 16);
    let good = encode(4, 8, bits(WORLD_BOUNDS), &vec![(16, zones)]).unwrap();
    let with = |at: usize, to: u8| {
        let mut bad = good.clone();
        bad[at] = to;
        Index::parse(&bad).unwrap_err()
    };
    assert_eq!(Index::parse(b"short").unwrap_err().message(), "not an anon-zone index");
    assert_eq!(with(0, b'B'), IndexError::NotAnIndex);
    assert_eq!(with(8, 9).message(), "index version 9 unsupported, expected 3");
    assert_eq!(with(12, 99).message(), "index level 99 out of range");
    assert_eq!(with(16, 0).message(), "index block size is zero");
    assert_eq!(with(23, 1).message(), "index truncated in the tier table");
    assert_eq!(with(20, 0).message(), "index has no tiers");
    // The first tier's count of zones is at 60, and where its skip table starts at 64.
    let mut empty = good.clone();
    empty[60..64].fill(0);
    assert_eq!(Index::parse(&empty).unwrap_err().message(), "tier k=16 has no zones");
    assert_eq!(with(71, 1).message(), "index truncated in tier k=16");
}

#[test]
fn a_cut_folds_the_tail_and_stretches_the_front() {
    let bins: Vec<Bin> = [(5, 3), (9, 2), (12, 4), (20, 1)]
        .iter()
        .map(|&(key, buildings)| Bin { key, buildings })
        .collect();
    let cuts = cut(&bins, 4);
    assert_eq!(
        cuts,
        vec![
            Piece { start: 0, buildings: 5, first: 0, last: 2 },
            Piece { start: 12, buildings: 5, first: 2, last: 4 },
        ]
    );
    assert_eq!(
        cut(&bins, 100),
        vec![Piece { start: 0, buildings: 10, first: 0, last: 4 }]
    );
    assert_eq!(cut(&[], 4), vec![]);
}

#[test]
fn the_most_private_tier_is_the_default() {
    let tiers = vec![
        (16, vec![record(0, 300)]),
        (256, vec![record(0, 300)]),
        (64, vec![record(0, 300)]),
    ];
    let bytes = encode(4, 8, bits(WORLD_BOUNDS), &tiers).unwrap();
    let ix = Index::parse(&bytes).unwrap();
    assert_eq!(ix.tier(None), Some(1));
    assert_eq!(ix.tier(Some(64)), Some(2));
    assert_eq!(ix.tier(Some(17)), None);
}

#[test]
fn a_zone_is_the_same_from_every_cell_of_it() {
    let level = 4;
    let bytes = encode(level, 2, bits(WORLD_BOUNDS), &vec![(2, vec![record(0, 5), record(100, 7), record(200, 9)])]).unwrap();
    let ix = Index::parse(&bytes).unwrap();
    let mut answers = std::collections::HashMap::new();
    for d in 0..cells_of(level) {
        let (x, y) = cell_at(level, d);
        let z = ix.zone(&bytes, 0, x, y).unwrap();
        assert!(z.id <= d && d < z.end);
        let same = answers.entry(z.id).or_insert(z);
        assert_eq!(*same, z);
        let covered: u64 = ix.quads(&z).iter().map(|q| u64::from(q.side) * u64::from(q.side)).sum();
        assert_eq!(covered, z.end - z.id);
    }
    assert_eq!(answers.len(), 3);
}

/// Records that nobody wrote here: as long as the blocks come in order, zones of one id
/// are one zone.
#[test]
fn one_id_has_one_answer_in_any_file() {
    let level = 4;
    let zones = (0..10).map(|i| record(25 * i, 5)).collect();
    let good = encode(level, 4, bits(WORLD_BOUNDS), &vec![(2, zones)]).unwrap();
    let ix = Index::parse(&good).unwrap();
    for at in good.len() - 30..good.len() {
        for to in [0u8, 1, 77, 0x80, 0xff] {
            let mut file = good.clone();
            file[at] = to;
            let mut answers = std::collections::HashMap::new();
            for d in 0..cells_of(level) {
                let (x, y) = cell_at(level, d);
                if let Some(z) = ix.zone(&file, 0, x, y) {
                    assert_eq!(*answers.entry(z.id).or_insert(z), z);
                }
            }
        }
    }
}

#[test]
fn bytes_stand_for_measures() {
    for code in 0..=255u8 {
        let root = f64::from(code) / 3.0;
        assert_eq!(unpack_density(code), (root * root).round() as u32);
        let root = f64::from(code) / 18.0;
        let index = root * root;
        assert_eq!(unpack_index(code), format!("{index:.2}"));
        let kind = if index < 0.1 {
            "wilderness"
        } else if index < 3.0 {
            "countryside"
        } else if index < 10.0 {
            "village"
        } else if index < 25.0 {
            "suburb"
        } else if index < 50.0 {
            "city"
        } else {
            "city-centre"
        };
        assert_eq!(kind_of(code), kind, "{code}");
    }
}

#[test]
fn an_answer_is_json() {
    let zone = minimap::zones::Zone {
        id: 0xd99798fa5,
        end: 0xd99798fb1,
        buildings: 69,
        k: 64,
        extent: Extent { min_x: 1, min_y: 2, max_x: 3, max_y: 4, cells: 12 },
        density: 66,
        built: 107,
    };
    let shape = Shape {
        west: "2.300262",
        south: "49.894634",
        east: "2.307129",
        north: "49.898173",
        center_lon: "2.303696",
        center_lat: "49.896404",
        radius_m: "315",
        area_km2: "0.116",
    };
    assert_eq!(
        zone.to_json(&shape),
        "{\"zone\":\"d99798fa5\",\"k\":64,\"buildings\":69,\
         \"bbox\":[2.300262,49.894634,2.307129,49.898173],\"center\":[2.303696,49.896404],\
         \"radius_m\":315,\"area_km2\":0.116,\"cells\":12,\
         \"density_per_km2\":484,\"built_index\":35.34,\"kind\":\"city\"}"
    );
}
