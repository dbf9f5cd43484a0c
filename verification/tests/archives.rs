use std::io::{Read, Write};

use minimap::archive::{Archive, ArchiveError, Header};
use minimap::bytes::{put_varint, varint};
use minimap::directory::{find, parse_directory, tile_id, Entry};
use minimap::leaves::{Leaves, ENTRY_BYTES};

/// A valid archive of every tile of every level up to `max_zoom`, made here rather
/// than baked. The tiles hold deterministic filler; the structure is what is real:
/// a gzipped root, gzipped leaves below it, entries in curve order.
struct Fixture {
    bytes: Vec<u8>,
    tiles: Vec<(u8, u32, u32)>,
    leaves: usize,
}

const LEAF_SIZE: usize = 128;

fn archive(max_zoom: u8, salt: u64) -> Fixture {
    let mut all: Vec<(u64, u8, u32, u32)> = Vec::new();
    for z in 0..=max_zoom {
        let n = 1u32 << z;
        for x in 0..n {
            for y in 0..n {
                all.push((tile_id(z, x, y).unwrap(), z, x, y));
            }
        }
    }
    all.sort_by_key(|&(id, ..)| id);

    let mut data = Vec::new();
    let mut entries = Vec::with_capacity(all.len());
    for &(id, z, ..) in &all {
        let gz = gzip(&filler(id ^ salt, z));
        entries.push(Entry {
            tile_id: id,
            offset: data.len() as u64,
            length: gz.len() as u32,
            run_length: 1,
        });
        data.extend_from_slice(&gz);
    }

    let mut leaf_section = Vec::new();
    let mut root = Vec::new();
    for chunk in entries.chunks(LEAF_SIZE) {
        let gz = gzip(&serialise(chunk, true));
        root.push(Entry {
            tile_id: chunk[0].tile_id,
            offset: leaf_section.len() as u64,
            length: gz.len() as u32,
            run_length: 0,
        });
        leaf_section.extend_from_slice(&gz);
    }
    let leaves = root.len();
    let root_gz = gzip(&serialise(&root, true));

    let rungs: Vec<String> = (0..=max_zoom).map(|z| z.to_string()).collect();
    let meta = format!(
        "{{\"name\":\"perf\",\"rungs\":[{}],\"attribution\":\"synthetic\"}}",
        rungs.join(",")
    );
    let meta_gz = gzip(meta.as_bytes());

    let root_off = 127u64;
    let meta_off = root_off + root_gz.len() as u64;
    let leaf_off = meta_off + meta_gz.len() as u64;
    let data_off = leaf_off + leaf_section.len() as u64;

    let mut h = vec![0u8; 127];
    h[0..7].copy_from_slice(b"PMTiles");
    h[7] = 3;
    put_u64(&mut h, 8, root_off);
    put_u64(&mut h, 16, root_gz.len() as u64);
    put_u64(&mut h, 24, meta_off);
    put_u64(&mut h, 32, meta_gz.len() as u64);
    put_u64(&mut h, 40, leaf_off);
    put_u64(&mut h, 48, leaf_section.len() as u64);
    put_u64(&mut h, 56, data_off);
    put_u64(&mut h, 64, data.len() as u64);
    put_u64(&mut h, 72, all.len() as u64);
    put_u64(&mut h, 80, all.len() as u64);
    put_u64(&mut h, 88, all.len() as u64);
    h[96] = 1;
    h[97] = 2;
    h[98] = 2;
    h[99] = 1;
    h[100] = 0;
    h[101] = max_zoom;
    put_i32(&mut h, 102, -1800000000);
    put_i32(&mut h, 106, -850511287);
    put_i32(&mut h, 110, 1800000000);
    put_i32(&mut h, 114, 850511287);
    h[118] = max_zoom / 2;
    put_i32(&mut h, 119, 0);
    put_i32(&mut h, 123, 0);

    let mut bytes = h;
    bytes.extend_from_slice(&root_gz);
    bytes.extend_from_slice(&meta_gz);
    bytes.extend_from_slice(&leaf_section);
    bytes.extend_from_slice(&data);
    Fixture {
        bytes,
        tiles: all.into_iter().map(|(_, z, x, y)| (z, x, y)).collect(),
        leaves,
    }
}

/// The gzipped bytes an archive holds for one tile, made again.
fn stored(z: u8, x: u32, y: u32, salt: u64) -> Vec<u8> {
    gzip(&filler(tile_id(z, x, y).unwrap() ^ salt, z))
}

fn put(out: &mut Vec<u8>, mut v: u64) {
    while v >= 0x80 {
        out.push((v as u8) | 0x80);
        v >>= 7;
    }
    out.push(v as u8);
}

/// A directory as the writer lays it out: count, then the four columns.
/// `explicit` writes every offset; otherwise contiguous entries use the
/// zero shorthand the format allows.
fn serialise(entries: &[Entry], explicit: bool) -> Vec<u8> {
    let mut out = Vec::new();
    put(&mut out, entries.len() as u64);
    let mut last = 0;
    for e in entries {
        put(&mut out, e.tile_id - last);
        last = e.tile_id;
    }
    for e in entries {
        put(&mut out, u64::from(e.run_length));
    }
    for e in entries {
        put(&mut out, u64::from(e.length));
    }
    for (i, e) in entries.iter().enumerate() {
        let contiguous =
            i > 0 && entries[i - 1].offset + u64::from(entries[i - 1].length) == e.offset;
        put(
            &mut out,
            if !explicit && contiguous {
                0
            } else {
                e.offset + 1
            },
        );
    }
    out
}

fn put_u64(b: &mut [u8], at: usize, v: u64) {
    b[at..at + 8].copy_from_slice(&v.to_le_bytes());
}

fn put_i32(b: &mut [u8], at: usize, v: i32) {
    b[at..at + 4].copy_from_slice(&v.to_le_bytes());
}

fn gzip(bytes: &[u8]) -> Vec<u8> {
    let mut e = flate2::write::GzEncoder::new(Vec::new(), flate2::Compression::fast());
    e.write_all(bytes).unwrap();
    e.finish().unwrap()
}

/// Stand-in tile bytes: a few hundred of them, deterministic, and compressible
/// like a vector tile rather than like noise.
fn filler(seed: u64, z: u8) -> Vec<u8> {
    let mut rng = seed.wrapping_mul(0x9E3779B97F4A7C15) | 1;
    let mut next = || {
        rng ^= rng << 13;
        rng ^= rng >> 7;
        rng ^= rng << 17;
        rng
    };
    let len = 200 + (z as usize * 60) + (next() % 400) as usize;
    let mut out = Vec::with_capacity(len);
    while out.len() < len {
        out.extend_from_slice(&next().to_le_bytes()[..4]);
        out.extend_from_slice(b"minimap");
    }
    out.truncate(len);
    out
}

/// The format's own worked example: ids count tiles in Hilbert order, rung
/// by rung, so z0 is 0, z1 is 1..4 in curve order, and z2 starts at 5.
#[test]
fn tile_ids_match_the_spec() {
    assert_eq!(tile_id(0, 0, 0), Some(0));
    assert_eq!(tile_id(1, 0, 0), Some(1));
    assert_eq!(tile_id(1, 0, 1), Some(2));
    assert_eq!(tile_id(1, 1, 1), Some(3));
    assert_eq!(tile_id(1, 1, 0), Some(4));
    assert_eq!(tile_id(2, 0, 0), Some(5));
    // The first id of each rung is the number of tiles above it.
    for z in 0..12u8 {
        assert_eq!(tile_id(z, 0, 0), Some(((1u64 << (2 * z)) - 1) / 3));
    }
    assert_eq!(tile_id(3, 8, 0), None, "x past the rung's edge");
    assert_eq!(tile_id(32, 0, 0), None, "z past the format's depth");
}

/// Every tile of a rung gets its own id, ids fill the rung's range with no
/// gaps, and consecutive ids are adjacent tiles -- the property the whole
/// "tiles of one viewport sit together on disk" argument rests on.
#[test]
fn tile_ids_walk_a_hilbert_curve() {
    for z in 1..=5u8 {
        let n = 1u32 << z;
        let first = tile_id(z, 0, 0).unwrap();
        let mut at = vec![None; (n * n) as usize];
        for x in 0..n {
            for y in 0..n {
                let slot = (tile_id(z, x, y).unwrap() - first) as usize;
                assert!(at[slot].is_none(), "z{z}: id {slot} used twice");
                at[slot] = Some((x, y));
            }
        }
        for pair in at.windows(2) {
            let (a, b) = (pair[0].unwrap(), pair[1].unwrap());
            assert_eq!(
                a.0.abs_diff(b.0) + a.1.abs_diff(b.1),
                1,
                "z{z}: {a:?} -> {b:?}"
            );
        }
    }
}

fn sample() -> Vec<Entry> {
    let mut offset = 0;
    (0..50u64)
        .map(|i| {
            let e = Entry {
                tile_id: i * 3 + 7,
                offset,
                length: 100 + i as u32,
                run_length: 1 + (i % 2) as u32,
            };
            offset += u64::from(e.length);
            e
        })
        .collect()
}

#[test]
fn directories_round_trip_in_both_offset_spellings() {
    let want = sample();
    for explicit in [true, false] {
        let got = parse_directory(&serialise(&want, explicit)).expect("well-formed");
        assert_eq!(got.len(), want.len());
        for (g, w) in got.iter().zip(&want) {
            assert_eq!(
                (g.tile_id, g.offset, g.length, g.run_length),
                (w.tile_id, w.offset, w.length, w.run_length)
            );
        }
    }
}

#[test]
fn malformed_directories_are_refused_not_panicked_on() {
    let good = serialise(&sample(), true);
    assert!(parse_directory(&[]).is_none(), "empty");
    for cut in [1, good.len() / 3, good.len() - 1] {
        assert!(
            parse_directory(&good[..cut]).is_none(),
            "truncated at {cut}"
        );
    }
    // A count far beyond what the bytes could hold.
    let mut huge = Vec::new();
    put(&mut huge, u64::MAX);
    assert!(parse_directory(&huge).is_none());
    // An explicit offset of 0 on the first entry has no "previous" to be
    // contiguous with and no offset-1 to decode to.
    let mut zero = Vec::new();
    put(&mut zero, 1);
    put(&mut zero, 5);
    put(&mut zero, 1);
    put(&mut zero, 10);
    put(&mut zero, 0);
    assert!(parse_directory(&zero).is_none());
    // A varint that never terminates.
    let mut p = 0;
    assert_eq!(varint(&[0xff; 12], &mut p), None);
}

/// Each entry may spell its offset out or not, whatever the others do.
fn mixed(entries: &[Entry], explicit: &dyn Fn(usize) -> bool) -> Vec<u8> {
    let (long, short) = (serialise(entries, true), serialise(entries, false));
    let mut p = 0;
    for _ in 0..1 + 3 * entries.len() {
        varint(&long, &mut p).unwrap();
    }
    let mut out = long[..p].to_vec();
    let (mut a, mut b) = (p, p);
    for i in 0..entries.len() {
        let (full, brief) = (varint(&long, &mut a).unwrap(), varint(&short, &mut b).unwrap());
        put(&mut out, if explicit(i) { full } else { brief });
    }
    out
}

#[test]
fn directories_may_mix_offset_spellings_and_no_part_of_one_reads() {
    let want = sample();
    for step in 1..5 {
        let bytes = mixed(&want, &|i| i % step == 0);
        let got = parse_directory(&bytes).expect("well-formed");
        assert!(got.iter().zip(&want).all(|(g, w)| (g.tile_id, g.offset, g.length, g.run_length)
            == (w.tile_id, w.offset, w.length, w.run_length)));
        assert_eq!(got.len(), want.len());
        for cut in 0..bytes.len() {
            assert!(parse_directory(&bytes[..cut]).is_none(), "truncated at {cut}");
        }
    }
}

#[test]
fn find_takes_the_last_entry_at_or_below() {
    let entries = sample(); // ids 7, 10, 13, ...
    assert!(find(&entries, 6).is_none(), "below the first id");
    assert_eq!(find(&entries, 7).unwrap().tile_id, 7);
    assert_eq!(find(&entries, 9).unwrap().tile_id, 7, "inside a gap");
    assert_eq!(find(&entries, 10).unwrap().tile_id, 10);
    assert_eq!(
        find(&entries, 10_000).unwrap().tile_id,
        7 + 49 * 3,
        "past the end"
    );
    assert!(find(&[], 0).is_none());
}

#[test]
fn leaf_cache_evicts_least_recently_used_within_budget() {
    let leaf = |n: usize| vec![sample()[0]; n];
    let size = std::mem::size_of::<Entry>();
    assert_eq!(size, ENTRY_BYTES);
    let mut cache = Leaves::new(10 * size);
    for key in 0..3u64 {
        cache.clock += 1;
        cache.insert(key, leaf(4));
    }
    // 12 entries asked for, 10 allowed: the first leaf went.
    assert_eq!(cache.bytes, 8 * size);
    assert!(!cache.by_offset.contains_key(&0));
    // Touch leaf 1, then insert: leaf 2 is now the oldest and goes.
    cache.clock += 1;
    cache.by_offset.get_mut(&1).unwrap().used = cache.clock;
    cache.clock += 1;
    cache.insert(3, leaf(4));
    assert!(cache.by_offset.contains_key(&1));
    assert!(!cache.by_offset.contains_key(&2));
    // A leaf larger than the whole budget is held alone rather than refused.
    cache.clock += 1;
    cache.insert(4, leaf(50));
    assert_eq!(cache.by_offset.len(), 1);
    assert_eq!(cache.bytes, 50 * size);
    // Re-inserting a key replaces it: the old size stops being counted,
    // so the budget cannot drift out from under the eviction loop.
    cache.clock += 1;
    cache.insert(4, leaf(2));
    assert_eq!(cache.by_offset.len(), 1);
    assert_eq!(cache.bytes, 2 * size);
}

#[test]
fn varints_read_back() {
    for v in [0, 1, 127, 128, 300, 0xffff_ffff, u64::MAX] {
        let mut out = Vec::new();
        put_varint(&mut out, v);
        let mut plain = Vec::new();
        put(&mut plain, v);
        assert_eq!(out, plain);
        let mut at = 0;
        assert_eq!(varint(&out, &mut at), Some(v));
        assert_eq!(at, out.len());
    }
}

#[test]
fn every_tile_is_found_whatever_the_cache_holds() {
    let fixture = archive(5, 7);
    for budget in [0, 200 * ENTRY_BYTES, usize::MAX] {
        let mut a = Archive::open_with_cache(&fixture.bytes, budget).ok().unwrap();
        for _ in 0..2 {
            for &(z, x, y) in &fixture.tiles {
                assert_eq!(a.tile(&fixture.bytes, z, x, y), Some(&stored(z, x, y, 7)[..]));
            }
        }
        assert!(a.leaf_count() >= 1);
        assert!(a.leaf_count() <= fixture.leaves);
        assert!(a.cached_leaf_bytes() >= LEAF_SIZE * ENTRY_BYTES / 2);
    }
    let mut a = Archive::open(&fixture.bytes).ok().unwrap();
    assert_eq!(a.tile(&fixture.bytes, 6, 0, 0), None, "past the deepest level");
    assert_eq!(a.tile(&fixture.bytes, 3, 8, 0), None, "off the map");
    assert_eq!(a.tile(&fixture.bytes, 40, 0, 0), None, "no such level");
    assert_eq!(a.header.tile_count, fixture.tiles.len() as u64);
    assert!(a.metadata.contains("synthetic"));
}

#[test]
fn a_run_shares_one_blob() {
    let fixture = archive(0, 1);
    let header = Header::parse(&fixture.bytes).ok().unwrap();
    let root = vec![Entry { tile_id: 1, offset: 0, length: 4, run_length: 3 }];
    let mut a = Archive::assemble(header, root, b"{}".to_vec(), 1000).ok().unwrap();
    let start = header.tile_data_offset as usize;
    let blob = &fixture.bytes[start..start + 4];
    assert_eq!(a.tile(&fixture.bytes, 0, 0, 0), None);
    assert_eq!(a.tile(&fixture.bytes, 1, 0, 0), Some(blob));
    assert_eq!(a.tile(&fixture.bytes, 1, 1, 1), Some(blob));
    assert_eq!(a.tile(&fixture.bytes, 1, 1, 0), None, "past the run");
}

fn refusal(bytes: &[u8]) -> String {
    Archive::open(bytes).err().unwrap().message("a.pmtiles")
}

#[test]
fn broken_archives_are_refused_by_name() {
    let good = archive(2, 3).bytes;
    assert!(Archive::open(&good).is_ok());
    assert_eq!(refusal(&good[..100]), "a.pmtiles is not a PMTiles archive");
    let with = |at: usize, to: u8| {
        let mut bad = good.clone();
        bad[at] = to;
        refusal(&bad)
    };
    assert_eq!(with(0, b'Q'), "a.pmtiles is not a PMTiles archive");
    assert_eq!(with(7, 2), "a.pmtiles: PMTiles spec version 2 unsupported");
    assert_eq!(
        with(97, 1),
        "a.pmtiles: expected gzip for both internal and tile compression"
    );
    assert_eq!(
        with(98, 1),
        "a.pmtiles: expected gzip for both internal and tile compression"
    );
    let root_length = u64::from_le_bytes(good[16..24].try_into().unwrap());
    assert_eq!(
        with(13, 1),
        format!("a.pmtiles: root directory at {}+{root_length} lies outside the file", 127u64 + (1 << 40))
    );
    let (meta_offset, meta_length) = (127 + root_length, u64::from_le_bytes(good[32..40].try_into().unwrap()));
    assert_eq!(
        with(29, 1),
        format!("a.pmtiles: metadata at {}+{meta_length} lies outside the file", meta_offset + (1 << 40))
    );
    // What does not inflate, or is no text, is told in the words of what reads it.
    let inflate = |raw: &[u8]| flate2::read::GzDecoder::new(raw).read_to_end(&mut Vec::new()).unwrap_err().to_string();
    assert_eq!(with(127, 0), inflate(&[0; 20]));
    assert_eq!(with(meta_offset as usize, 0), inflate(&[0; 20]));
    let sole = |at: usize, to: u8| {
        let mut bad = good.clone();
        bad[at] = to;
        Archive::open(&bad).err().unwrap().sole_message("a.pmtiles")
    };
    assert_eq!(sole(0, b'Q'), "a.pmtiles is not a PMTiles archive");
    assert_eq!(sole(7, 2), "PMTiles spec version 2 unsupported");
    assert_eq!(sole(98, 1), "expected gzip for both internal and tile compression");

    // A root that inflates to no directory, and metadata that is no text.
    let splice = |root: &[u8], meta: &[u8]| {
        let mut bytes = good[..127].to_vec();
        put_u64(&mut bytes, 16, root.len() as u64);
        put_u64(&mut bytes, 24, 127 + root.len() as u64);
        put_u64(&mut bytes, 32, meta.len() as u64);
        bytes.extend_from_slice(root);
        bytes.extend_from_slice(meta);
        bytes
    };
    let root = gzip(&serialise(&sample(), false));
    assert_eq!(
        Archive::open(&splice(&gzip(&[9]), &gzip(b"{}"))).err().unwrap(),
        ArchiveError::RootMalformed
    );
    assert_eq!(
        refusal(&splice(&gzip(&[9]), &gzip(b"{}"))),
        "a.pmtiles: root directory is malformed"
    );
    assert_eq!(
        refusal(&splice(&root, &gzip(&[0xff, 0xfe]))),
        String::from_utf8(vec![0xff, 0xfe]).unwrap_err().to_string()
    );
    let fine = Archive::open(&splice(&root, &gzip("{\"é\":1}".as_bytes()))).ok().unwrap();
    assert_eq!(fine.metadata, "{\"é\":1}");
    assert_eq!(fine.root, sample());
}
