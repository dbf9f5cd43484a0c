use std::io::Write;

use minimap::archive::Archive;
use minimap::builds::{builds, layers_of};
use minimap::directory::{tile_id, Entry};
use minimap::serve::{
    archive_json, archives, attribution, check_position, choose_build, content_type, etag, is_held, json_field,
    json_headers, json_string, open_zones, param, refused, rungs, shell, tile_headers, tile_status, zone_body, zone_headers, Anon, Bounds, Choice, Corners, Layer, Lookup,
    MapServer, OpenError, Refusal,
};
use minimap::zones::{encode, Index, Record};

/// A valid archive of every tile of every level up to `max_zoom`, made here rather
/// than baked. The tiles hold deterministic filler; the structure is what is real:
/// a gzipped root, gzipped leaves below it, entries in curve order.
struct Fixture {
    bytes: Vec<u8>,
    tiles: Vec<(u8, u32, u32)>,
    leaves: usize,
}

const LEAF_SIZE: usize = 128;

fn archive(max_zoom: u8, salt: u64) -> Fixture {
    let mut all: Vec<(u64, u8, u32, u32)> = Vec::new();
    for z in 0..=max_zoom {
        let n = 1u32 << z;
        for x in 0..n {
            for y in 0..n {
                all.push((tile_id(z, x, y).unwrap(), z, x, y));
            }
        }
    }
    all.sort_by_key(|&(id, ..)| id);

    let mut data = Vec::new();
    let mut entries = Vec::with_capacity(all.len());
    for &(id, z, ..) in &all {
        let gz = gzip(&filler(id ^ salt, z));
        entries.push(Entry {
            tile_id: id,
            offset: data.len() as u64,
            length: gz.len() as u32,
            run_length: 1,
        });
        data.extend_from_slice(&gz);
    }

    let mut leaf_section = Vec::new();
    let mut root = Vec::new();
    for chunk in entries.chunks(LEAF_SIZE) {
        let gz = gzip(&serialise(chunk, true));
        root.push(Entry {
            tile_id: chunk[0].tile_id,
            offset: leaf_section.len() as u64,
            length: gz.len() as u32,
            run_length: 0,
        });
        leaf_section.extend_from_slice(&gz);
    }
    let leaves = root.len();
    let root_gz = gzip(&serialise(&root, true));

    let rungs: Vec<String> = (0..=max_zoom).map(|z| z.to_string()).collect();
    let meta = format!(
        "{{\"name\":\"perf\",\"rungs\":[{}],\"attribution\":\"synthetic\"}}",
        rungs.join(",")
    );
    let meta_gz = gzip(meta.as_bytes());

    let root_off = 127u64;
    let meta_off = root_off + root_gz.len() as u64;
    let leaf_off = meta_off + meta_gz.len() as u64;
    let data_off = leaf_off + leaf_section.len() as u64;

    let mut h = vec![0u8; 127];
    h[0..7].copy_from_slice(b"PMTiles");
    h[7] = 3;
    put_u64(&mut h, 8, root_off);
    put_u64(&mut h, 16, root_gz.len() as u64);
    put_u64(&mut h, 24, meta_off);
    put_u64(&mut h, 32, meta_gz.len() as u64);
    put_u64(&mut h, 40, leaf_off);
    put_u64(&mut h, 48, leaf_section.len() as u64);
    put_u64(&mut h, 56, data_off);
    put_u64(&mut h, 64, data.len() as u64);
    put_u64(&mut h, 72, all.len() as u64);
    put_u64(&mut h, 80, all.len() as u64);
    put_u64(&mut h, 88, all.len() as u64);
    h[96] = 1;
    h[97] = 2;
    h[98] = 2;
    h[99] = 1;
    h[100] = 0;
    h[101] = max_zoom;
    put_i32(&mut h, 102, -1800000000);
    put_i32(&mut h, 106, -850511287);
    put_i32(&mut h, 110, 1800000000);
    put_i32(&mut h, 114, 850511287);
    h[118] = max_zoom / 2;
    put_i32(&mut h, 119, 0);
    put_i32(&mut h, 123, 0);

    let mut bytes = h;
    bytes.extend_from_slice(&root_gz);
    bytes.extend_from_slice(&meta_gz);
    bytes.extend_from_slice(&leaf_section);
    bytes.extend_from_slice(&data);
    Fixture {
        bytes,
        tiles: all.into_iter().map(|(_, z, x, y)| (z, x, y)).collect(),
        leaves,
    }
}

/// The gzipped bytes an archive holds for one tile, made again.
fn stored(z: u8, x: u32, y: u32, salt: u64) -> Vec<u8> {
    gzip(&filler(tile_id(z, x, y).unwrap() ^ salt, z))
}

fn put(out: &mut Vec<u8>, mut v: u64) {
    while v >= 0x80 {
        out.push((v as u8) | 0x80);
        v >>= 7;
    }
    out.push(v as u8);
}

/// A directory as the writer lays it out: count, then the four columns.
/// `explicit` writes every offset; otherwise contiguous entries use the
/// zero shorthand the format allows.
fn serialise(entries: &[Entry], explicit: bool) -> Vec<u8> {
    let mut out = Vec::new();
    put(&mut out, entries.len() as u64);
    let mut last = 0;
    for e in entries {
        put(&mut out, e.tile_id - last);
        last = e.tile_id;
    }
    for e in entries {
        put(&mut out, u64::from(e.run_length));
    }
    for e in entries {
        put(&mut out, u64::from(e.length));
    }
    for (i, e) in entries.iter().enumerate() {
        let contiguous =
            i > 0 && entries[i - 1].offset + u64::from(entries[i - 1].length) == e.offset;
        put(
            &mut out,
            if !explicit && contiguous {
                0
            } else {
                e.offset + 1
            },
        );
    }
    out
}

fn put_u64(b: &mut [u8], at: usize, v: u64) {
    b[at..at + 8].copy_from_slice(&v.to_le_bytes());
}

fn put_i32(b: &mut [u8], at: usize, v: i32) {
    b[at..at + 4].copy_from_slice(&v.to_le_bytes());
}

fn gzip(bytes: &[u8]) -> Vec<u8> {
    let mut e = flate2::write::GzEncoder::new(Vec::new(), flate2::Compression::fast());
    e.write_all(bytes).unwrap();
    e.finish().unwrap()
}

/// Stand-in tile bytes: a few hundred of them, deterministic, and compressible
/// like a vector tile rather than like noise.
fn filler(seed: u64, z: u8) -> Vec<u8> {
    let mut rng = seed.wrapping_mul(0x9E3779B97F4A7C15) | 1;
    let mut next = || {
        rng ^= rng << 13;
        rng ^= rng >> 7;
        rng ^= rng << 17;
        rng
    };
    let len = 200 + (z as usize * 60) + (next() % 400) as usize;
    let mut out = Vec::with_capacity(len);
    while out.len() < len {
        out.extend_from_slice(&next().to_le_bytes()[..4]);
        out.extend_from_slice(b"minimap");
    }
    out.truncate(len);
    out
}

const ROADS_SALT: u64 = 0x9E37;

fn texts(list: &[&str]) -> Vec<String> {
    list.iter().map(|s| s.to_string()).collect()
}

fn degrees(v: i32) -> f64 {
    f64::from(v) / 1e7
}

/// A server over the layers of a build, opened from the files of a directory.
struct Served {
    map: MapServer,
    files: Vec<Vec<u8>>,
}

fn serve(names: &[&str], fixtures: &[Fixture], name: &str, anon: Option<Anon>) -> Result<Served, OpenError> {
    let order = archives(&texts(names), name)?;
    let mut layers = Vec::new();
    let mut files = Vec::new();
    for at in order {
        let bytes = fixtures[at].bytes.clone();
        let (_, layer) = minimap::config::split_archive_name(names[at]).unwrap();
        let archive = Archive::open(&bytes).ok().unwrap();
        layers.push(Layer::new(&layer, archive, bytes.len() as u64, 1000 + at as u64));
        files.push(bytes);
    }
    Ok(Served { map: MapServer::open(name, layers, anon).unwrap(), files })
}

/// The value of a header, where it is there.
fn header<'a>(headers: &'a [(&'static str, String)], name: &str) -> Option<&'a str> {
    headers.iter().find(|h| h.0 == name).map(|h| h.1.as_str())
}

/// Two small archives of one build.
fn setup() -> Served {
    let names = ["test.roads.pmtiles", "test.land.pmtiles"];
    serve(&names, &[archive(3, ROADS_SALT), archive(1, 0x2545)], "test", None).unwrap()
}

impl Served {
    /// The status and the body of the reply to a request for a tile.
    fn tile(&mut self, layer: &str, z: u8, x: u32, y: u32, held: Option<&str>) -> (u16, Vec<u8>) {
        let lookup = self.map.find(layer, held);
        let body = match lookup {
            Lookup::In(i) => self.map.layers[i]
                .archive
                .tile(&self.files[i], z, x, y)
                .map(<[u8]>::to_vec),
            _ => None,
        };
        (tile_status(lookup, body.is_some()), body.unwrap_or_default())
    }

    fn meta(&self) -> String {
        let h: Vec<_> = self.map.layers.iter().map(|l| l.archive.header).collect();
        let least = |f: fn(&minimap::archive::Header) -> i32| degrees(h.iter().map(f).min().unwrap());
        let most = |f: fn(&minimap::archive::Header) -> i32| degrees(h.iter().map(f).max().unwrap());
        let (w, s) = (least(|h| h.min_lon_e7), least(|h| h.min_lat_e7));
        let (e, n) = (most(|h| h.max_lon_e7), most(|h| h.max_lat_e7));
        self.map.meta_json(&Bounds {
            west: &w.to_string(),
            south: &s.to_string(),
            east: &e.to_string(),
            north: &n.to_string(),
            center_lon: &((w + e) / 2.0).to_string(),
            center_lat: &((s + n) / 2.0).to_string(),
        })
    }

    fn report(&self) -> String {
        let sizes = self
            .map
            .layers
            .iter()
            .map(|l| format!("{:.1}", l.bytes as f64 / 1e6))
            .collect();
        self.map.report(&sizes, "0.5")
    }
}

#[test]
fn meta_describes_the_archives_that_exist() {
    let served = setup();
    assert_eq!(header(&json_headers(), "content-type"), Some("application/json"));
    let text = served.meta();

    // Layers in draw order, each with the rungs its archive declares.
    let land_at = text.find("\"name\":\"land\"").expect("land listed");
    let roads_at = text.find("\"name\":\"roads\"").expect("roads listed");
    assert!(
        land_at < roads_at,
        "land must be listed before roads: {text}"
    );
    assert!(text.contains("\"rungs\":[0,1,2,3]"), "{text}");
    assert!(text.contains("\"rungs\":[0,1]"), "{text}");
    // The map's range is the union of its layers'.
    assert!(text.contains("\"minzoom\":0,\"maxzoom\":3"), "{text}");
    // No index was given, so the viewer is not offered a zone click.
    assert!(!text.contains("\"anon\""), "{text}");
    assert!(
        text.contains("synthetic"),
        "attribution comes from the archive"
    );
    assert_eq!(
        text,
        "{\"tilejson\":\"3.0.0\",\"scheme\":\"xyz\",\"tiles\":[\"tiles/{layer}/{z}/{x}/{y}\"],\n\
         \"minzoom\":0,\"maxzoom\":3,\"bounds\":[-180,-85.0511287,180,85.0511287],\"center\":[0,0,0],\n\
         \"layers\":[\n  \
         {\"name\":\"land\",\"rungs\":[0,1],\"minzoom\":0,\"maxzoom\":1},\n  \
         {\"name\":\"roads\",\"rungs\":[0,1,2,3],\"minzoom\":0,\"maxzoom\":3}\n\
         ],\n\
         \"attribution\":\"synthetic\"}"
    );
}

#[test]
fn tiles_come_back_as_stored_or_as_the_right_absence() {
    let mut served = setup();

    // Byte for byte what the archive holds: the server neither inflates nor
    // re-encodes.
    let (z, x, y) = (3u8, 5u32, 2u32);
    assert_eq!(
        served.tile("roads", z, x, y, None),
        (200, stored(z, x, y, ROADS_SALT))
    );
    let head = tile_headers(200, "\"a-b\"");
    assert_eq!(header(&head, "content-type"), Some("application/vnd.mapbox-vector-tile"));
    assert_eq!(header(&head, "content-encoding"), Some("gzip"));
    assert_eq!(header(&head, "cache-control"), Some("public, max-age=604800"));
    assert_eq!(header(&head, "etag"), Some("\"a-b\""));
    for status in [204, 304, 404] {
        assert!(tile_headers(status, "\"a-b\"").is_empty());
    }
    // Past the layer's deepest rung: nothing there, and not an error.
    assert_eq!(served.tile("roads", 4, 0, 0, None).0, 204);
    // Off the grid at a rung that exists: same answer.
    assert_eq!(served.tile("roads", 2, 4, 0, None).0, 204);
    // A zoom the format cannot hold at all.
    assert_eq!(served.tile("roads", 40, 0, 0, None).0, 204);
    // A layer this build never produced is final in a different way.
    assert_eq!(served.tile("rivers", 0, 0, 0, None).0, 404);
}

#[test]
fn etags_revalidate_per_archive() {
    let mut served = setup();
    let mark = |s: &Served, layer: &str| match s.map.find(layer, None) {
        Lookup::In(i) => s.map.layers[i].etag.clone(),
        other => panic!("{other:?}"),
    };
    let roads = mark(&served, "roads");
    assert!(
        roads.starts_with('"') && roads.ends_with('"'),
        "quoted: {roads}"
    );
    let again = served.tile("roads", 1, 0, 0, Some(&roads));
    assert_eq!(again.0, 304);
    assert!(again.1.is_empty());

    // Another layer's etag says nothing about this one.
    let land = mark(&served, "land");
    assert_ne!(roads, land);
    assert_eq!(served.tile("roads", 1, 0, 0, Some(&land)).0, 200);
    assert_eq!(
        served.tile("roads", 1, 0, 0, Some(&format!("{land}, {roads}"))).0,
        304
    );
}

#[test]
fn marks_of_content_are_hexadecimal() {
    assert_eq!(etag(255, 0x1234abcd), "\"ff-1234abcd\"");
    assert!(is_held(" \"a-b\" ,\"c-d\"", "\"a-b\""));
    assert!(!is_held("\"a-b\"", "\"a-c\""));
    assert!(!is_held("", "\"a-b\""));
}

/// The shell cannot rely on a trailing slash and instead carries a `<base href>`
/// naming the prefix it was reached under.
#[test]
fn nested_under_a_prefix_the_shell_names_its_base() {
    let page = "<!doctype html><head><title>map</title></head><script src=\"minimap.js\">";
    let nested = shell(page, "/map");
    assert!(nested.contains("<base href=\"/map/\">"), "{nested}");
    assert_eq!(
        nested,
        "<!doctype html><head><base href=\"/map/\"><title>map</title></head><script src=\"minimap.js\">"
    );
    let root = shell(page, "/");
    assert!(root.contains("<base href=\"/\">"), "{root}");
    assert_eq!(shell("plain", ""), "<base href=\"/\">plain");
}

#[test]
fn zone_without_an_index_says_so() {
    let refusal = check_position(false, true, true, true, true).unwrap();
    assert_eq!(refusal.status(), 404);
    assert_eq!(header(&zone_headers(true), "content-type"), Some("application/json"));
    assert_eq!(header(&zone_headers(true), "cache-control"), None);
    assert!(refusal.zone_error().contains("make anon"));
}

#[test]
fn an_answer_is_kept_only_where_the_position_is() {
    let head = zone_headers(false);
    assert_eq!(head.len(), 2);
    assert_eq!(header(&head, "content-type"), Some("application/json"));
    assert_eq!(header(&head, "cache-control"), Some("private, max-age=3600"));
}

/// Which of several tiers of one size answers: the first where it is asked for, the last
/// where the most private one is.
#[test]
fn tiers_of_one_size_are_told_apart() {
    let zones = |n: u64| (0..n).map(|i| Record { start: 10 * i, buildings: 80, density: 1, built: 2 }).collect();
    let tiers: Vec<(u32, Vec<Record>)> = vec![(64, zones(1)), (16, zones(2)), (64, zones(3)), (16, zones(4))];
    let bytes = encode(4, 8, [0; 4], &tiers).unwrap();
    assert_eq!(open_zones(&bytes, Some(64)).unwrap().tier, 0);
    assert_eq!(open_zones(&bytes, Some(16)).unwrap().tier, 1);
    assert_eq!(open_zones(&bytes, None).unwrap().tier, 2);
    let missing = open_zones(&bytes, Some(5)).err().unwrap();
    assert_eq!(missing.message("a.bin", Some(5)), "no tier for k=Some(5) in a.bin; baked tiers are [64, 16, 64, 16]");
    assert_eq!(missing.sole_message(Some(5)), "no tier for k=Some(5); baked tiers are [64, 16, 64, 16]");
    let broken = open_zones(b"", None).err().unwrap();
    assert_eq!(broken.message("a.bin", None), "a.bin: not an anon-zone index");
    assert_eq!(broken.sole_message(None), "not an anon-zone index");
}

#[test]
fn a_position_is_refused_for_the_first_thing_wrong() {
    let cases = [
        ([false, false, false, false, false], Refusal::NoIndex, 404, "no zone index -- run `make anon`"),
        ([true, false, false, false, false], Refusal::NotNumbers, 400, "lat and lon must be numbers"),
        ([true, true, false, false, false], Refusal::OutOfRange, 400, "lat and lon out of range"),
        ([true, true, true, false, false], Refusal::Outside, 404, "outside the covered region"),
        ([true, true, true, true, false], Refusal::NoZone, 500, "no zone"),
    ];
    for (given, want, status, words) in cases {
        let got = check_position(given[0], given[1], given[2], given[3], given[4]).unwrap();
        assert_eq!(got, want);
        assert_eq!(got.status(), status);
        assert_eq!(got.zone_error(), format!("{{\"error\":\"{words}\"}}"));
    }
    assert_eq!(check_position(true, true, true, true, true), None);
}

#[test]
fn no_archives_is_a_refusal_not_an_empty_map() {
    // A file that is not <name>.<layer>.pmtiles is not a build.
    let files = texts(&["notes.txt", "roads.pmtiles"]);
    let err = archives(&files, "test").unwrap_err();
    let said = err.message("test", "routes-empty");
    assert!(said.contains("make all"), "{said}");
    assert!(matches!(err, OpenError::NoBuilds));
    assert_eq!(builds(&files), Vec::<String>::new());
    assert!(MapServer::open("test", Vec::new(), None).is_none());
}

/// Several builds share one directory; the server opens exactly the one it
/// was asked for, and names the others when asked for one that is not there.
#[test]
fn builds_share_a_directory_and_are_opened_by_name() {
    let names = ["europe.roads.pmtiles", "europe.land.pmtiles", "picardie.roads.pmtiles"];
    let fixtures = [archive(2, 1), archive(1, 2), archive(1, 3)];
    assert_eq!(
        builds(&texts(&names)),
        vec!["europe".to_string(), "picardie".to_string()]
    );

    let europe = serve(&names, &fixtures, "europe", None).ok().unwrap();
    assert!(
        europe.report().starts_with("  build europe\n"),
        "{}",
        europe.report()
    );
    assert_eq!(
        europe.report().matches(" tiles ").count(),
        2,
        "{}",
        europe.report()
    );
    let picardie = serve(&names, &fixtures, "picardie", None).ok().unwrap();
    assert_eq!(picardie.report().matches(" tiles ").count(), 1);

    let err = serve(&names, &fixtures, "asia", None)
        .err()
        .expect("no such build");
    let msg = err.message("asia", "pmtiles");
    assert!(msg.contains("europe") && msg.contains("picardie"), "{msg}");
    assert_eq!(msg, "no build asia in pmtiles, only europe, picardie -- run `make all` first");
}

#[test]
fn a_report_lines_up() {
    let served = setup();
    let want = format!(
        "  build test\n{}{}  anon: no index -- `make anon` enables /zone\n",
        format!("  {:<12} {:>9} tiles  z{}..{}  {:>8.1} MB\n", "land", 5, 0, 1, served.map.layers[0].bytes as f64 / 1e6),
        format!("  {:<12} {:>9} tiles  z{}..{}  {:>8.1} MB\n", "roads", 85, 0, 3, served.map.layers[1].bytes as f64 / 1e6),
    );
    assert_eq!(served.report(), want);
}

#[test]
fn zones_are_announced_where_they_are_answered() {
    let zones = vec![Record { start: 0, buildings: 80, density: 1, built: 2 }];
    let bytes = encode(4, 8, [0; 4], &vec![(64, zones)]).unwrap();
    let anon = Anon { index: Index::parse(&bytes).unwrap(), tier: 0 };
    let served = serve(&["a.land.pmtiles"], &[archive(1, 5)], "a", Some(anon)).ok().unwrap();
    assert!(served.meta().contains("\"center\":[0,0,0],\n\"anon\":{\"k\":64},\n\"layers\""));
    let want = format!("  {:<12} {:>9} zones  k={:<10} {:>8} MB\n", "anon", 1, 64, "0.5");
    assert!(served.report().ends_with(&want), "{}", served.report());
}

#[test]
fn an_index_is_opened_on_one_tier() {
    let zones = || vec![Record { start: 0, buildings: 300, density: 1, built: 2 }];
    let bytes = encode(4, 8, [0; 4], &vec![(16, zones()), (64, zones())]).unwrap();
    assert_eq!(open_zones(&bytes, None).ok().unwrap().tier, 1);
    assert_eq!(open_zones(&bytes, Some(16)).ok().unwrap().tier, 0);
    let wrong = |file: &[u8], k| open_zones(file, k).err().unwrap().message("z.bin", k);
    assert_eq!(wrong(&bytes, Some(7)), "no tier for k=Some(7) in z.bin; baked tiers are [16, 64]");
    assert_eq!(wrong(b"", None), "z.bin: not an anon-zone index");
}

#[test]
fn layers_are_drawn_in_order_whatever_order_they_are_found_in() {
    let files = texts(&[
        "x.places.pmtiles",
        "x.rivers.pmtiles",
        "x.water.pmtiles",
        "y.land.pmtiles",
        "x.land.pmtiles",
        "x.contours.pmtiles",
        "x.pmtiles",
    ]);
    assert_eq!(layers_of(&files, "x"), vec![4, 2, 0, 1, 5]);
    assert_eq!(layers_of(&files, "y"), vec![3]);
    assert_eq!(layers_of(&files, "z"), Vec::<usize>::new());
}

#[test]
fn an_unnamed_build_is_the_only_one() {
    assert!(matches!(choose_build(&texts(&["a"])), Choice::One(name) if name == "a"));
    assert!(matches!(choose_build(&texts(&[])), Choice::Nothing));
    assert!(matches!(choose_build(&texts(&["a", "b"])), Choice::Several));
}

#[test]
fn metadata_is_read_by_key() {
    let meta = "{\"name\":\"x\", \"rungs\": [10,12] ,\"count\": 7 ,\"attribution\":\"me\",\"end\":9}";
    assert_eq!(json_field(meta, "\"rungs\":").as_deref(), Some("[10,12]"));
    assert_eq!(json_field(meta, "\"count\":").as_deref(), Some("7"));
    assert_eq!(json_field(meta, "\"end\":").as_deref(), Some("9"));
    assert_eq!(json_field(meta, "\"gone\":"), None);
    assert_eq!(json_field("\"x\":", "\"x\":"), None);
    assert_eq!(json_field("\"x\":[1,2", "\"x\":"), None);
    assert_eq!(json_string(meta, "\"name\":").as_deref(), Some("x"));
    assert_eq!(json_string(meta, "\"count\":"), None, "not a text");
    assert_eq!(json_string("\"x\":\"open", "\"x\":"), None);
    assert_eq!(attribution("{}"), "© OpenStreetMap contributors");
    assert_eq!(attribution(meta), "me");
    assert_eq!(rungs("{}", 3, 5), "[3,4,5]");
    assert_eq!(rungs("{}", 5, 3), "[]");
    assert_eq!(rungs("{}", 250, 255), "[250,251,252,253,254,255]");
}

#[test]
fn what_an_archive_says_is_what_is_read_off_it() {
    let meta = minimap::export::metadata("landuse", &vec![10, 12]);
    assert_eq!(
        meta,
        "{\"attribution\":\"© OpenStreetMap contributors\",\"layer\":\"landuse\",\"rungs\":[10,12]}"
    );
    assert_eq!(rungs(&meta, 0, 0), "[10,12]");
    assert_eq!(attribution(&meta), "© OpenStreetMap contributors");
    assert_eq!(rungs(&minimap::export::metadata("rungs", &vec![]), 0, 0), "[]");
}

#[test]
fn a_single_archive_describes_itself() {
    let bytes = archive(3, 9).bytes;
    let a = Archive::open(&bytes).ok().unwrap();
    let b = Bounds { west: "1", south: "2", east: "3", north: "4", center_lon: "2", center_lat: "3" };
    assert_eq!(
        archive_json(&a, &b),
        "{\"tilejson\":\"3.0.0\",\"scheme\":\"xyz\",\"tiles\":[\"/tiles/{z}/{x}/{y}\"],\n\
         \"minzoom\":0,\"maxzoom\":3,\"bounds\":[1,2,3,4],\"center\":[2,3,1],\n\
         \"attribution\":\"synthetic\"}"
    );
}

#[test]
fn assets_stay_in_their_directory() {
    assert!(refused("../Cargo.toml"));
    assert!(refused("a\\b"));
    assert!(refused("/etc"));
    assert!(refused("a/..b"));
    assert!(!refused("minimap.js"));
    assert!(!refused(""));
    for (path, want) in [
        ("a.js", "text/javascript; charset=utf-8"),
        ("a.css", "text/css; charset=utf-8"),
        ("x/a.min.html", "text/html; charset=utf-8"),
        ("a.json", "application/json"),
        ("a.svg", "image/svg+xml"),
        ("a.JS", "application/octet-stream"),
        ("js", "application/octet-stream"),
    ] {
        assert_eq!(content_type(path), want, "{path}");
    }
}

#[test]
fn forms_are_read_by_name() {
    assert_eq!(param("lat=49.89&lon=2.30", "lon").as_deref(), Some("2.30"));
    assert_eq!(param("lat=1=2&lat=3", "lat").as_deref(), Some("1=2"));
    assert_eq!(param("lat&lat=5", "lat").as_deref(), Some("5"));
    assert_eq!(param("", "lat"), None);
}

#[test]
fn squares_go_in_front_of_the_closing_brace() {
    let q = |v: [&str; 4]| Corners {
        west: v[0].to_string(),
        south: v[1].to_string(),
        east: v[2].to_string(),
        north: v[3].to_string(),
    };
    let quads = vec![q(["1", "2", "3", "4"]), q(["5", "6", "7", "8"])];
    assert_eq!(
        zone_body("{\"zone\":\"a\"}", &quads),
        "{\"zone\":\"a\",\"quads\":[[1,2,3,4],[5,6,7,8]]}"
    );
    assert_eq!(zone_body("{}", &vec![]), "{,\"quads\":[]}");
}
