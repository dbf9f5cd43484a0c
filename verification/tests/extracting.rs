use std::collections::HashSet;

use minimap::extract::{
    area_tags, build_area, build_line, collect_place, line_tags, pack, population, proper_rings, relation_area_id,
    relation_rings, resolve, unpack, visit_relation, wanted_ids, wanted_ways, way_area_id, way_kind, way_points,
    Locations, Member, WayRefs, Ways,
};
use minimap::rows::{Interner, Row, Sink, TagSet, NO_TAG};
use minimap::scan::{keep_ways, node_ids, scan_ways, RawWay, ScanError};
use minimap::wkb::Pt;

#[test]
fn places_worth_a_label_are_collected() {
    let mut out = Vec::new();
    let (lon, lat) = (2.35f64.to_bits(), 48.85f64.to_bits());
    collect_place(&[("place", "city"), ("name", "Paris"), ("population", "2 102 650")], lon, lat, &mut out);
    collect_place(&[("place", "hamlet"), ("name", "Nulle part")], lon, lat, &mut out);
    collect_place(&[("place", "city")], lon, lat, &mut out);
    assert_eq!(out.len(), 1);
    assert_eq!((out[0].name.as_str(), out[0].kind.as_str(), out[0].population), ("Paris", "city", 2102650));
    assert_eq!((f64::from_bits(out[0].lon), f64::from_bits(out[0].lat)), (2.35, 48.85));
    assert_eq!(population("approx 40,000"), 40000);
    assert_eq!(population("many"), 0);
    assert_eq!(population("99999999999999999999999"), 0);
    assert_eq!(population("9223372036854775807"), i64::MAX);
}

#[test]
fn only_the_tags_that_are_read_are_kept() {
    let mut words = Interner::new();
    let tags = [("highway", "primary"), ("name", "A1"), ("surface", "asphalt"), ("building", "yes")];
    let line = line_tags(&tags, &mut words);
    let text = line.resolve(&words);
    assert_eq!(text.highway.as_deref(), Some("primary"));
    assert_eq!(text.name.as_deref(), Some("A1"));
    assert_eq!(text.building, None, "a line is no building");
    let area = area_tags(&[("building", "yes"), ("natural", "water")], &mut words);
    let text = area.resolve(&words);
    assert_eq!((text.building.as_deref(), text.natural.as_deref()), (Some("yes"), Some("water")));
    let before = words.len();
    let again = line_tags(&tags, &mut words);
    assert_eq!((again, words.len()), (line, before), "words are shared");
    assert_eq!(TagSet::default().name, NO_TAG);
}

#[test]
fn words_are_kept_once() {
    let mut words = Interner::default();
    let ids: Vec<u32> = ["a", "b", "a", "", "b"].iter().map(|w| words.intern(w)).collect();
    assert_eq!(ids, vec![0, 1, 0, 2, 1]);
    assert_eq!(words.len(), 3);
    assert_eq!(words.get(1).as_deref(), Some("b"));
    assert_eq!(words.get(NO_TAG), None);
}

#[test]
fn ways_are_lines_or_areas_or_both() {
    let open = [1, 2, 3];
    let closed = [1, 2, 3, 1];
    assert_eq!(way_kind(&[("highway", "primary")], &open), (true, false));
    assert_eq!(way_kind(&[("building", "yes")], &closed), (false, true));
    assert_eq!(way_kind(&[("building", "yes")], &open), (false, false));
    assert_eq!(way_kind(&[("waterway", "river")], &open), (true, false));
    assert_eq!(way_kind(&[("name", "x")], &closed), (false, false));
}

#[test]
fn relations_are_areas_made_of_ways() {
    let mut words = Interner::new();
    let mut out = Vec::new();
    let tags = [("type", "multipolygon"), ("natural", "water")];
    visit_relation(7, &tags, &[Member::Way(10), Member::Node(1), Member::Way(11)], &mut words, &mut out);
    visit_relation(8, &[("type", "route")], &[Member::Way(12)], &mut words, &mut out);
    visit_relation(9, &tags, &[Member::Way(13), Member::Relation(1)], &mut words, &mut out);
    assert_eq!(out.len(), 1);
    assert_eq!((out[0].id, out[0].members.clone()), (7, vec![10, 11]));
    assert_eq!(wanted_ways(&out), HashSet::from([10, 11]));
}

#[test]
fn positions_survive_packing() {
    for (lat, lon) in [(0, 0), (-1, 1), (i32::MIN, i32::MAX), (488500000, -23500000)] {
        assert_eq!(unpack(pack(lat, lon)), (lon, lat), "longitude comes first");
    }
    assert_ne!(pack(1, 2), pack(2, 1));
}

#[test]
fn ids_never_collide() {
    assert_eq!((way_area_id(21), relation_area_id(21)), (42, 43));
}

#[test]
fn an_extract_is_read_in_three_passes() {
    let mut words = Interner::new();
    let mut relations = Vec::new();
    visit_relation(
        5,
        &[("type", "multipolygon"), ("landuse", "forest")],
        &[Member::Way(1), Member::Way(2)],
        &mut words,
        &mut relations,
    );
    let wanted = wanted_ways(&relations);
    let mut ways = Ways::new();
    ways.visit(2, &[], &[3, 4, 1], &wanted, &mut words);
    ways.visit(3, &[("highway", "path")], &[1, 9], &wanted, &mut words);
    let mut other = Ways::new();
    let mut theirs = Interner::new();
    other.visit(1, &[], &[1, 2, 3], &wanted, &mut theirs);
    other.visit(4, &[("name", "nothing")], &[7, 8], &wanted, &mut theirs);
    ways.merge(other, &theirs, &mut words);
    ways.refs.sort();
    assert_eq!(ways.refs.len(), 3);
    assert_eq!(ways.refs.total(), 8);
    assert_eq!(ways.refs.get(3), Some(&[1, 9][..]));
    assert_eq!(ways.refs.get(4), None);
    assert_eq!(ways.lines.len(), 1);

    let ids = wanted_ids(&ways.refs);
    assert_eq!(ids, vec![1, 2, 3, 4, 9]);
    let mut locations = Locations::new(ids);
    for id in 1..=8 {
        locations.store(id, id as i32 * 10, -(id as i32));
    }
    assert_eq!(locations.get(2).map(unpack), Some((-2, 20)));
    assert_eq!(locations.get(8), None, "nobody asked for it");
    assert_eq!(locations.get(9), None, "it is not in the extract");
    assert_eq!(resolve(&[1, 9], &locations), None, "cut by the edge of the extract");
    assert_eq!(way_points(&ways.refs, &locations, 3), None);

    let rings = relation_rings(&relations[0].members, &ways.refs, &locations).unwrap();
    assert_eq!(rings.len(), 1);
    assert_eq!(rings[0].len(), 5);
    assert_eq!(rings[0][0], rings[0][4]);
    let mut corners: Vec<(i32, i32)> = rings[0][..4].iter().map(|&p| unpack(p)).collect();
    corners.sort();
    assert_eq!(corners, vec![(-4, 40), (-3, 30), (-2, 20), (-1, 10)]);
    assert_eq!(relation_rings(&vec![1, 77], &ways.refs, &locations), None, "a member is missing");
}

#[test]
fn node_ids_are_kept_by_way() {
    let mut refs = WayRefs::new();
    refs.push(9, &[1, 2]);
    refs.push(4, &[3]);
    refs.sort();
    assert_eq!(refs.get(4), Some(&[3][..]));
    assert_eq!(refs.get(9), Some(&[1, 2][..]));
    assert_eq!(refs.get(5), None);
}

struct Kept(Vec<(String, i64)>);

impl Sink for Kept {
    fn write(&mut self, kind: &str, rows: &[Row]) -> Result<(), String> {
        self.0.extend(rows.iter().map(|r| (kind.to_string(), r.osm_id)));
        Ok(())
    }
}

#[test]
fn rows_go_to_a_sink() {
    let words = Interner::new();
    let tags = || TagSet::default().resolve(&words);
    let pt = |x: f64, y: f64| Pt { x: x.to_bits(), y: y.to_bits() };
    let line = build_line(3, tags(), &[pt(0.0, 0.0), pt(1.0, 1.0)]).unwrap();
    assert_eq!((line.osm_id, line.wkb.len()), (3, 41));
    assert!(build_line(4, tags(), &[pt(0.0, 0.0)]).is_none(), "one point is no line");
    let ring = vec![pt(0.0, 0.0), pt(1.0, 0.0), pt(1.0, 1.0), pt(0.0, 0.0)];
    let area = build_area(8, tags(), &vec![vec![ring.clone()]], true).unwrap();
    assert!(build_area(8, tags(), &vec![vec![ring]], false).is_none(), "too small to be seen");
    assert!(build_area(8, tags(), &vec![], true).is_none());
    let mut sink = Kept(Vec::new());
    sink.write("line", &[line]).unwrap();
    sink.write("area", &[area]).unwrap();
    assert_eq!(sink.0, vec![("line".to_string(), 3), ("area".to_string(), 8)]);
    assert_eq!(proper_rings(vec![vec![1, 2, 1], vec![1, 2, 3, 1]]), vec![vec![1, 2, 3, 1]]);
}

#[test]
fn a_word_has_one_id_and_an_id_one_word() {
    let mut words = Interner::new();
    let list = ["b", "", "a", "b", "ab", "a", ""];
    let ids: Vec<u32> = list.iter().map(|w| words.intern(w)).collect();
    for (i, a) in list.iter().enumerate() {
        for (j, b) in list.iter().enumerate() {
            assert_eq!(a == b, ids[i] == ids[j]);
        }
    }
}

#[test]
fn a_vocabulary_absorbs_another() {
    let mut words = Interner::new();
    let mut theirs = Interner::new();
    for w in ["road", "river"] {
        words.intern(w);
    }
    for w in ["forest", "river", "lake"] {
        theirs.intern(w);
    }
    let table = words.absorb(&theirs);
    assert_eq!(table, vec![2, 1, 3]);
    assert_eq!(words.len(), 4);
    let tags = TagSet { natural: 1, name: 2, ..TagSet::default() };
    let renamed = tags.rename(&table);
    assert_eq!((renamed.natural, renamed.name, renamed.highway), (1, 3, NO_TAG));
    let (before, after) = (tags.resolve(&theirs), renamed.resolve(&words));
    assert_eq!((before.natural, before.name), (after.natural.clone(), after.name.clone()));
    assert_eq!(after.name.as_deref(), Some("lake"));
}

#[test]
fn workers_with_their_own_words_agree_once_merged() {
    let wanted = HashSet::new();
    let (mut ways, mut words) = (Ways::new(), Interner::new());
    ways.visit(1, &[("highway", "path"), ("name", "Rue")], &[1, 2], &wanted, &mut words);
    let (mut other, mut theirs) = (Ways::new(), Interner::new());
    other.visit(2, &[("name", "Quai"), ("highway", "path")], &[3, 4], &wanted, &mut theirs);
    other.visit(3, &[("building", "yes"), ("name", "Rue")], &[5, 6, 7, 5], &wanted, &mut theirs);
    ways.merge(other, &theirs, &mut words);
    let line = ways.lines[1].1.resolve(&words);
    assert_eq!((line.highway.as_deref(), line.name.as_deref()), (Some("path"), Some("Quai")));
    let area = ways.areas[0].1.resolve(&words);
    assert_eq!((area.building.as_deref(), area.name.as_deref()), (Some("yes"), Some("Rue")));
    assert_eq!(ways.lines[0].1.highway, ways.lines[1].1.highway, "one word, one id");
}

/// A field of bytes in the protocol buffer encoding.
fn field(out: &mut Vec<u8>, number: u8, bytes: &[u8]) {
    out.push(number << 3 | 2);
    number_field(out, bytes.len() as u64);
    out.extend_from_slice(bytes);
}

fn number_field(out: &mut Vec<u8>, mut v: u64) {
    while v >= 0x80 {
        out.push(v as u8 | 0x80);
        v >>= 7;
    }
    out.push(v as u8);
}

/// A block of the given type around some bytes, uncompressed.
fn pbf_blob(kind: &str, content: &[u8]) -> Vec<u8> {
    let mut blob = Vec::new();
    field(&mut blob, 1, content);
    let mut header = Vec::new();
    field(&mut header, 1, kind.as_bytes());
    header.push(3 << 3);
    number_field(&mut header, blob.len() as u64);
    let mut out = (header.len() as u32).to_be_bytes().to_vec();
    out.extend(header);
    out.extend(blob);
    out
}

/// A block of ways, each with its id, its tags as indices into `strings`, and the steps
/// between its node ids.
fn way_block(strings: &[&str], ways: &[(u64, &[(u64, u64)], &[i64])]) -> Vec<u8> {
    let mut table = Vec::new();
    for s in strings {
        field(&mut table, 1, s.as_bytes());
    }
    let mut group = Vec::new();
    for (id, tags, steps) in ways {
        let (mut keys, mut vals, mut refs) = (Vec::new(), Vec::new(), Vec::new());
        for &(k, v) in *tags {
            number_field(&mut keys, k);
            number_field(&mut vals, v);
        }
        for &d in *steps {
            number_field(&mut refs, ((d << 1) ^ (d >> 63)) as u64);
        }
        let mut way = Vec::new();
        way.push(1 << 3);
        number_field(&mut way, *id);
        field(&mut way, 2, &keys);
        field(&mut way, 3, &vals);
        field(&mut way, 8, &refs);
        field(&mut group, 3, &way);
    }
    let mut block = Vec::new();
    field(&mut block, 1, &table);
    field(&mut block, 2, &group);
    pbf_blob("OSMData", &block)
}

#[test]
fn the_ways_of_a_block_are_read_off_its_bytes() {
    let strings = ["", "highway", "primary", "name", "A1", "building", "yes"];
    let blob = way_block(
        &strings,
        &[
            (10, &[(1, 2), (3, 4)], &[100, 5, -3]),
            (11, &[(5, 6)], &[7, 1, 1, -2]),
            (12, &[(3, 4)], &[1, 1]),
            (13, &[], &[40, 2]),
        ],
    );
    let wanted: HashSet<i64> = [13].into_iter().collect();
    let (mut words, mut ways) = (Interner::new(), Ways::new());
    assert_eq!(scan_ways(&blob, &wanted, &mut words, &mut ways), Ok(()));
    ways.refs.sort();
    assert_eq!(ways.refs.len(), 3);
    assert_eq!(ways.refs.get(10), Some(&[100, 105, 102][..]));
    assert_eq!(ways.refs.get(11), Some(&[7, 8, 9, 7][..]));
    assert_eq!(ways.refs.get(12), None, "neither drawn nor wanted");
    assert_eq!(ways.refs.get(13), Some(&[40, 42][..]));
    assert_eq!((ways.lines.len(), ways.areas.len()), (1, 1));
    let line = ways.lines[0].1.resolve(&words);
    assert_eq!((ways.lines[0].0, line.highway.as_deref(), line.name.as_deref()), (10, Some("primary"), Some("A1")));
    assert_eq!((ways.areas[0].0, ways.areas[0].1.resolve(&words).building.as_deref()), (11, Some("yes")));

    // Only the first block of the bytes is taken in.
    let mut two = blob.clone();
    two.extend(way_block(&strings, &[(20, &[(1, 2)], &[1, 1])]));
    let (mut words, mut ways) = (Interner::new(), Ways::new());
    assert_eq!(scan_ways(&two, &wanted, &mut words, &mut ways), Ok(()));
    assert_eq!(ways.refs.len(), 3);
}

#[test]
fn a_block_is_taken_in_whole_or_not_at_all() {
    let wanted = HashSet::new();
    let (mut words, mut ways) = (Interner::new(), Ways::new());
    let good = way_block(&["", "highway", "path"], &[(1, &[(1, 2)], &[1, 1])]);
    for bad in [&good[..0], &good[..good.len() - 1], &[0, 0, 0, 1, 0xff][..]] {
        assert_eq!(scan_ways(bad, &wanted, &mut words, &mut ways), Err(ScanError::Corrupt));
    }
    // A block that holds no data has no ways.
    assert_eq!(scan_ways(&pbf_blob("OSMHeader", &[]), &wanted, &mut words, &mut ways), Ok(()));
    assert_eq!(scan_ways(&pbf_blob("OSMOther", &good), &wanted, &mut words, &mut ways), Ok(()));
    // The second way refers past the last id; the first is not kept either.
    let far = way_block(
        &["", "highway", "path"],
        &[(1, &[(1, 2)], &[1, 1]), (2, &[(1, 2)], &[i64::MAX, 1])],
    );
    assert_eq!(scan_ways(&far, &wanted, &mut words, &mut ways), Err(ScanError::Refs));
    assert_eq!((words.len(), ways.refs.len(), ways.lines.len(), ways.areas.len()), (0, 0, 0, 0));
    assert_eq!(scan_ways(&good, &wanted, &mut words, &mut ways), Ok(()));
    assert_eq!((words.len(), ways.refs.len(), ways.lines.len()), (1, 1, 1));
}

#[test]
fn node_ids_add_up() {
    assert_eq!(node_ids(&vec![]), Some(vec![]));
    assert_eq!(node_ids(&vec![5, -7, 2]), Some(vec![5, -2, 0]));
    assert_eq!(node_ids(&vec![i64::MAX, i64::MIN, 1]), Some(vec![i64::MAX, -1, 0]));
    assert_eq!(node_ids(&vec![i64::MAX, 1, -1]), None);
    assert_eq!(node_ids(&vec![-1, i64::MIN]), None);
    let text = |s: &str| s.to_string();
    let ways = vec![RawWay { id: 9, tags: vec![(text("highway"), text("path"))], deltas: vec![4, 4] }];
    let (mut words, mut out) = (Interner::new(), Ways::new());
    assert_eq!(keep_ways(&ways, &HashSet::new(), &mut words, &mut out), Ok(()));
    out.refs.sort();
    assert_eq!(out.refs.get(9), Some(&[4, 8][..]));
}
