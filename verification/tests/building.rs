use std::io::Read;

use minimap::bake::{background_layers, baked_layers, band_sql, bands, finished_sql, live_bands, plan, resume, start_sql, START_OVER, BandNumbers, BAKE_BUDGET};
use minimap::export::{compress, layers, stale, tile_ids, zoom_range, Tile};
use minimap::load;
use minimap::pipeline;
use minimap::tuning;

const WORLD: f64 = 20037508.342789244;
const MPP0: f64 = 2.0 * WORLD / 512.0;

fn tile_span(z: u8) -> f64 {
    2.0 * WORLD / (1u32 << z) as f64
}

fn list(words: &[&str]) -> Vec<String> {
    words.iter().map(|s| s.to_string()).collect()
}

#[test]
fn numbers_stand_as_they_are_printed() {
    assert_eq!(tuning::WORLD, WORLD.to_string());
    assert_eq!(tuning::MPP0, MPP0.to_string());
    assert_eq!(tuning::MIN_PIXELS, 3.0f64.to_string());
    assert_eq!(tuning::LANDUSE_PIXELS, 12.0f64.to_string());
    assert_eq!(tuning::MAXZOOM_SPAN, tile_span(17).to_string());
    assert_eq!(load::CUT_SPAN, tile_span(load::cut_zoom()).to_string());
    assert_eq!(pipeline::MAXZOOM_SPAN, tile_span(14).to_string());
}

#[test]
fn the_ladder_has_four_rungs() {
    assert_eq!(tuning::zooms_csv(), "10,12,15,17");
    assert_eq!((tuning::minzoom(), tuning::maxzoom()), (10, 17));
    assert_eq!(tuning::background_rung(), 12);
    assert!(tuning::bakes("land", 12) && !tuning::bakes("land", 15));
    assert!(tuning::bakes("roads", 17));
    assert!(tuning::is_background("landuse") && !tuning::is_background("water"));
    assert!(tuning::is_area("water") && !tuning::is_area("roads") && !tuning::is_area("places"));
    assert_eq!(
        [tuning::clamp(6), tuning::clamp(11), tuning::clamp(20)],
        [10, 11, 17]
    );
    assert_eq!(tuning::EUROPE_SKIP.map(tuning::europe_skips), [true; 4]);
    assert!(!tuning::europe_skips("france"));
}

#[test]
fn lists_are_quoted() {
    assert_eq!(tuning::sql_list(&["a", "o'neill"]), "'a', 'o''neill'");
    assert_eq!(tuning::sql_list(&[]), "");
}

#[test]
fn roads_get_a_class_and_a_level() {
    assert_eq!(
        tuning::road_class_sql("highway"),
        "CASE WHEN highway IN ('motorway', 'motorway_link') THEN 'motorway' \
         WHEN highway IN ('trunk', 'trunk_link') THEN 'trunk' \
         WHEN highway IN ('primary', 'primary_link') THEN 'primary' \
         WHEN highway IN ('secondary', 'secondary_link') THEN 'secondary' \
         WHEN highway IN ('tertiary', 'tertiary_link') THEN 'tertiary' \
         WHEN highway IN ('residential', 'unclassified', 'living_street') THEN 'residential' \
         WHEN highway IN ('service', 'track') THEN 'service' \
         WHEN highway IN ('footway', 'path', 'cycleway', 'pedestrian', 'steps', 'bridleway') THEN 'path' \
         ELSE 'other' END"
    );
    assert_eq!(pipeline::road_class_sql("h"), tuning::road_class_sql("h"));
    assert_eq!(
        tuning::road_minzoom_sql("cls"),
        "CASE cls WHEN 'motorway' THEN 10 WHEN 'trunk' THEN 10 WHEN 'primary' THEN 10 \
         WHEN 'secondary' THEN 10 WHEN 'tertiary' THEN 11 WHEN 'residential' THEN 11 \
         WHEN 'service' THEN 12 WHEN 'path' THEN 12 ELSE 17 END"
    );
    assert_eq!(
        pipeline::road_minzoom_sql("cls"),
        "CASE cls WHEN 'motorway' THEN 6 WHEN 'trunk' THEN 7 WHEN 'primary' THEN 8 \
         WHEN 'secondary' THEN 9 WHEN 'tertiary' THEN 10 WHEN 'residential' THEN 11 \
         WHEN 'service' THEN 12 WHEN 'path' THEN 12 ELSE 14 END"
    );
}

#[test]
fn places_and_areas_get_a_level() {
    assert_eq!(
        tuning::place_minzoom_sql("population", "kind"),
        "CASE WHEN population >= 200000 THEN 10
              WHEN population >= 50000 OR kind = 'city' THEN 12
              ELSE 14 END"
    );
    assert_eq!(
        tuning::area_minzoom_sql(),
        format!(
            "GREATEST(10, CAST(CEIL(LOG2(
            (CASE WHEN cls IN ('wood', 'farmland', 'park', 'urban') THEN 12 ELSE 3 END)
            * {MPP0} / GREATEST(SQRT(ST_Area(geom)), 1e-6)
         )) AS INTEGER))"
        )
    );
    assert_eq!(
        pipeline::area_minzoom_sql(),
        format!(
            "GREATEST(6, CAST(CEIL(LOG2(
            3 * {MPP0} / GREATEST(SQRT(ST_Area(geom)), 1e-6)
         )) AS INTEGER))"
        )
    );
}

fn cell_sql(span: f64) -> String {
    let tile_x = format!("CAST(FLOOR((((min_x + max_x) / 2) + {WORLD}) / {span}) AS BIGINT)");
    let tile_y = format!("CAST(FLOOR(({WORLD} - ((min_y + max_y) / 2)) / {span}) AS BIGINT)");
    format!("(bit_spread({tile_x}) | (bit_spread({tile_y}) << 1))")
}

#[test]
fn features_are_clustered_on_the_deepest_grid() {
    assert_eq!(tuning::cell_sql("1.5"), cell_sql(1.5));
    assert_eq!(tuning::cell_sql_at_maxzoom(), cell_sql(tile_span(17)));
}

#[test]
fn bands_cover_a_level() {
    assert_eq!(bands(10, BAKE_BUDGET), vec![(0, 1024)]);
    assert_eq!(bands(12, BAKE_BUDGET), vec![(0, 1024), (1024, 2048), (2048, 3072), (3072, 4096)]);
    let deep = bands(17, BAKE_BUDGET);
    assert_eq!(deep.len(), 4096);
    assert_eq!(deep[0], (0, 32));
    assert_eq!(*deep.last().unwrap(), ((1 << 17) - 32, 1 << 17));
    assert!(deep.windows(2).all(|w| w[0].1 == w[1].0));
    assert_eq!(
        live_bands(&bands(12, BAKE_BUDGET), &vec![false, true, false, true]),
        vec![(1, 1024, 2048), (3, 3072, 4096)]
    );
}

#[test]
fn a_bake_goes_on_after_the_last_finished_level() {
    assert_eq!(resume(None), (false, vec![10, 12, 15, 17]));
    assert_eq!(resume(Some(6)), (false, vec![10, 12, 15, 17]));
    assert_eq!(resume(Some(10)), (true, vec![12, 15, 17]));
    assert_eq!(resume(Some(13)), (true, vec![15, 17]));
    assert_eq!(resume(Some(255)), (true, vec![]));
    assert_eq!(start_sql(None), START_OVER);
    assert_eq!(start_sql(Some(9)), START_OVER);
    assert_eq!(start_sql(Some(12)), "DELETE FROM tile_layers WHERE z > 12");
    assert_eq!(finished_sql(15), "INSERT INTO bake_done VALUES (15)");
    assert_eq!(baked_layers(12), tuning::LAYERS.to_vec());
    assert_eq!(baked_layers(15), vec!["water", "roads", "buildings", "places"]);
    assert_eq!(background_layers(), vec!["land", "landuse"]);
}

fn expected_band(z: u8, layer: &str, lo: u64, hi: u64) -> String {
    let tile_span = tile_span(z);
    let tolerance = MPP0 / (1u32 << z) as f64;
    let hi_m1 = hi - 1;
    let band_min_x = -WORLD + lo as f64 * tile_span;
    let band_max_x = -WORLD + hi as f64 * tile_span;
    let area = matches!(layer, "land" | "landuse" | "water" | "buildings");
    let simplify = if area {
        format!("ST_SimplifyPreserveTopology(geom, {tolerance})")
    } else {
        format!("ST_Simplify(geom, {tolerance})")
    };
    let repair = if area {
        "CASE WHEN ST_IsValid(geom) THEN geom
              ELSE ST_CollectionExtract(ST_MakeValid(geom), 3) END"
    } else {
        "geom"
    };
    let bounds = format!(
        "{{'min_x': {} + x * {tile_span},
           'min_y': {WORLD} - (y + 1) * {tile_span},
           'max_x': {} + (x + 1) * {tile_span},
           'max_y': {WORLD} - y * {tile_span}}}::BOX_2D",
        -WORLD, -WORLD
    );
    let (named, name_prop) = if layer == "places" {
        (", name", ", name: name")
    } else {
        ("", "")
    };
    format!(
        r#"
        INSERT INTO tile_layers
        WITH candidates AS (
            -- Which tiles can this feature touch? Pure bbox arithmetic, so no
            -- spatial join and no index is needed. The clamps pin boundary
            -- features to this band's columns, so a feature overlapping two
            -- bands never emits the same tile twice.
            SELECT cls{named}, {simplify} AS geom,
                   GREATEST(CAST(FLOOR((min_x + {WORLD}) / {tile_span}) AS INTEGER), {lo}) AS x0,
                   LEAST(CAST(FLOOR((max_x + {WORLD}) / {tile_span}) AS INTEGER), {hi_m1}) AS x1,
                   CAST(FLOOR(({WORLD} - max_y) / {tile_span}) AS INTEGER) AS y0,
                   CAST(FLOOR(({WORLD} - min_y) / {tile_span}) AS INTEGER) AS y1
            FROM features
            WHERE layer = '{layer}' AND minzoom <= {z}
              AND max_x >= {band_min_x} AND min_x < {band_max_x}
        ), repaired AS (
            SELECT cls{named}, {repair} AS geom, x0, x1, y0, y1 FROM candidates
        ), exploded AS (
            SELECT cls{named}, geom, x, y
            FROM repaired,
                 UNNEST(range(x0, x1 + 1)) AS _x(x),
                 UNNEST(range(y0, y1 + 1)) AS _y(y)
        ), clipped AS (
            SELECT x, y, cls{named},
                   ST_AsMVTGeom(geom, {bounds}, 4096, 64, true) AS g
            FROM exploded
        )
        -- `cls` is all the styling needs, and for every layer but the label one
        -- it is the only attribute a tile carries: names on every feature
        -- inflate a tile by roughly 40% to write text nothing draws.
        SELECT {z}, x, y, '{layer}',
               ST_AsMVT({{geom: g, cls: cls{name_prop}}}, '{layer}', 4096, 'geom')
        FROM clipped
        WHERE g IS NOT NULL AND NOT ST_IsEmpty(g)
        GROUP BY x, y
        "#
    )
}

#[test]
fn a_band_is_one_statement() {
    for (z, layer, lo, hi) in [(10, "land", 0, 1024), (17, "roads", 64, 96), (12, "places", 1024, 2048)] {
        let span = tile_span(z);
        let numbers = BandNumbers {
            tile_span: &span.to_string(),
            tolerance: &(MPP0 / (1u32 << z) as f64).to_string(),
            min_x: &(-WORLD + lo as f64 * span).to_string(),
            max_x: &(-WORLD + hi as f64 * span).to_string(),
        };
        assert_eq!(band_sql(z, layer, lo, hi, "tile_layers", &numbers), expected_band(z, layer, lo, hi));
    }
}

#[test]
fn areas_are_cut_to_cells() {
    let span = tile_span(14);
    let cx0 = format!("FLOOR((min_x + {WORLD}) / {span} + 1e-9)");
    let cx1 = format!("FLOOR((max_x + {WORLD}) / {span} - 1e-9)");
    let cy0 = format!("FLOOR(({WORLD} - max_y) / {span} + 1e-9)");
    let cy1 = format!("FLOOR(({WORLD} - min_y) / {span} - 1e-9)");
    let wide = format!("({cx1} > {cx0} OR {cy1} > {cy0})");
    assert_eq!(load::wide_sql(), wide);
    assert_eq!(load::count_wide_sql(), format!("SELECT count(*) FROM layer_sub WHERE {wide}"));
    let split = load::split_wide_sql();
    assert!(split.contains(&format!("DELETE FROM layer_sub WHERE {wide};")));
    assert!(split.contains(&format!("({cx1} - {cx0}) >= ({cy1} - {cy0}) AS split_x,")));
    assert!(split.contains(&format!("{} + (FLOOR(({cx0} + {cx1}) / 2) + 1) * {span} AS mid_x,", -WORLD)));
    assert!(split.contains(&format!("{WORLD} - (FLOOR(({cy0} + {cy1}) / 2) + 1) * {span} AS mid_y\n")));
    assert!(!split.contains('$'));
    let mut cutting = load::Cutting::begin();
    assert_eq!(cutting.next(0), None);
    for _ in 0..64 {
        assert_eq!(cutting.next(7).as_deref(), Some(split.as_str()));
    }
    assert_eq!(cutting.next(7), None, "the passes are used up");
    assert_eq!(
        load::marker_sql("water"),
        "SELECT count(*) FROM duckdb_tables() WHERE table_name = 'water_subdivided'"
    );
    assert!(load::copy_layer_sql("water").ends_with("FROM features WHERE layer = 'water'"));
    assert_eq!(
        load::replace_layer_sql("water"),
        format!(
            r#"
        BEGIN TRANSACTION;
        DELETE FROM features WHERE layer = 'water';
        INSERT INTO features (layer, cls, minzoom, name, osm_id, geom,
                              min_x, min_y, max_x, max_y, cell)
        SELECT 'water', cls, minzoom, name, osm_id, geom,
               min_x, min_y, max_x, max_y, {} AS cell
        FROM layer_sub ORDER BY cell;
        CREATE TABLE water_subdivided (cell_zoom UTINYINT);
        INSERT INTO water_subdivided VALUES (14);
        COMMIT;
        "#,
            cell_sql(tile_span(17))
        )
    );
    assert_eq!(
        load::layer_size_sql("land"),
        "SELECT count(*), max(ST_NPoints(geom)) FROM features WHERE layer = 'land'"
    );
}

#[test]
fn what_is_loaded_is_classified() {
    let lines = load::classify_lines_sql();
    assert!(lines.contains(&format!("CASE WHEN highway IS NOT NULL THEN {}\n", tuning::road_class_sql("highway"))));
    assert!(lines.contains(&format!("WHEN layer = 'roads' THEN {}\n", tuning::road_minzoom_sql("cls"))));
    assert!(lines.contains("WHEN cls = 'river' THEN 10\n"));
    assert!(lines.contains("ELSE 17 END AS minzoom,"));
    assert!(lines.contains(&format!("SELECT *, {} AS cell FROM bounded\n        WHERE minzoom <= 17\n", cell_sql(tile_span(17)))));
    let areas = load::classify_areas_sql();
    assert!(areas.contains(&format!("SELECT osm_id, name, geom, {} AS cls FROM valid", tuning::POLY_CLASS_SQL)));
    assert!(areas.contains(&format!("SELECT {} AS layer, cls, {} AS minzoom,", tuning::POLY_LAYER_SQL, tuning::area_minzoom_sql())));
    let land = load::land_sql("/vsizip/x", "1", "2", "3", "4");
    assert!(land.contains("SELECT geom FROM ST_Read('/vsizip/x')\n"));
    assert!(land.contains("WHERE ST_XMax(geom) >= 1 AND ST_XMin(geom) <= 3\n"));
    assert!(land.contains("AND ST_YMax(geom) >= 2 AND ST_YMin(geom) <= 4\n"));
    assert!(land.contains("ST_MakeEnvelope(1, 2, 3, 4)"));
    assert!(land.contains("SELECT 'land', 'land', 10, NULL, NULL, geom,"));
    let places = load::places_sql();
    assert!(places.contains(&format!("SELECT 'places', kind, {}, name, NULL, geom,", tuning::place_minzoom_sql("population", "kind"))));
    assert_eq!(
        load::raw_table_sql(),
        format!("DROP TABLE IF EXISTS raw; CREATE TABLE raw ({})", tuning::RAW_DDL)
    );
    for sql in [lines, areas, land, places, pipeline::classify_lines_sql(), pipeline::classify_areas_sql(), pipeline::cluster_sql(), pipeline::meta_sql(), pipeline::merge_sql()] {
        assert!(!sql.contains('$'), "{sql}");
        assert!(!sql.contains('{'), "{sql}");
    }
}

#[test]
fn the_whole_map_is_built_into_one_archive() {
    assert!(pipeline::classify_lines_sql().contains("WHEN cls = 'river' THEN 8\n"));
    assert!(pipeline::cluster_sql().contains(&format!("SELECT *, {} AS cell\n", cell_sql(tile_span(14)))));
    assert!(pipeline::cluster_sql().contains("WHERE minzoom <= 14\n"));
    assert!(pipeline::meta_sql().contains("SELECT 6 AS minzoom, 14 AS maxzoom,"));
    assert!(pipeline::merge_sql().contains(
        "ORDER BY CASE layer WHEN 'landuse' THEN 0 WHEN 'water' THEN 1 WHEN 'roads' THEN 2 WHEN 'buildings' THEN 3 END"
    ));
    let bake = pipeline::bake_sql(7, "water", "2.5", "0.5");
    assert!(bake.contains("SELECT cls, ST_SimplifyPreserveTopology(geom, 0.5) AS geom,"));
    assert!(bake.contains(&format!("CAST(FLOOR((min_x + {WORLD}) / 2.5) AS INTEGER) AS x0,")));
    assert!(bake.contains("WHERE layer = 'water' AND minzoom <= 7\n"));
    assert!(bake.contains("SELECT 7, x, y, 'water',\n"));
    assert!(bake.contains("ST_AsMVT({geom: g, cls: cls}, 'water', 4096, 'geom')"));
    assert!(bake.contains(&format!("'max_x': {} + (x + 1) * 2.5,", -WORLD)));
    assert!(pipeline::bake_sql(7, "roads", "2.5", "0.5").contains("ST_Simplify(geom, 0.5)"));
    assert_eq!(pipeline::data("/r"), "/r/data");
    assert_eq!(pipeline::countries("/r"), "/r/data/countries");
    assert_eq!(pipeline::db("/r"), "/r/minimap.duckdb");
    assert_eq!(pipeline::archive("/r"), "/r/minimap.pmtiles");
    assert_eq!(pipeline::pbf_path("/r", "france", true, true), "/r/data/france.osm.pbf");
    assert_eq!(pipeline::pbf_path("/r", "france", false, true), "/r/data/countries/france-latest.osm.pbf");
    assert_eq!(pipeline::pbf_path("/r", "france", false, false), "/r/data/france.osm.pbf");
    assert_eq!(pipeline::pbf_path("/r", "spain", false, false), "/r/data/countries/spain-latest.osm.pbf");
    assert_eq!(
        pipeline::available_regions(&list(&["spain-latest.osm.pbf", "france-latest.osm.pbf", "notes.txt"])),
        list(&["europe", "france", "nord-pas-de-calais", "picardie", "spain"])
    );
    assert_eq!(
        pipeline::source_url("picardie"),
        Some("https://download.geofabrik.de/europe/france/picardie-latest.osm.pbf")
    );
    assert!(pipeline::fetches(None, "france") && pipeline::fetches(Some(1_000_000), "france"));
    assert!(!pipeline::fetches(Some(1_000_001), "france") && !pipeline::fetches(None, "spain"));
}

#[test]
fn only_layers_with_tiles_get_an_archive() {
    assert_eq!(layers(&list(&["roads", "rivers", "land"])), vec!["land", "roads"]);
    assert_eq!(layers(&vec![]), Vec::<&str>::new());
    assert!(stale("water.pmtiles", &vec!["land", "roads"]));
    assert!(!stale("roads.pmtiles", &vec!["land", "roads"]));
    assert!(!stale("notes.txt", &vec![]));
    assert_eq!(zoom_range(&vec![10, 12, 15]), Some((10, 15)));
    assert_eq!(zoom_range(&vec![]), None);
}

#[test]
fn a_stored_tile_inflates_to_what_was_baked() {
    let tile = b"layer layer layer layer layer layer".repeat(20);
    let stored = compress(&tile).unwrap();
    assert!(stored.len() < tile.len() / 4);
    let mut back = Vec::new();
    flate2::read::GzDecoder::new(&stored[..]).read_to_end(&mut back).unwrap();
    assert_eq!(back, tile);
}

#[test]
fn a_level_is_baked_layer_by_layer() {
    let jobs = plan(15, &vec![(3, 6, 8), (4, 8, 10)]);
    let plain: Vec<(&str, usize, u64, u64)> = jobs.iter().map(|j| (j.layer, j.band, j.lo, j.hi)).collect();
    assert_eq!(plain.len(), 8);
    assert_eq!(plain[..3], [("water", 0, 6, 8), ("water", 1, 8, 10), ("roads", 0, 6, 8)]);
    assert_eq!(plain[7], ("places", 1, 8, 10));
}

#[test]
fn tiles_are_ordered_as_the_reader_looks_them_up() {
    let mut tiles = Vec::new();
    for z in 0..=7u8 {
        for x in 0..1u32 << z {
            for y in 0..1u32 << z {
                tiles.push(Tile { z, x, y });
            }
        }
    }
    let mut n = 12345u64;
    for z in 8..=31u8 {
        for _ in 0..200 {
            n = n.wrapping_mul(6_364_136_223_846_793_005).wrapping_add(1_442_695_040_888_963_407);
            let side = 1u64 << z;
            tiles.push(Tile { z, x: ((n >> 32) % side) as u32, y: ((n & 0xffff_ffff) % side) as u32 });
        }
        tiles.push(Tile { z, x: ((1u64 << z) - 1) as u32, y: ((1u64 << z) - 1) as u32 });
    }
    let ids = tile_ids(&tiles).unwrap();
    for (t, id) in tiles.iter().zip(&ids) {
        assert_eq!(minimap::directory::tile_id(t.z, t.x, t.y), Some(*id), "{t:?}");
    }
    assert_eq!(tile_ids(&vec![Tile { z: 1, x: 1, y: 0 }]), Ok(vec![4]));
    let off = Tile { z: 2, x: 4, y: 0 };
    assert_eq!(tile_ids(&vec![Tile { z: 2, x: 3, y: 0 }, off, Tile { z: 40, x: 0, y: 0 }]), Err(off));
    assert_eq!(tile_ids(&vec![Tile { z: 32, x: 0, y: 0 }]), Err(Tile { z: 32, x: 0, y: 0 }));
}
