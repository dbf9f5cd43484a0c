//! Building the whole map into one archive: where its files are, which regions it
//! knows, and the statements that classify, bake and merge its layers.

use crate::config;
use crate::load;
use crate::names;
use crate::text;
use crate::tuning;
use vstd::prelude::*;

verus! {

/// The widest zoom level.
pub const MINZOOM: u8 = 6;

/// The deepest zoom level.
pub const MAXZOOM: u8 = 14;

/// The side of a tile at the deepest level, in projected metres.
pub const MAXZOOM_SPAN: &'static str = "2445.98490512564";

/// The layers in draw order.
pub const LAYERS: [&'static str; 4] = ["landuse", "water", "roads", "buildings"];

/// The regions that are built where none is named.
pub const DEFAULT_REGIONS: [&'static str; 1] = ["picardie"];

/// Where the extracts are.
pub fn data(root: &str) -> (out: String)
    ensures
        out@ == config::path(root@, "data"@),
{
    config::join(root, "data")
}

/// Where the extracts of whole countries are.
pub fn countries(root: &str) -> (out: String)
    ensures
        out@ == config::path(config::path(root@, "data"@), "countries"@),
{
    config::join(data(root).as_str(), "countries")
}

/// The build database.
pub fn db(root: &str) -> (out: String)
    ensures
        out@ == config::path(root@, "minimap.duckdb"@),
{
    config::join(root, "minimap.duckdb")
}

/// The archive.
pub fn archive(root: &str) -> (out: String)
    ensures
        out@ == config::path(root@, "minimap.pmtiles"@),
{
    config::join(root, "minimap.pmtiles")
}

/// Where a region that can be fetched comes from.
pub open spec fn source(region: Seq<char>) -> Option<Seq<char>> {
    if region == "picardie"@ {
        Some("https://download.geofabrik.de/europe/france/picardie-latest.osm.pbf"@)
    } else if region == "nord-pas-de-calais"@ {
        Some("https://download.geofabrik.de/europe/france/nord-pas-de-calais-latest.osm.pbf"@)
    } else if region == "france"@ {
        Some("https://download.geofabrik.de/europe/france-latest.osm.pbf"@)
    } else if region == "europe"@ {
        Some("https://download.geofabrik.de/europe-latest.osm.pbf"@)
    } else {
        None
    }
}

/// Where a region that can be fetched comes from.
pub fn source_url(region: &str) -> (r: Option<&'static str>)
    ensures
        match r {
            Some(url) => source(region@) == Some(url@),
            None => source(region@) is None,
        },
{
    if text::same(region, "picardie") {
        Some("https://download.geofabrik.de/europe/france/picardie-latest.osm.pbf")
    } else if text::same(region, "nord-pas-de-calais") {
        Some("https://download.geofabrik.de/europe/france/nord-pas-de-calais-latest.osm.pbf")
    } else if text::same(region, "france") {
        Some("https://download.geofabrik.de/europe/france-latest.osm.pbf")
    } else if text::same(region, "europe") {
        Some("https://download.geofabrik.de/europe-latest.osm.pbf")
    } else {
        None
    }
}

/// The extract of a region in the directory of extracts itself.
pub open spec fn flat_path(root: Seq<char>, region: Seq<char>) -> Seq<char> {
    config::path(config::path(root, "data"@), region + ".osm.pbf"@)
}

/// The extract of a region among the whole countries.
pub open spec fn country_path(root: Seq<char>, region: Seq<char>) -> Seq<char> {
    config::path(config::path(config::path(root, "data"@), "countries"@), region + "-latest.osm.pbf"@)
}

/// The extract of a region in the directory of extracts itself.
pub fn flat(root: &str, region: &str) -> (out: String)
    ensures
        out@ == flat_path(root@, region@),
{
    let mut name: String = region.to_owned();
    name.push_str(".osm.pbf");
    config::join(data(root).as_str(), name.as_str())
}

/// The extract of a region among the whole countries.
pub fn country(root: &str, region: &str) -> (out: String)
    ensures
        out@ == country_path(root@, region@),
{
    let mut name: String = region.to_owned();
    name.push_str("-latest.osm.pbf");
    config::join(countries(root).as_str(), name.as_str())
}

/// Where a region's extract is, given which of the two files is there: a region can
/// come by either way. Where neither is there yet, the place where it would be put.
pub fn pbf_path(root: &str, region: &str, has_flat: bool, has_country: bool) -> (out: String)
    ensures
        out@ == (if has_flat || (!has_country && source(region@) is Some) {
            flat_path(root@, region@)
        } else {
            country_path(root@, region@)
        }),
{
    if has_flat {
        return flat(root, region);
    }
    if has_country {
        return country(root, region);
    }
    if source_url(region).is_some() {
        flat(root, region)
    } else {
        country(root, region)
    }
}

/// Whether a region can be loaded: it can be fetched, or a country's extract is there.
pub open spec fn is_available(files: Seq<Seq<char>>, region: Seq<char>) -> bool {
    source(region) is Some || exists|i: int|
        0 <= i < files.len() && text::before(#[trigger] files[i], "-latest.osm.pbf"@) == Some(region)
}

/// Everything that can be loaded, from the files among the whole countries: in order,
/// each region once.
pub fn available_regions(files: &Vec<String>) -> (out: Vec<String>)
    ensures
        names::strictly_ascending(text::texts(out@)),
        forall|s: Seq<char>| text::texts(out@).contains(s) <==> is_available(text::texts(files@), s),
{
    let mut list: Vec<String> = Vec::new();
    list.push("picardie".to_owned());
    list.push("nord-pas-de-calais".to_owned());
    list.push("france".to_owned());
    list.push("europe".to_owned());
    let ghost all = text::texts(files@);
    proof {
        let t = text::texts(list@);
        assert(t =~= seq!["picardie"@, "nord-pas-de-calais"@, "france"@, "europe"@]);
        assert forall|s: Seq<char>| t.contains(s) <==> source(s) is Some by {
            assert(t[0] == "picardie"@ && t[1] == "nord-pas-de-calais"@ && t[2] == "france"@ && t[3] == "europe"@);
        }
    }
    let mut i: usize = 0;
    while i < files.len()
        invariant
            i <= files@.len(),
            all == text::texts(files@),
            forall|s: Seq<char>| text::texts(list@).contains(s) <==> is_available(all.take(i as int), s),
        decreases files@.len() - i,
    {
        let ghost before = text::texts(list@);
        let ghost front = all.take(i as int);
        let ghost next = all.take(i + 1);
        proof {
            assert(next =~= front.push(files@[i as int]@));
            assert forall|s: Seq<char>|
                is_available(next, s) <==> is_available(front, s) || text::before(
                    files@[i as int]@,
                    "-latest.osm.pbf"@,
                ) == Some(s) by {
                if is_available(front, s) && source(s) is None {
                    let k = choose|k: int|
                        0 <= k < front.len() && text::before(#[trigger] front[k], "-latest.osm.pbf"@) == Some(s);
                    assert(next[k] == front[k]);
                }
                assert(next[i as int] == files@[i as int]@);
                if is_available(next, s) && source(s) is None {
                    let k = choose|k: int|
                        0 <= k < next.len() && text::before(#[trigger] next[k], "-latest.osm.pbf"@) == Some(s);
                    if k < i {
                        assert(front[k] == next[k]);
                    }
                }
            }
        }
        if let Some(region) = text::strip_suffix(files[i].as_str(), "-latest.osm.pbf") {
            let ghost name = region@;
            list.push(region);
            proof {
                let t = text::texts(list@);
                assert(t =~= before.push(name));
                assert forall|s: Seq<char>| t.contains(s) <==> before.contains(s) || s == name by {
                    if before.contains(s) {
                        let k = choose|k: int| 0 <= k < before.len() && before[k] == s;
                        assert(t[k] == s);
                    }
                    assert(t[before.len() as int] == name);
                    if t.contains(s) && s != name {
                        let k = choose|k: int| 0 <= k < t.len() && t[k] == s;
                        assert(before[k] == s);
                    }
                }
            }
        }
        i = i + 1;
    }
    assert(all.take(i as int) =~= all);
    names::distinct(list)
}

/// Whether an extract has to be fetched: not where a file of some size is there, nor
/// where nothing is known to fetch.
pub fn fetches(len: Option<u64>, region: &str) -> (r: bool)
    ensures
        r == (!(len is Some && len->0 > 1_000_000) && source(region@) is Some),
{
    let there: bool = match len {
        Some(n) => n > 1_000_000,
        None => false,
    };
    !there && source_url(region).is_some()
}

/// The classes of roads of this map: tertiary roads appear on their own level.
pub open spec fn road_classes() -> Seq<tuning::RoadRule> {
    tuning::road_rules(10)
}

/// The expression that gives a road its class.
pub fn road_class_sql(col: &str) -> (out: String)
    ensures
        out@ == tuning::class_case(col@, road_classes()),
{
    tuning::class_sql(col, &tuning::road_table(10))
}

/// The expression that gives a class of roads its zoom level.
pub fn road_minzoom_sql(col: &str) -> (out: String)
    ensures
        out@ == tuning::zoom_case(col@, road_classes(), MAXZOOM),
{
    tuning::zoom_sql(col, &tuning::road_table(10), MAXZOOM)
}

/// The smallest zoom level at which an area covers enough pixels. `$a` is the widest
/// level, `$b` how many pixels an area must cover, `$c` the size of a pixel at level
/// 0.
pub const AREA_MINZOOM: &'static str = "GREATEST($a, CAST(CEIL(LOG2(
            $b * $c / GREATEST(SQRT(ST_Area(geom)), 1e-6)
         )) AS INTEGER))";

/// The expression that gives an area its zoom level.
pub open spec fn area_minzoom() -> Seq<char> {
    text::filled(AREA_MINZOOM@, seq![text::decimal(MINZOOM as nat), tuning::MIN_PIXELS@, tuning::MPP0@])
}

/// The expression that gives an area its zoom level, from its size.
pub fn area_minzoom_sql() -> (out: String)
    ensures
        out@ == area_minzoom(),
{
    let widest: String = text::number(MINZOOM as u64);
    let values: [&str; 3] = [widest.as_str(), tuning::MIN_PIXELS, tuning::MPP0];
    assert(text::strs(values@) =~= seq![widest@, tuning::MIN_PIXELS@, tuning::MPP0@]);
    text::fill(AREA_MINZOOM, &values)
}

/// Thousands separators, because every count here is in the millions.
pub fn commas(n: u64) -> (out: String)
    ensures
        out@ == text::grouped(n as nat, ','),
{
    crate::progress::commas(n)
}

/// Classifies the lines. `$a` projects a geometry, `$b` gives a road its class and
/// `$c` its zoom level, and `$d` is the deepest level.
pub const CLASSIFY_LINES: &'static str = "
        INSERT INTO features
        WITH src AS (
            SELECT osm_id, name, highway, waterway, $a AS geom
            FROM raw WHERE kind = 'line'
        ), classified AS (
            SELECT osm_id, name, geom,
                   CASE WHEN highway IS NOT NULL THEN 'roads' ELSE 'water' END AS layer,
                   CASE WHEN highway IS NOT NULL THEN $b
                        WHEN waterway IN ('river', 'canal') THEN 'river'
                        ELSE 'stream' END AS cls
            FROM src
        )
        SELECT layer, cls,
               CASE WHEN layer = 'roads' THEN $c
                    WHEN cls = 'river' THEN 8
                    ELSE $d END AS minzoom,
               name, osm_id, geom,
               ST_XMin(geom), ST_YMin(geom), ST_XMax(geom), ST_YMax(geom)
        FROM classified
        WHERE NOT ST_IsEmpty(geom)
        ";

/// Classifies the areas. `$a` projects a geometry; `$b` gives an area its class, `$c`
/// its layer and `$d` its zoom level.
pub const CLASSIFY_AREAS: &'static str = "
        INSERT INTO features
        WITH src AS (
            SELECT osm_id, name, building, landuse, \"natural\", water, waterway,
                   leisure, $a AS geom
            FROM raw WHERE kind = 'area'
        ), valid AS (
            -- OSM rings self-intersect often enough that this is not an edge
            -- case: Luxembourg has two woods that GEOS refuses to clip, and it
            -- refuses by throwing, which fails the whole bake. Repairing here
            -- costs one pass at load; repairing in the bake would cost one per
            -- zoom per layer. MakeValid can demote a polygon to a collection of
            -- lines and points, so keep only the polygonal part -- and if that
            -- leaves nothing, the ST_IsEmpty filter below drops the feature.
            SELECT * REPLACE (
                CASE WHEN ST_IsValid(geom) THEN geom
                     ELSE ST_CollectionExtract(ST_MakeValid(geom), 3) END AS geom
            ) FROM src
        ), classified AS (
            SELECT osm_id, name, geom, $b AS cls FROM valid
        )
        SELECT $c AS layer, cls, $d AS minzoom,
               name, osm_id, geom,
               ST_XMin(geom), ST_YMin(geom), ST_XMax(geom), ST_YMax(geom)
        FROM classified
        WHERE cls IS NOT NULL AND NOT ST_IsEmpty(geom)
        ";

/// Keeps each feature once, drops what is never seen, and stores the rest by its
/// clustering key `$a`. `$b` is the deepest level.
pub const CLUSTER: &'static str = "
        CREATE OR REPLACE TABLE features AS
        SELECT *, $a AS cell
        FROM features
        WHERE minzoom <= $b
        QUALIFY osm_id IS NULL
             OR row_number() OVER (PARTITION BY layer, osm_id ORDER BY osm_id) = 1
        ORDER BY cell
        ";

/// Bakes one layer, `$d`, at one level, `$e`: `$a` simplifies a geometry, `$b` is half
/// a side of the plane, `$c` the side of a tile and `$f` its box; `$g` and `$h` are a
/// tile's grid and overlap.
pub const BAKE_LAYER: &'static str = "
                INSERT INTO tile_layers
                WITH candidates AS (
                    -- Which tiles can this feature touch? Pure bbox arithmetic,
                    -- so no spatial join and no index is needed.
                    SELECT cls, $a AS geom,
                           CAST(FLOOR((min_x + $b) / $c) AS INTEGER) AS x0,
                           CAST(FLOOR((max_x + $b) / $c) AS INTEGER) AS x1,
                           CAST(FLOOR(($b - max_y) / $c) AS INTEGER) AS y0,
                           CAST(FLOOR(($b - min_y) / $c) AS INTEGER) AS y1
                    FROM features
                    WHERE layer = '$d' AND minzoom <= $e
                ), exploded AS (
                    SELECT cls, geom, x, y
                    FROM candidates,
                         UNNEST(range(x0, x1 + 1)) AS _x(x),
                         UNNEST(range(y0, y1 + 1)) AS _y(y)
                ), clipped AS (
                    SELECT x, y, cls,
                           ST_AsMVTGeom(geom, $f, $g, $h, true) AS g
                    FROM exploded
                )
                -- `cls` is the only attribute a tile carries: it is all the
                -- styling needs. Names stay in `features` (we draw no labels);
                -- adding them here would inflate every tile by roughly 40%.
                SELECT $e, x, y, '$d',
                       ST_AsMVT({geom: g, cls: cls}, '$d', $g, 'geom')
                FROM clipped
                WHERE g IS NOT NULL AND NOT ST_IsEmpty(g)
                GROUP BY x, y
                ";

/// Puts the layers of a tile one behind the other, in the order `$a`.
pub const MERGE: &'static str = "
        CREATE OR REPLACE TABLE tiles AS
        SELECT z, x, y,
               list_reduce(list(data ORDER BY CASE layer $a END),
                           (a, b) -> a || b) AS data
        FROM tile_layers
        GROUP BY z, x, y;
        DROP TABLE tile_layers;
        CREATE INDEX tiles_zxy ON tiles (z, x, y);
        ";

/// What the map is as a whole: its levels from `$a` to `$b`, and its extent.
pub const META: &'static str = "
        DROP TABLE IF EXISTS meta;
        CREATE TABLE meta AS
        WITH b AS (
            SELECT ST_Transform(ST_Extent_Agg(geom)::GEOMETRY,
                                'EPSG:3857', 'EPSG:4326', always_xy := true) AS g
            FROM features
        )
        SELECT $a AS minzoom, $b AS maxzoom,
               ST_XMin(g) AS west, ST_YMin(g) AS south,
               ST_XMax(g) AS east, ST_YMax(g) AS north
        FROM b
        ";

/// The box of a tile. `$a` is half a side of the plane and `$b` the side of a tile.
pub const TILE_BOX: &'static str = "{'min_x': -$a + x * $b,
                   'min_y': $a - (y + 1) * $b,
                   'max_x': -$a + (x + 1) * $b,
                   'max_y': $a - y * $b}::BOX_2D";

/// What an archive says of itself.
pub const METADATA: &'static str = "{\"attribution\":\"© OpenStreetMap contributors\"}";

/// The statement that classifies the lines.
pub open spec fn classify_lines_text() -> Seq<char> {
    text::filled(
        CLASSIFY_LINES@,
        seq![
            load::TO_3857@,
            tuning::class_case("highway"@, road_classes()),
            tuning::zoom_case("cls"@, road_classes(), MAXZOOM),
            text::decimal(MAXZOOM as nat),
        ],
    )
}

/// The statement that classifies the lines.
pub fn classify_lines_sql() -> (out: String)
    ensures
        out@ == classify_lines_text(),
{
    let road_class: String = road_class_sql("highway");
    let road_minzoom: String = road_minzoom_sql("cls");
    let deepest: String = text::number(MAXZOOM as u64);
    let values: [&str; 4] = [load::TO_3857, road_class.as_str(), road_minzoom.as_str(), deepest.as_str()];
    assert(text::strs(values@) =~= seq![load::TO_3857@, tuning::class_case("highway"@, road_classes()), tuning::zoom_case("cls"@, road_classes(), MAXZOOM), text::decimal(MAXZOOM as nat)]);
    text::fill(CLASSIFY_LINES, &values)
}

/// The statement that classifies the areas and mends their rings.
pub open spec fn classify_areas_text() -> Seq<char> {
    text::filled(
        CLASSIFY_AREAS@,
        seq![
            load::TO_3857@,
            tuning::POLY_CLASS_SQL@,
            tuning::POLY_LAYER_SQL@,
            area_minzoom(),
        ],
    )
}

/// The statement that classifies the areas and mends their rings.
pub fn classify_areas_sql() -> (out: String)
    ensures
        out@ == classify_areas_text(),
{
    let level: String = area_minzoom_sql();
    let values: [&str; 4] = [load::TO_3857, tuning::POLY_CLASS_SQL, tuning::POLY_LAYER_SQL, level.as_str()];
    assert(text::strs(values@) =~= seq![load::TO_3857@, tuning::POLY_CLASS_SQL@, tuning::POLY_LAYER_SQL@, area_minzoom()]);
    text::fill(CLASSIFY_AREAS, &values)
}

/// The statement that stores the features by their clustering key.
pub open spec fn cluster_text() -> Seq<char> {
    text::filled(
        CLUSTER@,
        seq![
            tuning::cell_expr(MAXZOOM_SPAN@),
            text::decimal(MAXZOOM as nat),
        ],
    )
}

/// The statement that stores the features by their clustering key.
pub fn cluster_sql() -> (out: String)
    ensures
        out@ == cluster_text(),
{
    let cell: String = tuning::cell_sql(MAXZOOM_SPAN);
    let deepest: String = text::number(MAXZOOM as u64);
    let values: [&str; 2] = [cell.as_str(), deepest.as_str()];
    assert(text::strs(values@) =~= seq![tuning::cell_expr(MAXZOOM_SPAN@), text::decimal(MAXZOOM as nat)]);
    text::fill(CLUSTER, &values)
}

/// The statement that stores what the map is as a whole.
pub open spec fn meta_text() -> Seq<char> {
    text::filled(
        META@,
        seq![
            text::decimal(MINZOOM as nat),
            text::decimal(MAXZOOM as nat),
        ],
    )
}

/// The statement that stores what the map is as a whole.
pub fn meta_sql() -> (out: String)
    ensures
        out@ == meta_text(),
{
    let widest: String = text::number(MINZOOM as u64);
    let deepest: String = text::number(MAXZOOM as u64);
    let values: [&str; 2] = [widest.as_str(), deepest.as_str()];
    assert(text::strs(values@) =~= seq![text::decimal(MINZOOM as nat), text::decimal(MAXZOOM as nat)]);
    text::fill(META, &values)
}

/// Whether a layer is made of areas.
pub open spec fn areal(layer: Seq<char>) -> bool {
    layer == "landuse"@ || layer == "water"@ || layer == "buildings"@
}

/// The statement that bakes a layer at a level; `tile_span` and `tolerance` are the
/// side of a tile and the size of a pixel.
pub open spec fn bake_text(z: u8, layer: Seq<char>, tile_span: Seq<char>, tolerance: Seq<char>) -> Seq<char> {
    text::filled(
        BAKE_LAYER@,
        seq![
            (if areal(layer) {
                "ST_SimplifyPreserveTopology(geom, "@
            } else {
                "ST_Simplify(geom, "@
            }) + tolerance + ")"@,
            tuning::WORLD@,
            tile_span,
            layer,
            text::decimal(z as nat),
            text::filled(TILE_BOX@, seq![tuning::WORLD@, tile_span]),
            text::decimal(tuning::EXTENT as nat),
            text::decimal(tuning::BUFFER as nat),
        ],
    )
}

/// The statement that bakes a layer at a level.
pub fn bake_sql(z: u8, layer: &str, tile_span: &str, tolerance: &str) -> (out: String)
    ensures
        out@ == bake_text(z, layer@, tile_span@, tolerance@),
{
    let whole: bool = text::same(layer, "landuse") || text::same(layer, "water") || text::same(layer, "buildings");
    let mut simplify: String = (if whole {
        "ST_SimplifyPreserveTopology(geom, "
    } else {
        "ST_Simplify(geom, "
    }).to_owned();
    simplify.push_str(tolerance);
    simplify.push_str(")");
    let corners: [&str; 2] = [tuning::WORLD, tile_span];
    assert(text::strs(corners@) =~= seq![tuning::WORLD@, tile_span@]);
    let tile_box: String = text::fill(TILE_BOX, &corners);
    let level: String = text::number(z as u64);
    let extent: String = text::number(tuning::EXTENT as u64);
    let buffer: String = text::number(tuning::BUFFER as u64);
    let values: [&str; 8] = [
        simplify.as_str(),
        tuning::WORLD,
        tile_span,
        layer,
        level.as_str(),
        tile_box.as_str(),
        extent.as_str(),
        buffer.as_str(),
    ];
    assert(text::strs(values@) =~= seq![
        simplify@,
        tuning::WORLD@,
        tile_span@,
        layer@,
        level@,
        tile_box@,
        extent@,
        buffer@,
    ]);
    text::fill(BAKE_LAYER, &values)
}

/// The order in which the layers of a tile follow one another.
pub open spec fn merge_order() -> Seq<Seq<char>> {
    seq![
        "WHEN 'landuse' THEN 0"@,
        "WHEN 'water' THEN 1"@,
        "WHEN 'roads' THEN 2"@,
        "WHEN 'buildings' THEN 3"@,
    ]
}

/// The statement that merges the layers of every tile, in draw order.
pub fn merge_sql() -> (out: String)
    ensures
        out@ == text::filled(MERGE@, seq![text::joined(merge_order(), " "@)]),
{
    let arms: [&str; 4] = [
        "WHEN 'landuse' THEN 0",
        "WHEN 'water' THEN 1",
        "WHEN 'roads' THEN 2",
        "WHEN 'buildings' THEN 3",
    ];
    assert(text::strs(arms@) =~= merge_order());
    let order: String = text::join_strs(&arms, " ");
    let values: [&str; 1] = [order.as_str()];
    assert(text::strs(values@) =~= seq![order@]);
    text::fill(MERGE, &values)
}

/// The steps of a build.
#[derive(Clone, Copy, Debug, PartialEq, Eq, Structural)]
pub enum Step {
    Download,
    Load,
    Bake,
    Export,
    Info,
    EuropeUrls,
    All,
}

/// The steps as they are written.
pub const STEPS: [&'static str; 7] = ["download", "load", "bake", "export", "info", "europe-urls", "all"];

/// The step of a name.
pub open spec fn step_of(word: Seq<char>) -> Option<Step> {
    if word == "download"@ {
        Some(Step::Download)
    } else if word == "load"@ {
        Some(Step::Load)
    } else if word == "bake"@ {
        Some(Step::Bake)
    } else if word == "export"@ {
        Some(Step::Export)
    } else if word == "info"@ {
        Some(Step::Info)
    } else if word == "europe-urls"@ {
        Some(Step::EuropeUrls)
    } else if word == "all"@ {
        Some(Step::All)
    } else {
        None
    }
}

/// Finds the step of a name.
pub fn step(word: &str) -> (r: Option<Step>)
    ensures
        r == step_of(word@),
{
    if text::same(word, "download") {
        Some(Step::Download)
    } else if text::same(word, "load") {
        Some(Step::Load)
    } else if text::same(word, "bake") {
        Some(Step::Bake)
    } else if text::same(word, "export") {
        Some(Step::Export)
    } else if text::same(word, "info") {
        Some(Step::Info)
    } else if text::same(word, "europe-urls") {
        Some(Step::EuropeUrls)
    } else if text::same(word, "all") {
        Some(Step::All)
    } else {
        None
    }
}

/// The steps that a step runs, in order.
pub open spec fn chosen_of(step: Step) -> Seq<Step> {
    if step == Step::All {
        seq![Step::Download, Step::Load, Step::Bake, Step::Export]
    } else {
        seq![step]
    }
}

/// The steps that a step runs, in order.
pub fn chosen(step: Step) -> (out: Vec<Step>)
    ensures
        out@ == chosen_of(step),
{
    let out: Vec<Step> = if step == Step::All {
        vec![Step::Download, Step::Load, Step::Bake, Step::Export]
    } else {
        vec![step]
    };
    assert(out@ =~= chosen_of(step));
    out
}

/// What reading a command line comes to.
#[derive(Debug)]
pub enum Reading {
    /// Help was asked for, or no step at all.
    Usage,
    /// A step, on these regions.
    Run(String, Vec<String>),
    /// There is no such option.
    UnknownOption(String),
    /// An argument too many.
    Unexpected(String),
}

/// What reading a command line comes to, as plain values.
pub enum Meaning {
    Usage,
    Run(Seq<char>, Seq<Seq<char>>),
    UnknownOption(Seq<char>),
    Unexpected(Seq<char>),
}

impl View for Reading {
    type V = Meaning;

    open spec fn view(&self) -> Meaning {
        match self {
            Reading::Usage => Meaning::Usage,
            Reading::Run(step, regions) => Meaning::Run(step@, text::texts(regions@)),
            Reading::UnknownOption(s) => Meaning::UnknownOption(s@),
            Reading::Unexpected(s) => Meaning::Unexpected(s@),
        }
    }
}

/// What the arguments from the `i`-th on come to. `--regions` takes everything behind
/// it, so it stands last.
pub open spec fn meaning(
    args: Seq<Seq<char>>,
    i: int,
    step: Option<Seq<char>>,
    regions: Seq<Seq<char>>,
    listing: bool,
) -> Meaning
    decreases args.len() - i,
{
    if i >= args.len() {
        match step {
            Some(s) => Meaning::Run(s, regions),
            None => Meaning::Usage,
        }
    } else if args[i] == "-h"@ || args[i] == "--help"@ {
        Meaning::Usage
    } else if args[i] == "--regions"@ {
        meaning(args, i + 1, step, regions, true)
    } else if listing {
        meaning(args, i + 1, step, regions.push(args[i]), listing)
    } else if args[i].len() > 0 && args[i][0] == '-' {
        Meaning::UnknownOption(args[i])
    } else if step is None {
        meaning(args, i + 1, Some(args[i]), regions, listing)
    } else {
        Meaning::Unexpected(args[i])
    }
}

/// Reads a command line, without the name of the program.
pub fn read(args: &Vec<String>) -> (r: Reading)
    ensures
        r@ == meaning(text::texts(args@), 0, None, Seq::empty(), false),
{
    let mut step: Option<String> = None;
    let mut regions: Vec<String> = Vec::new();
    let mut listing: bool = false;
    let mut i: usize = 0;
    let ghost all = text::texts(args@);
    assert(text::texts(regions@) =~= Seq::empty());
    while i < args.len()
        invariant
            i <= args@.len(),
            all == text::texts(args@),
            meaning(all, 0, None, Seq::empty(), false) == meaning(
                all,
                i as int,
                text::text_of(step),
                text::texts(regions@),
                listing,
            ),
        decreases args@.len() - i,
    {
        let arg: &str = args[i].as_str();
        assert(all[i as int] == arg@);
        let ghost before = text::texts(regions@);
        if text::same(arg, "-h") || text::same(arg, "--help") {
            return Reading::Usage;
        } else if text::same(arg, "--regions") {
            listing = true;
        } else if listing {
            regions.push(arg.to_owned());
            assert(text::texts(regions@) =~= before.push(arg@));
        } else if text::begins_with(arg, '-') {
            return Reading::UnknownOption(arg.to_owned());
        } else if step.is_none() {
            step = Some(arg.to_owned());
        } else {
            return Reading::Unexpected(arg.to_owned());
        }
        i = i + 1;
    }
    match step {
        Some(s) => Reading::Run(s, regions),
        None => Reading::Usage,
    }
}

/// The regions to build: those that are named, or else the default ones.
pub fn or_default(regions: Vec<String>) -> (out: Vec<String>)
    ensures
        regions@.len() > 0 ==> out == regions,
        regions@.len() == 0 ==> text::texts(out@) == seq!["picardie"@],
{
    if regions.len() > 0 {
        return regions;
    }
    let defaults: [&'static str; 1] = DEFAULT_REGIONS;
    let mut out: Vec<String> = Vec::new();
    out.push(defaults[0].to_owned());
    assert(text::texts(out@) =~= seq!["picardie"@]);
    out
}

/// The first region that is not among those known.
pub fn unknown_region(regions: &Vec<String>, known: &Vec<String>) -> (r: Option<usize>)
    ensures
        match r {
            Some(i) => i < regions@.len() && !text::texts(known@).contains(regions@[i as int]@) && forall|j: int|
                0 <= j < i ==> text::texts(known@).contains((#[trigger] regions@[j])@),
            None => forall|j: int|
                0 <= j < regions@.len() ==> text::texts(known@).contains((#[trigger] regions@[j])@),
        },
{
    let mut i: usize = 0;
    while i < regions.len()
        invariant
            i <= regions@.len(),
            forall|j: int| 0 <= j < i ==> text::texts(known@).contains((#[trigger] regions@[j])@),
        decreases regions@.len() - i,
    {
        if !text::listed(known, regions[i].as_str()) {
            return Some(i);
        }
        i = i + 1;
    }
    None
}

proof fn lemma_listing(args: Seq<Seq<char>>, i: int, step: Seq<char>, regions: Seq<Seq<char>>)
    requires
        0 <= i <= args.len(),
        forall|k: int|
            i <= k < args.len() ==> #[trigger] args[k] != "-h"@ && args[k] != "--help"@ && args[k] != "--regions"@,
    ensures
        meaning(args, i, Some(step), regions, true) == Meaning::Run(step, regions + args.skip(i)),
    decreases args.len() - i,
{
    if i == args.len() {
        assert(regions + args.skip(i) =~= regions);
    } else {
        lemma_listing(args, i + 1, step, regions.push(args[i]));
        assert(regions.push(args[i]) + args.skip(i + 1) =~= regions + args.skip(i));
    }
}

/// **A step stands alone or in front of `--regions`, and everything behind that is a
/// region**, in the order it is named in.
pub proof fn law_a_step_and_its_regions(step: Seq<char>, regions: Seq<Seq<char>>)
    requires
        step.len() > 0 && step[0] != '-',
        forall|k: int|
            0 <= k < regions.len() ==> #[trigger] regions[k] != "-h"@ && regions[k] != "--help"@ && regions[k]
                != "--regions"@,
    ensures
        meaning(seq![step], 0, None, Seq::empty(), false) == Meaning::Run(step, Seq::empty()),
        meaning(seq![step, "--regions"@] + regions, 0, None, Seq::empty(), false) == Meaning::Run(step, regions),
        meaning(Seq::empty(), 0, None, Seq::empty(), false) is Usage,
{
    reveal_strlit("-h");
    reveal_strlit("--help");
    reveal_strlit("--regions");
    reveal_with_fuel(meaning, 3);
    assert("-h"@[0] == '-' && "--help"@[0] == '-' && "--regions"@[0] == '-');
    assert("-h"@.len() == 2 && "--help"@.len() == 6 && "--regions"@.len() == 9);
    let args = seq![step, "--regions"@] + regions;
    assert(args[0] == step && args[1] == "--regions"@);
    assert forall|k: int| 2 <= k < args.len() implies #[trigger] args[k] != "-h"@ && args[k] != "--help"@ && args[k]
        != "--regions"@ by {
        assert(args[k] == regions[k - 2]);
    }
    lemma_listing(args, 2, step, Seq::empty());
    assert(Seq::<Seq<char>>::empty() + args.skip(2) =~= regions);
    assert(meaning(args, 1, Some(step), Seq::empty(), false) == meaning(args, 2, Some(step), Seq::empty(), true));
}

/// **To run everything is to download, to load, to bake and to export, in turn**; any
/// other step runs alone.
pub proof fn law_all_is_every_step_in_turn(step: Step)
    ensures
        chosen_of(Step::All) == chosen_of(Step::Download) + chosen_of(Step::Load) + chosen_of(Step::Bake) + chosen_of(
            Step::Export,
        ),
        step != Step::All ==> chosen_of(step) == seq![step],
{
    assert(chosen_of(Step::All) =~= chosen_of(Step::Download) + chosen_of(Step::Load) + chosen_of(Step::Bake)
        + chosen_of(Step::Export));
}

/// **Layers follow one another as they are listed**: the place that a layer is given is
/// its place in the list, and all but the roads are made of areas.
pub proof fn law_layers_are_merged_in_their_order(i: int)
    requires
        0 <= i < 4,
    ensures
        merge_order().len() == 4,
        merge_order()[i] == "WHEN '"@ + LAYERS@[i]@ + "' THEN "@ + text::decimal(i as nat),
        areal(LAYERS@[i]@) <==> LAYERS@[i]@ != "roads"@,
{
    reveal_strlit("WHEN '");
    reveal_strlit("' THEN ");
    reveal_strlit("landuse");
    reveal_strlit("water");
    reveal_strlit("roads");
    reveal_strlit("buildings");
    reveal_strlit("WHEN 'landuse' THEN 0");
    reveal_strlit("WHEN 'water' THEN 1");
    reveal_strlit("WHEN 'roads' THEN 2");
    reveal_strlit("WHEN 'buildings' THEN 3");
    assert("landuse"@.len() == 7 && "water"@.len() == 5 && "roads"@.len() == 5 && "buildings"@.len() == 9);
    assert("water"@[0] == 'w' && "roads"@[0] == 'r');
    assert(text::decimal(0) =~= seq!['0']);
    assert(text::decimal(1) =~= seq!['1']);
    assert(text::decimal(2) =~= seq!['2']);
    assert(text::decimal(3) =~= seq!['3']);
    if i == 0 {
        assert(merge_order()[0] =~= "WHEN '"@ + "landuse"@ + "' THEN "@ + text::decimal(0));
    } else if i == 1 {
        assert(merge_order()[1] =~= "WHEN '"@ + "water"@ + "' THEN "@ + text::decimal(1));
    } else if i == 2 {
        assert(merge_order()[2] =~= "WHEN '"@ + "roads"@ + "' THEN "@ + text::decimal(2));
    } else {
        assert(merge_order()[3] =~= "WHEN '"@ + "buildings"@ + "' THEN "@ + text::decimal(3));
    }
}

} // verus!
