//! Loading extracts into the table of features: the statements that classify what
//! was staged, clip the coastline, place the labels, and cut large areas into
//! pieces that a tile can hold.

use crate::text;
use crate::tuning;
use vstd::prelude::*;

verus! {

/// The table of features.
pub const FEATURES_DDL: &'static str = "DROP TABLE IF EXISTS features;
         CREATE TABLE features (
            layer   VARCHAR,
            cls     VARCHAR,
            minzoom UTINYINT,
            name    VARCHAR,
            osm_id  BIGINT,
            geom    GEOMETRY,
            min_x   DOUBLE, min_y DOUBLE, max_x DOUBLE, max_y DOUBLE,
            cell    BIGINT
         )";

/// Removes what two adjacent extracts both hold: the first copy of a feature stays.
pub const REMOVE_DUPLICATES: &'static str = "DELETE FROM features WHERE rowid IN (
             SELECT rowid FROM (
                 SELECT rowid, row_number() OVER (
                            PARTITION BY layer, osm_id ORDER BY rowid) AS rn
                 FROM features WHERE osm_id IS NOT NULL
             ) WHERE rn > 1
         );
         CHECKPOINT";

/// The table that place labels are staged in.
pub const PLACES_DDL: &'static str = "CREATE OR REPLACE TABLE raw_places
             (name VARCHAR, kind VARCHAR, population BIGINT, lon DOUBLE, lat DOUBLE)";

/// A staged geometry in projected metres.
pub const TO_3857: &'static str = "ST_Transform(ST_GeomFromWKB(wkb), 'EPSG:4326', 'EPSG:3857', always_xy := true)";

/// The side of a cell that areas are cut to, in projected metres.
pub const CUT_SPAN: &'static str = "2445.98490512564";

/// How often areas are cut in two before the cutting is given up. Halving reaches a
/// single cell from the whole world in 14 passes.
pub const CUT_PASSES: u32 = 64;

/// Classifies the lines. `$a` projects a geometry, `$b` gives a road its class and
/// `$c` its zoom level, `$d` is the level of a river, `$e` the deepest level and
/// `$f` the clustering key.
pub const CLASSIFY_LINES: &'static str = "
        INSERT INTO features
        WITH src AS (
            SELECT osm_id, name, highway, waterway, $a AS geom
            FROM raw WHERE kind = 'line'
        ), classified AS (
            SELECT osm_id, name, geom,
                   CASE WHEN highway IS NOT NULL THEN 'roads' ELSE 'water' END AS layer,
                   CASE WHEN highway IS NOT NULL THEN $b
                        WHEN waterway IN ('river', 'canal') THEN 'river'
                        ELSE 'stream' END AS cls
            FROM src
        ), bounded AS (
            SELECT layer, cls,
                   CASE WHEN layer = 'roads' THEN $c
                        WHEN cls = 'river' THEN $d
                        ELSE $e END AS minzoom,
                   name, osm_id, geom,
                   ST_XMin(geom) AS min_x, ST_YMin(geom) AS min_y,
                   ST_XMax(geom) AS max_x, ST_YMax(geom) AS max_y
            FROM classified
            WHERE NOT ST_IsEmpty(geom)
        )
        SELECT *, $f AS cell FROM bounded
        WHERE minzoom <= $e
        ORDER BY cell
        ";

/// Classifies the areas. `$a` projects a geometry, `$b` gives an area its class,
/// `$c` its layer and `$d` its zoom level; `$e` is the clustering key and `$f` the
/// deepest level.
pub const CLASSIFY_AREAS: &'static str = "
        INSERT INTO features
        WITH src AS (
            SELECT osm_id, name, building, landuse, \"natural\", water, waterway,
                   leisure, $a AS geom
            FROM raw WHERE kind = 'area'
        ), valid AS (
            -- OSM rings self-intersect often enough that this is not an edge
            -- case: Luxembourg has two woods that GEOS refuses to clip, and it
            -- refuses by throwing, which fails the whole bake. Repairing here
            -- costs one pass at load; repairing in the bake would cost one per
            -- zoom per layer. MakeValid can demote a polygon to a collection of
            -- lines and points, so keep only the polygonal part -- and if that
            -- leaves nothing, the ST_IsEmpty filter below drops the feature.
            SELECT * REPLACE (
                CASE WHEN ST_IsValid(geom) THEN geom
                     ELSE ST_CollectionExtract(ST_MakeValid(geom), 3) END AS geom
            ) FROM src
        ), classified AS (
            SELECT osm_id, name, geom, $b AS cls FROM valid
        ), bounded AS (
            SELECT $c AS layer, cls, $d AS minzoom,
                   name, osm_id, geom,
                   ST_XMin(geom) AS min_x, ST_YMin(geom) AS min_y,
                   ST_XMax(geom) AS max_x, ST_YMax(geom) AS max_y
            FROM classified
            WHERE cls IS NOT NULL AND NOT ST_IsEmpty(geom)
        )
        SELECT *, $e AS cell FROM bounded
        WHERE minzoom <= $f
        ORDER BY cell
        ";

/// Clips the coastline in `$a` to the columns from `$b` to `$c` and the rows from
/// `$d` to `$e`. `$f` is the widest level and `$g` the clustering key.
pub const CLIP_LAND: &'static str = "
        INSERT INTO features (layer, cls, minzoom, name, osm_id, geom,
                              min_x, min_y, max_x, max_y, cell)
        WITH src AS (
            SELECT geom FROM ST_Read('$a')
            WHERE ST_XMax(geom) >= $b AND ST_XMin(geom) <= $c
              AND ST_YMax(geom) >= $d AND ST_YMin(geom) <= $e
        ), clipped AS (
            -- ST_Intersection can hand back a collection where a chunk only
            -- touches the box along an edge; keep the polygonal part, and the
            -- ST_IsEmpty filter drops what is left of the ones that had none.
            SELECT ST_CollectionExtract(
                       ST_Intersection(geom,
                           ST_MakeEnvelope($b, $d, $c, $e)), 3) AS geom
            FROM src
        ), bounded AS (
            SELECT geom,
                   ST_XMin(geom) AS min_x, ST_YMin(geom) AS min_y,
                   ST_XMax(geom) AS max_x, ST_YMax(geom) AS max_y
            FROM clipped WHERE NOT ST_IsEmpty(geom)
        )
        SELECT 'land', 'land', $f, NULL, NULL, geom,
               min_x, min_y, max_x, max_y, $g AS cell
        FROM bounded
        ORDER BY cell
        ";

/// Places the labels, each settlement once. `$a` gives a place its zoom level and
/// `$b` is the clustering key.
pub const PLACE_LABELS: &'static str = "
        INSERT INTO features (layer, cls, minzoom, name, osm_id, geom,
                              min_x, min_y, max_x, max_y, cell)
        WITH deduped AS (
            SELECT name, kind, max(population) AS population,
                   min(lon) AS lon, min(lat) AS lat
            FROM raw_places
            GROUP BY name, kind, round(lon, 3), round(lat, 3)
        ), projected AS (
            SELECT name, kind, population,
                   ST_Transform(ST_Point(lon, lat), 'EPSG:4326', 'EPSG:3857',
                                always_xy := true) AS geom
            FROM deduped
        )
        SELECT 'places', kind, $a, name, NULL, geom,
               ST_X(geom), ST_Y(geom), ST_X(geom), ST_Y(geom), $b AS cell
        FROM (SELECT *, ST_X(geom) AS min_x, ST_Y(geom) AS min_y,
                        ST_X(geom) AS max_x, ST_Y(geom) AS max_y
              FROM projected)
        ORDER BY cell
        ";

/// Cuts what `$a` finds too wide in two, across its longer side: `$b`, `$c`, `$d`
/// and `$e` are the first and last column and the first and last row of cells, `$f`
/// half a side of the plane and `$g` the side of a cell.
pub const SPLIT_WIDE: &'static str = "
            CREATE OR REPLACE TABLE split_src AS
            SELECT cls, minzoom, name, osm_id, geom, min_x, min_y, max_x, max_y
            FROM layer_sub WHERE $a;
            DELETE FROM layer_sub WHERE $a;
            INSERT INTO layer_sub
            WITH m AS (
                SELECT cls, minzoom, name, osm_id, geom, min_x, min_y, max_x, max_y,
                       ($c - $b) >= ($e - $d) AS split_x,
                       -$f + (FLOOR(($b + $c) / 2) + 1) * $g AS mid_x,
                       $f - (FLOOR(($d + $e) / 2) + 1) * $g AS mid_y
                FROM split_src
            ), halves AS (
                SELECT cls, minzoom, name, osm_id,
                       ST_CollectionExtract(ST_Intersection(geom,
                           CASE WHEN split_x
                                THEN ST_MakeEnvelope(min_x, min_y, mid_x, max_y)
                                ELSE ST_MakeEnvelope(min_x, mid_y, max_x, max_y)
                           END), 3) AS geom
                FROM m
                UNION ALL
                SELECT cls, minzoom, name, osm_id,
                       ST_CollectionExtract(ST_Intersection(geom,
                           CASE WHEN split_x
                                THEN ST_MakeEnvelope(mid_x, min_y, max_x, max_y)
                                ELSE ST_MakeEnvelope(min_x, min_y, max_x, mid_y)
                           END), 3) AS geom
                FROM m
            )
            SELECT cls, minzoom, name, osm_id, geom,
                   ST_XMin(geom) AS min_x, ST_YMin(geom) AS min_y,
                   ST_XMax(geom) AS max_x, ST_YMax(geom) AS max_y
            FROM halves WHERE NOT ST_IsEmpty(geom);
            DROP TABLE split_src;
            CHECKPOINT;
            ";

/// Puts the pieces of layer `$a` in the place of the layer. `$b` is the clustering
/// key and `$c` the level of the cells.
pub const REPLACE_LAYER: &'static str = "
        BEGIN TRANSACTION;
        DELETE FROM features WHERE layer = '$a';
        INSERT INTO features (layer, cls, minzoom, name, osm_id, geom,
                              min_x, min_y, max_x, max_y, cell)
        SELECT '$a', cls, minzoom, name, osm_id, geom,
               min_x, min_y, max_x, max_y, $b AS cell
        FROM layer_sub ORDER BY cell;
        CREATE TABLE $a_subdivided (cell_zoom UTINYINT);
        INSERT INTO $a_subdivided VALUES ($c);
        COMMIT;
        ";

/// The statement that makes the staging table.
pub fn raw_table_sql() -> (out: String)
    ensures
        out@ == "DROP TABLE IF EXISTS raw; CREATE TABLE raw ("@ + tuning::RAW_DDL@ + ")"@,
{
    let mut out: String = "DROP TABLE IF EXISTS raw; CREATE TABLE raw (".to_owned();
    out.push_str(tuning::RAW_DDL);
    out.push_str(")");
    out
}

/// The statement that classifies the lines: roads, and the rivers that are lines.
pub open spec fn classify_lines_text() -> Seq<char> {
    text::filled(
        CLASSIFY_LINES@,
        seq![
            TO_3857@,
            tuning::class_case("highway"@, tuning::road_classes()),
            tuning::zoom_case("cls"@, tuning::clamped_rules(tuning::road_classes()), tuning::zooms().last()),
            text::decimal(tuning::clamped(8) as nat),
            text::decimal(tuning::zooms().last() as nat),
            tuning::cell_expr(tuning::MAXZOOM_SPAN@),
        ],
    )
}

/// The statement that classifies the lines.
pub fn classify_lines_sql() -> (out: String)
    ensures
        out@ == classify_lines_text(),
{
    let road_class: String = tuning::road_class_sql("highway");
    let road_minzoom: String = tuning::road_minzoom_sql("cls");
    let river: String = text::number(tuning::clamp(8) as u64);
    let deepest: String = text::number(tuning::maxzoom() as u64);
    let cell: String = tuning::cell_sql_at_maxzoom();
    let values: [&str; 6] = [TO_3857, road_class.as_str(), road_minzoom.as_str(), river.as_str(), deepest.as_str(), cell.as_str()];
    assert(text::strs(values@) =~= seq![TO_3857@, tuning::class_case("highway"@, tuning::road_classes()), tuning::zoom_case("cls"@, tuning::clamped_rules(tuning::road_classes()), tuning::zooms().last()), text::decimal(tuning::clamped(8) as nat), text::decimal(tuning::zooms().last() as nat), tuning::cell_expr(tuning::MAXZOOM_SPAN@)]);
    text::fill(CLASSIFY_LINES, &values)
}

/// The statement that classifies the areas and mends their rings.
pub open spec fn classify_areas_text() -> Seq<char> {
    text::filled(
        CLASSIFY_AREAS@,
        seq![
            TO_3857@,
            tuning::POLY_CLASS_SQL@,
            tuning::POLY_LAYER_SQL@,
            tuning::area_minzoom(),
            tuning::cell_expr(tuning::MAXZOOM_SPAN@),
            text::decimal(tuning::zooms().last() as nat),
        ],
    )
}

/// The statement that classifies the areas.
pub fn classify_areas_sql() -> (out: String)
    ensures
        out@ == classify_areas_text(),
{
    let area_minzoom: String = tuning::area_minzoom_sql();
    let cell: String = tuning::cell_sql_at_maxzoom();
    let deepest: String = text::number(tuning::maxzoom() as u64);
    let values: [&str; 6] = [TO_3857, tuning::POLY_CLASS_SQL, tuning::POLY_LAYER_SQL, area_minzoom.as_str(), cell.as_str(), deepest.as_str()];
    assert(text::strs(values@) =~= seq![TO_3857@, tuning::POLY_CLASS_SQL@, tuning::POLY_LAYER_SQL@, tuning::area_minzoom(), tuning::cell_expr(tuning::MAXZOOM_SPAN@), text::decimal(tuning::zooms().last() as nat)]);
    text::fill(CLASSIFY_AREAS, &values)
}

/// The statement that clips the coastline to the extent of the data.
pub open spec fn land_text(shp: Seq<char>, min_x: Seq<char>, min_y: Seq<char>, max_x: Seq<char>, max_y: Seq<char>) -> Seq<char> {
    text::filled(
        CLIP_LAND@,
        seq![
            shp,
            min_x,
            max_x,
            min_y,
            max_y,
            text::decimal(tuning::zooms()[0] as nat),
            tuning::cell_expr(tuning::MAXZOOM_SPAN@),
        ],
    )
}

/// The statement that clips the coastline to the extent of the data.
pub fn land_sql(shp: &str, min_x: &str, min_y: &str, max_x: &str, max_y: &str) -> (out: String)
    ensures
        out@ == land_text(shp@, min_x@, min_y@, max_x@, max_y@),
{
    let widest: String = text::number(tuning::minzoom() as u64);
    let cell: String = tuning::cell_sql_at_maxzoom();
    let values: [&str; 7] = [shp, min_x, max_x, min_y, max_y, widest.as_str(), cell.as_str()];
    assert(text::strs(values@) =~= seq![shp@, min_x@, max_x@, min_y@, max_y@, text::decimal(tuning::zooms()[0] as nat), tuning::cell_expr(tuning::MAXZOOM_SPAN@)]);
    text::fill(CLIP_LAND, &values)
}

/// The statement that places the labels.
pub open spec fn places_text() -> Seq<char> {
    text::filled(
        PLACE_LABELS@,
        seq![
            tuning::place_minzoom("population"@, "kind"@),
            tuning::cell_expr(tuning::MAXZOOM_SPAN@),
        ],
    )
}

/// The statement that places the labels.
pub fn places_sql() -> (out: String)
    ensures
        out@ == places_text(),
{
    let level: String = tuning::place_minzoom_sql("population", "kind");
    let cell: String = tuning::cell_sql_at_maxzoom();
    let values: [&str; 2] = [level.as_str(), cell.as_str()];
    assert(text::strs(values@) =~= seq![tuning::place_minzoom("population"@, "kind"@), tuning::cell_expr(tuning::MAXZOOM_SPAN@)]);
    text::fill(PLACE_LABELS, &values)
}

/// The zoom level of the cells that areas are cut to: three above the deepest, but
/// none above the widest.
pub fn cut_zoom() -> (z: u8)
    ensures
        z == 14,
        z == tuning::zooms().last() - 3,
        z >= tuning::zooms()[0],
{
    let z: u8 = tuning::maxzoom() - 3;
    if z < tuning::minzoom() {
        tuning::minzoom()
    } else {
        z
    }
}

/// The first or last column or row of cells that a feature lies in: `FLOOR(($a) / $b
/// $c 1e-9)`. Each edge leans inward by a billionth of a cell, because a cut puts
/// edges on the very boundary and a sliver past it must not be cut forever.
pub const CELL_INDEX: &'static str = "FLOOR(($a) / $b $c 1e-9)";

/// The column or row of cells at an edge, which leans inward by `sign`.
pub open spec fn cell_index(edge: Seq<char>, sign: Seq<char>) -> Seq<char> {
    text::filled(CELL_INDEX@, seq![edge, CUT_SPAN@, sign])
}

fn cell_index_sql(edge: &str, sign: &str) -> (out: String)
    ensures
        out@ == cell_index(edge@, sign@),
{
    let values: [&str; 3] = [edge, CUT_SPAN, sign];
    assert(text::strs(values@) =~= seq![edge@, CUT_SPAN@, sign@]);
    text::fill(CELL_INDEX, &values)
}

/// The first column of cells of a feature.
pub open spec fn first_column() -> Seq<char> {
    cell_index("min_x + "@ + tuning::WORLD@, "+"@)
}

/// The last column of cells of a feature.
pub open spec fn last_column() -> Seq<char> {
    cell_index("max_x + "@ + tuning::WORLD@, "-"@)
}

/// The first row of cells of a feature.
pub open spec fn first_row() -> Seq<char> {
    cell_index(tuning::WORLD@ + " - max_y"@, "+"@)
}

/// The last row of cells of a feature.
pub open spec fn last_row() -> Seq<char> {
    cell_index(tuning::WORLD@ + " - min_y"@, "-"@)
}

/// Whether a feature lies in more than one cell.
pub open spec fn wide() -> Seq<char> {
    "("@ + last_column() + " > "@ + first_column() + " OR "@ + last_row() + " > "@ + first_row() + ")"@
}

/// The four edges of a feature, in cells.
fn cell_edges() -> (r: (String, String, String, String))
    ensures
        r.0@ == first_column(),
        r.1@ == last_column(),
        r.2@ == first_row(),
        r.3@ == last_row(),
{
    let mut min_x: String = "min_x + ".to_owned();
    min_x.push_str(tuning::WORLD);
    let mut max_x: String = "max_x + ".to_owned();
    max_x.push_str(tuning::WORLD);
    let mut max_y: String = tuning::WORLD.to_owned();
    max_y.push_str(" - max_y");
    let mut min_y: String = tuning::WORLD.to_owned();
    min_y.push_str(" - min_y");
    (
        cell_index_sql(min_x.as_str(), "+"),
        cell_index_sql(max_x.as_str(), "-"),
        cell_index_sql(max_y.as_str(), "+"),
        cell_index_sql(min_y.as_str(), "-"),
    )
}

/// The condition under which a feature lies in more than one cell.
pub fn wide_sql() -> (out: String)
    ensures
        out@ == wide(),
{
    let (cx0, cx1, cy0, cy1): (String, String, String, String) = cell_edges();
    let mut out: String = "(".to_owned();
    out.push_str(cx1.as_str());
    out.push_str(" > ");
    out.push_str(cx0.as_str());
    out.push_str(" OR ");
    out.push_str(cy1.as_str());
    out.push_str(" > ");
    out.push_str(cy0.as_str());
    out.push_str(")");
    out
}

/// The query that counts what is still too wide.
pub fn count_wide_sql() -> (out: String)
    ensures
        out@ == "SELECT count(*) FROM layer_sub WHERE "@ + wide(),
{
    let mut out: String = "SELECT count(*) FROM layer_sub WHERE ".to_owned();
    let condition: String = wide_sql();
    out.push_str(condition.as_str());
    out
}

/// The statement that cuts what is too wide in two.
pub open spec fn split_wide_text() -> Seq<char> {
    text::filled(
        SPLIT_WIDE@,
        seq![wide(), first_column(), last_column(), first_row(), last_row(), tuning::WORLD@, CUT_SPAN@],
    )
}

/// The statement that cuts what is too wide in two.
pub fn split_wide_sql() -> (out: String)
    ensures
        out@ == split_wide_text(),
{
    let condition: String = wide_sql();
    let (cx0, cx1, cy0, cy1): (String, String, String, String) = cell_edges();
    let values: [&str; 7] = [
        condition.as_str(),
        cx0.as_str(),
        cx1.as_str(),
        cy0.as_str(),
        cy1.as_str(),
        tuning::WORLD,
        CUT_SPAN,
    ];
    assert(text::strs(values@) =~= seq![
        wide(),
        first_column(),
        last_column(),
        first_row(),
        last_row(),
        tuning::WORLD@,
        CUT_SPAN@,
    ]);
    text::fill(SPLIT_WIDE, &values)
}

/// The cutting of a layer: how often what is too wide has been cut in two.
#[derive(Clone, Copy, Debug, PartialEq, Eq, Structural)]
pub struct Cutting {
    pub passes: u32,
}

impl Cutting {
    /// A layer that was not cut yet.
    pub fn begin() -> (c: Cutting)
        ensures
            c.passes == 0,
    {
        Cutting { passes: 0 }
    }

    /// The next statement to run, given how many pieces are still too wide: none where
    /// nothing is, or where the passes are used up.
    pub fn next(&mut self, wide: i64) -> (r: Option<String>)
        requires
            old(self).passes <= CUT_PASSES,
        ensures
            text::text_of(r) == (if old(self).passes < CUT_PASSES && wide != 0 {
                Some(split_wide_text())
            } else {
                None
            }),
            final(self).passes == old(self).passes + (if r is Some {
                1int
            } else {
                0
            }),
            final(self).passes <= CUT_PASSES,
    {
        if self.passes < CUT_PASSES && wide != 0 {
            self.passes = self.passes + 1;
            Some(split_wide_sql())
        } else {
            None
        }
    }
}

/// The query that tells whether a layer was cut before.
pub fn marker_sql(layer: &str) -> (out: String)
    ensures
        out@ == "SELECT count(*) FROM duckdb_tables() WHERE table_name = '"@ + layer@ + "_subdivided'"@,
{
    let mut out: String = "SELECT count(*) FROM duckdb_tables() WHERE table_name = '".to_owned();
    out.push_str(layer);
    out.push_str("_subdivided'");
    out
}

/// The statement that sets a layer aside to be cut.
pub fn copy_layer_sql(layer: &str) -> (out: String)
    ensures
        out@ == "CREATE OR REPLACE TABLE layer_sub AS
         SELECT cls, minzoom, name, osm_id, geom, min_x, min_y, max_x, max_y
         FROM features WHERE layer = '"@ + layer@ + "'"@,
{
    let mut out: String =
        "CREATE OR REPLACE TABLE layer_sub AS
         SELECT cls, minzoom, name, osm_id, geom, min_x, min_y, max_x, max_y
         FROM features WHERE layer = '".to_owned();
    out.push_str(layer);
    out.push_str("'");
    out
}

/// The statement that puts a layer's pieces in its place, all at once.
pub open spec fn replace_layer_text(layer: Seq<char>) -> Seq<char> {
    text::filled(
        REPLACE_LAYER@,
        seq![
            layer,
            tuning::cell_expr(tuning::MAXZOOM_SPAN@),
            text::decimal(14),
        ],
    )
}

/// The statement that puts a layer's pieces in its place.
pub fn replace_layer_sql(layer: &str) -> (out: String)
    ensures
        out@ == replace_layer_text(layer@),
{
    let cell: String = tuning::cell_sql_at_maxzoom();
    let level: String = text::number(cut_zoom() as u64);
    let values: [&str; 3] = [layer, cell.as_str(), level.as_str()];
    assert(text::strs(values@) =~= seq![layer@, tuning::cell_expr(tuning::MAXZOOM_SPAN@), text::decimal(14)]);
    text::fill(REPLACE_LAYER, &values)
}

/// The query that sums a layer up once it is cut: its pieces, and the points of the
/// largest.
pub fn layer_size_sql(layer: &str) -> (out: String)
    ensures
        out@ == "SELECT count(*), max(ST_NPoints(geom)) FROM features WHERE layer = '"@ + layer@ + "'"@,
{
    let mut out: String = "SELECT count(*), max(ST_NPoints(geom)) FROM features WHERE layer = '".to_owned();
    out.push_str(layer);
    out.push_str("'");
    out
}

} // verus!
