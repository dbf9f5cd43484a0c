//! Every number and rule the map is tuned by, in one place: the zoom levels that
//! are baked, what a road is, and when something becomes worth drawing.
//!
//! Queries are built as text, because almost all of them follow from the zoom
//! levels, the size thresholds and the class tables. Numbers with a fraction stand
//! here as they are written in a query.

use crate::text;
use vstd::prelude::*;

verus! {

/// The zoom levels that are baked, from the widest view to the closest. The viewer
/// draws a shallower tile larger for the levels in between.
pub const ZOOMS: [u8; 4] = [10, 12, 15, 17];

/// The zoom levels as a sequence.
pub open spec fn zooms() -> Seq<u8> {
    seq![10u8, 12u8, 15u8, 17u8]
}

/// The deepest level that carries the areal background.
pub const BACKGROUND_MAXZOOM: u8 = 12;

/// The integer grid of a tile.
pub const EXTENT: u32 = 4096;

/// How far a tile overlaps its neighbours, so that wide lines survive its edge.
pub const BUFFER: u32 = 64;

/// The one layer whose tiles carry a name.
pub const NAMED_LAYER: &'static str = "places";

/// Half of a side of the projected plane, in metres.
pub const WORLD: &'static str = "20037508.342789244";

/// Projected metres of a pixel at level 0, where a tile is 512 pixels wide.
pub const MPP0: &'static str = "78271.51696402048";

/// How many pixels a feature must span to be worth drawing.
pub const MIN_PIXELS: &'static str = "3";

/// How many pixels a feature of the land use layer must span.
pub const LANDUSE_PIXELS: &'static str = "12";

/// The side of a tile at the deepest level, in projected metres.
pub const MAXZOOM_SPAN: &'static str = "305.748113140705";

/// Where the coastline comes from.
pub const LAND_URL: &'static str = "https://osmdata.openstreetmap.de/download/land-polygons-split-3857.zip";

/// The list of everything that can be downloaded.
pub const GEOFABRIK_INDEX: &'static str = "https://download.geofabrik.de/index-v1-nogeom.json";

/// The layers in draw order: labels go over everything.
pub open spec fn layers() -> Seq<Seq<char>> {
    seq!["land"@, "landuse"@, "water"@, "roads"@, "buildings"@, "places"@]
}

/// The layers in draw order.
pub const LAYERS: [&'static str; 6] = ["land", "landuse", "water", "roads", "buildings", "places"];

/// The place of a layer in draw order; a layer of another name comes after all of
/// them.
pub open spec fn draw_order(layer: Seq<char>) -> int {
    if layer == "land"@ {
        0
    } else if layer == "landuse"@ {
        1
    } else if layer == "water"@ {
        2
    } else if layer == "roads"@ {
        3
    } else if layer == "buildings"@ {
        4
    } else if layer == "places"@ {
        5
    } else {
        6
    }
}

/// The place of a layer in draw order.
pub fn draws_at(layer: &str) -> (r: u64)
    ensures
        r == draw_order(layer@),
{
    if text::same(layer, "land") {
        0
    } else if text::same(layer, "landuse") {
        1
    } else if text::same(layer, "water") {
        2
    } else if text::same(layer, "roads") {
        3
    } else if text::same(layer, "buildings") {
        4
    } else if text::same(layer, "places") {
        5
    } else {
        6
    }
}

/// Extracts that overlap their own siblings: taking them as well would load the
/// same features twice.
pub const EUROPE_SKIP: [&'static str; 4] = ["alps", "dach", "britain-and-ireland", "united-kingdom"];

/// Whether an extract overlaps its siblings.
pub open spec fn is_aggregate(id: Seq<char>) -> bool {
    id == "alps"@ || id == "dach"@ || id == "britain-and-ireland"@ || id == "united-kingdom"@
}

/// Whether an extract overlaps its siblings.
pub fn europe_skips(id: &str) -> (r: bool)
    ensures
        r == is_aggregate(id@),
{
    let skipped: [&str; 4] = EUROPE_SKIP;
    text::same(id, skipped[0]) || text::same(id, skipped[1]) || text::same(id, skipped[2]) || text::same(
        id,
        skipped[3],
    )
}

/// Numbers in decimal, in a row.
pub open spec fn numbers(list: Seq<u8>) -> Seq<Seq<char>> {
    list.map_values(|z: u8| text::decimal(z as nat))
}

/// Zoom levels with commas between them.
pub fn csv(levels: &[u8]) -> (out: String)
    ensures
        out@ == text::joined(numbers(levels@), ","@),
{
    let mut parts: Vec<String> = Vec::new();
    let mut i: usize = 0;
    while i < levels.len()
        invariant
            i <= levels@.len(),
            text::texts(parts@) =~= numbers(levels@.take(i as int)),
        decreases levels@.len() - i,
    {
        let ghost before = parts@;
        let part: String = text::number(levels[i] as u64);
        let ghost shown = part@;
        parts.push(part);
        i = i + 1;
        assert(text::texts(parts@) =~= text::texts(before).push(shown));
        assert(levels@.take(i as int) =~= levels@.take(i - 1).push(levels@[i - 1]));
    }
    assert(levels@.take(i as int) =~= levels@);
    text::join(&parts, ",")
}

/// The zoom levels as `10,12,15,17`.
pub fn zooms_csv() -> (out: String)
    ensures
        out@ == text::joined(numbers(zooms()), ","@),
{
    let levels: [u8; 4] = ZOOMS;
    assert(levels@ =~= zooms());
    csv(&levels)
}

/// The widest level.
pub fn minzoom() -> (z: u8)
    ensures
        z == zooms()[0],
{
    10
}

/// The deepest level.
pub fn maxzoom() -> (z: u8)
    ensures
        z == zooms().last(),
{
    17
}

/// The layers that cover the whole map.
pub open spec fn background(layer: Seq<char>) -> bool {
    layer == "land"@ || layer == "landuse"@
}

/// Whether a layer covers the whole map, and not just the places where something
/// happens to be.
pub fn is_background(layer: &str) -> (r: bool)
    ensures
        r == background(layer@),
{
    text::same(layer, "land") || text::same(layer, "landuse")
}

/// The layers made of areas.
pub open spec fn areal(layer: Seq<char>) -> bool {
    layer == "land"@ || layer == "landuse"@ || layer == "water"@ || layer == "buildings"@
}

/// Whether a layer is made of areas: these are simplified with their topology kept
/// and repaired afterwards.
pub fn is_area(layer: &str) -> (r: bool)
    ensures
        r == areal(layer@),
{
    text::same(layer, "land") || text::same(layer, "landuse") || text::same(layer, "water") || text::same(
        layer,
        "buildings",
    )
}

/// Whether a layer is baked at a level.
pub open spec fn baked(layer: Seq<char>, z: u8) -> bool {
    !background(layer) || z <= BACKGROUND_MAXZOOM
}

/// Whether a layer is baked at a level: only the background stops early.
pub fn bakes(layer: &str, z: u8) -> (r: bool)
    ensures
        r == baked(layer@, z),
{
    !is_background(layer) || z <= BACKGROUND_MAXZOOM
}

/// The deepest level that carries the background: one of the levels at or above
/// the cap, and no level between it and the cap.
pub fn background_rung() -> (z: u8)
    ensures
        zooms().contains(z),
        z <= BACKGROUND_MAXZOOM,
        forall|i: int| 0 <= i < zooms().len() && zooms()[i] <= BACKGROUND_MAXZOOM ==> zooms()[i] <= z,
{
    let levels: [u8; 4] = ZOOMS;
    let mut best: u8 = minzoom();
    let mut i: usize = 0;
    assert(zooms()[0] == 10);
    while i < 4
        invariant
            i <= 4,
            levels@ =~= zooms(),
            zooms().contains(best),
            best <= BACKGROUND_MAXZOOM,
            forall|j: int| 0 <= j < i && zooms()[j] <= BACKGROUND_MAXZOOM ==> zooms()[j] <= best,
            forall|j: int| i <= j < 4 ==> zooms()[j] >= best,
        decreases 4 - i,
    {
        if levels[i] <= BACKGROUND_MAXZOOM {
            best = levels[i];
            assert(zooms()[i as int] == best);
        }
        i = i + 1;
    }
    best
}

/// A zoom level pulled into the range that is baked.
pub open spec fn clamped(z: u8) -> u8 {
    if z < 10 {
        10
    } else if z > 17 {
        17
    } else {
        z
    }
}

/// Pulls a zoom level into the range that is baked: a range that starts later must
/// not ask for tiles that never exist.
pub fn clamp(z: u8) -> (r: u8)
    ensures
        r == clamped(z),
        zooms()[0] <= r <= zooms().last(),
{
    if z < minzoom() {
        minzoom()
    } else if z > maxzoom() {
        maxzoom()
    } else {
        z
    }
}

/// A class of roads: its name, the `highway` values it takes, and the zoom level at
/// which it appears.
pub struct RoadClass {
    pub cls: &'static str,
    pub tags: Vec<&'static str>,
    pub minzoom: u8,
}

/// A class of roads as plain values.
pub struct RoadRule {
    pub cls: Seq<char>,
    pub tags: Seq<Seq<char>>,
    pub minzoom: u8,
}

impl View for RoadClass {
    type V = RoadRule;

    open spec fn view(&self) -> RoadRule {
        RoadRule { cls: self.cls@, tags: text::strs(self.tags@), minzoom: self.minzoom }
    }
}

/// The rules of a table of classes.
pub open spec fn rules(table: Seq<RoadClass>) -> Seq<RoadRule> {
    table.map_values(|c: RoadClass| c@)
}

/// The classes of roads, where the tertiary ones appear at `tertiary`.
pub open spec fn road_rules(tertiary: u8) -> Seq<RoadRule> {
    seq![
        RoadRule { cls: "motorway"@, tags: seq!["motorway"@, "motorway_link"@], minzoom: 6 },
        RoadRule { cls: "trunk"@, tags: seq!["trunk"@, "trunk_link"@], minzoom: 7 },
        RoadRule { cls: "primary"@, tags: seq!["primary"@, "primary_link"@], minzoom: 8 },
        RoadRule { cls: "secondary"@, tags: seq!["secondary"@, "secondary_link"@], minzoom: 9 },
        RoadRule { cls: "tertiary"@, tags: seq!["tertiary"@, "tertiary_link"@], minzoom: tertiary },
        RoadRule {
            cls: "residential"@,
            tags: seq!["residential"@, "unclassified"@, "living_street"@],
            minzoom: 11,
        },
        RoadRule { cls: "service"@, tags: seq!["service"@, "track"@], minzoom: 12 },
        RoadRule {
            cls: "path"@,
            tags: seq!["footway"@, "path"@, "cycleway"@, "pedestrian"@, "steps"@, "bridleway"@],
            minzoom: 12,
        },
    ]
}

/// The classes of roads of this map: tertiary roads appear with the residential
/// ones.
pub open spec fn road_classes() -> Seq<RoadRule> {
    road_rules(11)
}

/// The table of road classes.
pub fn road_table(tertiary: u8) -> (out: Vec<RoadClass>)
    ensures
        rules(out@) == road_rules(tertiary),
{
    let out: Vec<RoadClass> = vec![
        RoadClass { cls: "motorway", tags: vec!["motorway", "motorway_link"], minzoom: 6 },
        RoadClass { cls: "trunk", tags: vec!["trunk", "trunk_link"], minzoom: 7 },
        RoadClass { cls: "primary", tags: vec!["primary", "primary_link"], minzoom: 8 },
        RoadClass { cls: "secondary", tags: vec!["secondary", "secondary_link"], minzoom: 9 },
        RoadClass { cls: "tertiary", tags: vec!["tertiary", "tertiary_link"], minzoom: tertiary },
        RoadClass {
            cls: "residential",
            tags: vec!["residential", "unclassified", "living_street"],
            minzoom: 11,
        },
        RoadClass { cls: "service", tags: vec!["service", "track"], minzoom: 12 },
        RoadClass {
            cls: "path",
            tags: vec!["footway", "path", "cycleway", "pedestrian", "steps", "bridleway"],
            minzoom: 12,
        },
    ];
    proof {
        let want = road_rules(tertiary);
        assert(out@.len() == 8);
        assert forall|i: int| 0 <= i < 8 implies rules(out@)[i] == want[i] by {
            assert(rules(out@)[i].tags =~= want[i].tags);
        }
        assert(rules(out@) =~= want);
    }
    out
}

/// A text as a query writes it: in quotes, with the quotes in it doubled.
pub open spec fn quoted(s: Seq<char>) -> Seq<char> {
    "'"@ + text::replaced(s, '\'', "''"@) + "'"@
}

/// A text in quotes.
pub fn quote(s: &str) -> (out: String)
    ensures
        out@ == quoted(s@),
{
    let mut out: String = "'".to_owned();
    let inner: String = text::replace(s, '\'', "''");
    out.push_str(inner.as_str());
    out.push_str("'");
    out
}

/// A list of texts as a query writes it.
pub open spec fn quoted_list(values: Seq<Seq<char>>) -> Seq<char> {
    text::joined(values.map_values(|v: Seq<char>| quoted(v)), ", "@)
}

/// A list of texts, each in quotes.
pub fn sql_list(values: &[&str]) -> (out: String)
    ensures
        out@ == quoted_list(text::strs(values@)),
{
    let mut parts: Vec<String> = Vec::new();
    let mut i: usize = 0;
    let ghost want = text::strs(values@).map_values(|v: Seq<char>| quoted(v));
    while i < values.len()
        invariant
            i <= values@.len(),
            want == text::strs(values@).map_values(|v: Seq<char>| quoted(v)),
            text::texts(parts@) =~= want.take(i as int),
        decreases values@.len() - i,
    {
        let ghost before = parts@;
        let part: String = quote(values[i]);
        let ghost shown = part@;
        parts.push(part);
        assert(text::texts(parts@) =~= text::texts(before).push(shown));
        i = i + 1;
    }
    assert(want.take(i as int) =~= want);
    text::join(&parts, ", ")
}

/// The branch that gives a road its class.
pub open spec fn class_arm(col: Seq<char>, rule: RoadRule) -> Seq<char> {
    "WHEN "@ + col + " IN ("@ + quoted_list(rule.tags) + ") THEN '"@ + rule.cls + "'"@
}

/// The expression that gives a road its class.
pub open spec fn class_case(col: Seq<char>, classes: Seq<RoadRule>) -> Seq<char> {
    "CASE "@ + text::joined(classes.map_values(|c: RoadRule| class_arm(col, c)), " "@) + " ELSE 'other' END"@
}

/// The expression that gives a road its class, from a table of classes.
pub fn class_sql(col: &str, table: &Vec<RoadClass>) -> (out: String)
    ensures
        out@ == class_case(col@, rules(table@)),
{
    let mut arms: Vec<String> = Vec::new();
    let mut i: usize = 0;
    let ghost want = rules(table@).map_values(|c: RoadRule| class_arm(col@, c));
    while i < table.len()
        invariant
            i <= table@.len(),
            want == rules(table@).map_values(|c: RoadRule| class_arm(col@, c)),
            text::texts(arms@) =~= want.take(i as int),
        decreases table@.len() - i,
    {
        let ghost before = arms@;
        let mut arm: String = "WHEN ".to_owned();
        arm.push_str(col);
        arm.push_str(" IN (");
        let tags: String = sql_list(table[i].tags.as_slice());
        arm.push_str(tags.as_str());
        arm.push_str(") THEN '");
        arm.push_str(table[i].cls);
        arm.push_str("'");
        let ghost shown = arm@;
        assert(shown == class_arm(col@, table@[i as int]@));
        arms.push(arm);
        assert(text::texts(arms@) =~= text::texts(before).push(shown));
        i = i + 1;
    }
    assert(want.take(i as int) =~= want);
    let mut out: String = "CASE ".to_owned();
    let inner: String = text::join(&arms, " ");
    out.push_str(inner.as_str());
    out.push_str(" ELSE 'other' END");
    out
}

/// The expression that gives a road its class.
pub fn road_class_sql(col: &str) -> (out: String)
    ensures
        out@ == class_case(col@, road_classes()),
{
    class_sql(col, &road_table(11))
}

/// The branch that gives a class its zoom level.
pub open spec fn zoom_arm(cls: Seq<char>, z: u8) -> Seq<char> {
    "WHEN '"@ + cls + "' THEN "@ + text::decimal(z as nat)
}

/// The expression that gives a class of roads its zoom level.
pub open spec fn zoom_case(col: Seq<char>, classes: Seq<RoadRule>, deepest: u8) -> Seq<char> {
    "CASE "@ + col + " "@ + text::joined(
        classes.map_values(|c: RoadRule| zoom_arm(c.cls, c.minzoom)),
        " "@,
    ) + " ELSE "@ + text::decimal(deepest as nat) + " END"@
}

/// The expression that gives a class of roads its zoom level, from a table.
pub fn zoom_sql(col: &str, table: &Vec<RoadClass>, deepest: u8) -> (out: String)
    ensures
        out@ == zoom_case(col@, rules(table@), deepest),
{
    let mut arms: Vec<String> = Vec::new();
    let mut i: usize = 0;
    let ghost want = rules(table@).map_values(|c: RoadRule| zoom_arm(c.cls, c.minzoom));
    while i < table.len()
        invariant
            i <= table@.len(),
            want == rules(table@).map_values(|c: RoadRule| zoom_arm(c.cls, c.minzoom)),
            text::texts(arms@) =~= want.take(i as int),
        decreases table@.len() - i,
    {
        let ghost before = arms@;
        let mut arm: String = "WHEN '".to_owned();
        arm.push_str(table[i].cls);
        arm.push_str("' THEN ");
        text::put_decimal(&mut arm, table[i].minzoom as u64);
        let ghost shown = arm@;
        assert(shown == zoom_arm(table@[i as int]@.cls, table@[i as int]@.minzoom));
        arms.push(arm);
        assert(text::texts(arms@) =~= text::texts(before).push(shown));
        i = i + 1;
    }
    assert(want.take(i as int) =~= want);
    let mut out: String = "CASE ".to_owned();
    out.push_str(col);
    out.push_str(" ");
    let inner: String = text::join(&arms, " ");
    out.push_str(inner.as_str());
    out.push_str(" ELSE ");
    text::put_decimal(&mut out, deepest as u64);
    out.push_str(" END");
    out
}

/// Road classes with their levels pulled into the range that is baked.
pub open spec fn clamped_rules(classes: Seq<RoadRule>) -> Seq<RoadRule> {
    classes.map_values(|c: RoadRule| RoadRule { minzoom: clamped(c.minzoom), ..c })
}

/// The expression that gives a class of roads its zoom level: absolute levels,
/// pulled into the range that is baked.
pub fn road_minzoom_sql(col: &str) -> (out: String)
    ensures
        out@ == zoom_case(col@, clamped_rules(road_classes()), zooms().last()),
{
    let table: Vec<RoadClass> = road_table(11);
    let mut narrowed: Vec<RoadClass> = Vec::new();
    let mut i: usize = 0;
    while i < table.len()
        invariant
            i <= table@.len(),
            rules(table@) == road_classes(),
            rules(narrowed@) =~= clamped_rules(road_classes()).take(i as int),
        decreases table@.len() - i,
    {
        let ghost before = narrowed@;
        let row: RoadClass = RoadClass { cls: table[i].cls, tags: table[i].tags.clone(), minzoom: clamp(table[i].minzoom) };
        proof {
            assert(rules(table@)[i as int] == table@[i as int]@);
            assert(row.tags@ =~= table@[i as int].tags@);
            assert(row@ == clamped_rules(road_classes())[i as int]);
        }
        let ghost shown = row@;
        narrowed.push(row);
        assert(rules(narrowed@) =~= rules(before).push(shown));
        i = i + 1;
    }
    assert(rules(narrowed@) =~= clamped_rules(road_classes()));
    zoom_sql(col, &narrowed, maxzoom())
}

/// Which zoom level a settlement earns a label at. `$a` is its population, `$b` its
/// kind, and `$c`, `$d`, `$e` the levels of a big city, a city and any other place.
pub const PLACE_MINZOOM: &'static str = "CASE WHEN $a >= 200000 THEN $c
              WHEN $a >= 50000 OR $b = 'city' THEN $d
              ELSE $e END";

/// The expression that gives a settlement its zoom level.
pub open spec fn place_minzoom(pop: Seq<char>, kind: Seq<char>) -> Seq<char> {
    text::filled(
        PLACE_MINZOOM@,
        seq![
            pop,
            kind,
            text::decimal(clamped(10) as nat),
            text::decimal(clamped(12) as nat),
            text::decimal(clamped(14) as nat),
        ],
    )
}

/// The expression that gives a settlement its zoom level, by how many people live
/// there.
pub fn place_minzoom_sql(pop: &str, kind: &str) -> (out: String)
    ensures
        out@ == place_minzoom(pop@, kind@),
{
    let big: String = text::number(clamp(10) as u64);
    let city: String = text::number(clamp(12) as u64);
    let rest: String = text::number(clamp(14) as u64);
    let values: [&str; 5] = [pop, kind, big.as_str(), city.as_str(), rest.as_str()];
    assert(text::strs(values@) =~= seq![pop@, kind@, big@, city@, rest@]);
    text::fill(PLACE_MINZOOM, &values)
}

/// The classes of the land use layer.
pub open spec fn landuse_classes() -> Seq<Seq<char>> {
    seq!["wood"@, "farmland"@, "park"@, "urban"@]
}

/// The classes that make up the land use layer: they only give texture, so they
/// have a threshold of their own.
pub const LANDUSE_CLASSES: [&'static str; 4] = ["wood", "farmland", "park", "urban"];

/// The smallest zoom level at which an area covers enough pixels. `$a` is the
/// widest level, `$b` the classes that only give texture, `$c` how many pixels
/// those must cover, `$d` how many the others must, `$e` the size of a pixel at
/// level 0.
pub const AREA_MINZOOM: &'static str = "GREATEST($a, CAST(CEIL(LOG2(
            (CASE WHEN cls IN ($b) THEN $c ELSE $d END)
            * $e / GREATEST(SQRT(ST_Area(geom)), 1e-6)
         )) AS INTEGER))";

/// The expression that gives an area its zoom level.
pub open spec fn area_minzoom() -> Seq<char> {
    text::filled(
        AREA_MINZOOM@,
        seq![
            text::decimal(zooms()[0] as nat),
            quoted_list(landuse_classes()),
            LANDUSE_PIXELS@,
            MIN_PIXELS@,
            MPP0@,
        ],
    )
}

/// The expression that gives an area its zoom level, from its size.
pub fn area_minzoom_sql() -> (out: String)
    ensures
        out@ == area_minzoom(),
{
    let classes: [&str; 4] = LANDUSE_CLASSES;
    assert(text::strs(classes@) =~= landuse_classes());
    let texture: String = sql_list(&classes);
    let widest: String = text::number(minzoom() as u64);
    let values: [&str; 5] = [widest.as_str(), texture.as_str(), LANDUSE_PIXELS, MIN_PIXELS, MPP0];
    assert(text::strs(values@) =~= seq![widest@, texture@, LANDUSE_PIXELS@, MIN_PIXELS@, MPP0@]);
    text::fill(AREA_MINZOOM, &values)
}

/// Where a feature lies on a grid, with the bits of its column and its row
/// interleaved. `$a` is half a side of the plane and `$b` the side of a cell.
pub const CELL: &'static str = "(bit_spread(CAST(FLOOR((((min_x + max_x) / 2) + $a) / $b) AS BIGINT)) | (bit_spread(CAST(FLOOR(($a - ((min_y + max_y) / 2)) / $b) AS BIGINT)) << 1))";

/// The clustering key on a grid whose cells are `span` wide.
pub open spec fn cell_expr(span: Seq<char>) -> Seq<char> {
    text::filled(CELL@, seq![WORLD@, span])
}

/// The clustering key of a feature: near features get near keys.
pub fn cell_sql(span: &str) -> (out: String)
    ensures
        out@ == cell_expr(span@),
{
    let values: [&str; 2] = [WORLD, span];
    assert(text::strs(values@) =~= seq![WORLD@, span@]);
    text::fill(CELL, &values)
}

/// The clustering key on the tile grid of the deepest level.
pub fn cell_sql_at_maxzoom() -> (out: String)
    ensures
        out@ == cell_expr(MAXZOOM_SPAN@),
{
    cell_sql(MAXZOOM_SPAN)
}

/// The classes of areas, checked in order: the first branch that matches wins.
pub const POLY_CLASS_SQL: &'static str = "
CASE
  WHEN \"natural\" = 'water' OR water IS NOT NULL
       OR waterway IN ('riverbank', 'dock')
       OR landuse IN ('reservoir', 'basin')                     THEN 'water'
  WHEN building IS NOT NULL AND building <> 'no'                THEN 'building'
  WHEN \"natural\" IN ('wood', 'scrub', 'heath', 'grassland')
       OR landuse = 'forest'                                    THEN 'wood'
  WHEN landuse IN ('farmland', 'farmyard', 'meadow', 'orchard',
                   'vineyard', 'greenhouse_horticulture')       THEN 'farmland'
  WHEN leisure IN ('park', 'garden', 'golf_course', 'pitch')
       OR landuse IN ('grass', 'recreation_ground', 'village_green',
                      'allotments', 'cemetery')                 THEN 'park'
  WHEN landuse IN ('residential', 'commercial', 'retail',
                   'industrial', 'railway', 'quarry')           THEN 'urban'
END";

/// The layer of a class of areas.
pub const POLY_LAYER_SQL: &'static str = "
CASE cls
  WHEN 'water' THEN 'water'
  WHEN 'building' THEN 'buildings'
  ELSE 'landuse'
END";

/// Spreads the low 16 bits of a number out to every second bit.
pub const BIT_SPREAD_MACRO: &'static str = "
CREATE OR REPLACE MACRO bit_spread(v) AS (
    WITH a AS (SELECT (v & 65535)::BIGINT n),
         b AS (SELECT ((n | (n << 8)) & 16711935) n FROM a),
         c AS (SELECT ((n | (n << 4)) & 252645135) n FROM b),
         d AS (SELECT ((n | (n << 2)) & 858993459) n FROM c),
         e AS (SELECT ((n | (n << 1)) & 1431655765) n FROM d)
    SELECT n FROM e)";

/// The columns of the staging table. `natural` is a keyword, hence the quotes.
pub const RAW_DDL: &'static str = "
    \"kind\" VARCHAR, \"osm_id\" BIGINT, \"name\" VARCHAR, \"highway\" VARCHAR,
    \"waterway\" VARCHAR, \"building\" VARCHAR, \"landuse\" VARCHAR, \"natural\" VARCHAR,
    \"leisure\" VARCHAR, \"water\" VARCHAR, \"wkb\" BLOB";

/// The background stops at the level that is served in place of the deeper ones:
/// it is baked there, and at no deeper level of the ladder.
pub proof fn law_the_background_stops(layer: Seq<char>, i: int)
    requires
        0 <= i < zooms().len(),
        background(layer),
    ensures
        baked(layer, zooms()[i]) <==> zooms()[i] <= 12,
{
}

/// A layer that is no background is baked at every level.
pub proof fn law_other_layers_never_stop(layer: Seq<char>, z: u8)
    requires
        !background(layer),
    ensures
        baked(layer, z),
{
}

proof fn lemma_layer_names()
    ensures
        "land"@.len() == 4,
        "landuse"@.len() == 7,
        "water"@.len() == 5,
        "roads"@.len() == 5,
        "buildings"@.len() == 9,
        "places"@.len() == 6,
        "water"@ != "roads"@,
{
    reveal_strlit("land");
    reveal_strlit("landuse");
    reveal_strlit("water");
    reveal_strlit("roads");
    reveal_strlit("buildings");
    reveal_strlit("places");
    assert("water"@[0] != "roads"@[0]);
}

/// **The place of a layer is its place in the list of layers**, and a layer of another
/// name comes after all of them.
pub proof fn law_layers_are_drawn_in_their_order(layer: Seq<char>)
    ensures
        forall|i: int| 0 <= i < layers().len() ==> draw_order(#[trigger] layers()[i]) == i,
        !layers().contains(layer) ==> draw_order(layer) == layers().len(),
{
    lemma_layer_names();
    if !layers().contains(layer) {
        assert(layers()[0] == "land"@ && layers()[1] == "landuse"@ && layers()[2] == "water"@);
        assert(layers()[3] == "roads"@ && layers()[4] == "buildings"@ && layers()[5] == "places"@);
    }
}

/// **Labels go over buildings, buildings over roads, roads over water, water over land
/// use, and land use over land**; whatever has another name goes over them all.
pub proof fn law_labels_go_over_everything(other: Seq<char>)
    ensures
        draw_order("land"@) < draw_order("landuse"@),
        draw_order("landuse"@) < draw_order("water"@),
        draw_order("water"@) < draw_order("roads"@),
        draw_order("roads"@) < draw_order("buildings"@),
        draw_order("buildings"@) < draw_order("places"@),
        other != "land"@ && other != "landuse"@ && other != "water"@ && other != "roads"@ && other != "buildings"@
            && other != "places"@ ==> draw_order("places"@) < draw_order(other),
        layers() == seq!["land"@, "landuse"@, "water"@, "roads"@, "buildings"@, "places"@],
{
    lemma_layer_names();
}

/// **What covers the whole map, and what is made of areas**: land and land use do and are,
/// water and buildings are, and nothing else.
pub proof fn law_which_layers_are_areas(layer: Seq<char>)
    ensures
        background("land"@) && background("landuse"@),
        areal("land"@) && areal("landuse"@) && areal("water"@) && areal("buildings"@),
        !areal("roads"@) && !areal("places"@) && !background("water"@) && !background("buildings"@),
        background(layer) ==> areal(layer),
        areal(layer) ==> layers().contains(layer),
{
    lemma_layer_names();
    assert(layers()[0] == "land"@ && layers()[1] == "landuse"@ && layers()[2] == "water"@);
    assert(layers()[4] == "buildings"@);
}

/// **A level is pulled to the nearest that is baked at all**, and one between the widest
/// and the deepest stays.
pub proof fn law_levels_are_pulled_to_the_nearest(z: u8, other: u8)
    requires
        zooms()[0] <= other <= zooms()[3],
    ensures
        zooms()[0] <= clamped(z) <= zooms()[3],
        zooms()[0] <= z <= zooms()[3] ==> clamped(z) == z,
        z <= other ==> clamped(z) <= other,
        z >= other ==> clamped(z) >= other,
{
}

} // verus!
