//! Baking features into tiles: which bands of tile columns a level is baked in,
//! the statement that bakes one band, and where an interrupted bake goes on.

use crate::text;
use crate::tuning;
use vstd::arithmetic::power2::lemma2_to64;
use vstd::arithmetic::power2::lemma_pow2_adds;
use vstd::arithmetic::power2::lemma_pow2_pos;
use vstd::arithmetic::power2::lemma_pow2_strictly_increases;
use vstd::arithmetic::power2::pow2;
use vstd::prelude::*;

verus! {

/// A level is baked in bands that each carry about as much of the grid as a whole
/// level of this depth would.
pub const BAKE_BUDGET: u8 = 11;

/// How many levels `z` lies below the budget.
pub open spec fn depth(z: u8, budget: u8) -> nat {
    if z > budget {
        (z - budget) as nat
    } else {
        0
    }
}

/// How many bands a level has: four times as many with each level past the budget.
pub open spec fn slices(z: u8, budget: u8) -> nat {
    pow2(2 * depth(z, budget))
}

/// How many tile columns a band has.
pub open spec fn columns(z: u8, budget: u8) -> nat {
    pow2(z as nat) / slices(z, budget)
}

/// The bands of a level, as ranges of tile columns.
pub open spec fn bands_of(z: u8, budget: u8) -> Seq<(u64, u64)> {
    Seq::new(
        slices(z, budget),
        |s: int| ((s * columns(z, budget)) as u64, ((s + 1) * columns(z, budget)) as u64),
    )
}

fn power(e: u8) -> (r: u64)
    requires
        e < 64,
    ensures
        r == pow2(e as nat),
        r > 0,
{
    proof {
        lemma2_to64();
        lemma_pow2_strictly_increases(e as nat, 64);
        lemma_pow2_pos(e as nat);
        vstd::bits::lemma_u64_shl_is_mul(1, e as u64);
    }
    1u64 << (e as u64)
}

/// The ranges of tile columns to process one band at a time.
pub fn bands(z: u8, budget: u8) -> (out: Vec<(u64, u64)>)
    requires
        z < 64,
        depth(z, budget) < 32,
    ensures
        out@ == bands_of(z, budget),
{
    let deep: u8 = if z > budget {
        z - budget
    } else {
        0
    };
    let n: u64 = power(2 * deep);
    let side: u64 = power(z);
    let cols: u64 = side / n;
    assert(cols * n <= side) by (nonlinear_arith)
        requires
            cols == side / n,
            n > 0,
            side >= 0,
    ;
    let mut out: Vec<(u64, u64)> = Vec::new();
    let mut s: u64 = 0;
    let mut lo: u64 = 0;
    while s < n
        invariant
            s <= n,
            n == slices(z, budget),
            cols == columns(z, budget),
            cols * n <= side,
            lo == s * cols,
            out@ =~= bands_of(z, budget).take(s as int),
        decreases n - s,
    {
        assert((s + 1) * cols == s * cols + cols) by (nonlinear_arith);
        assert((s + 1) * cols <= cols * n) by (nonlinear_arith)
            requires
                s + 1 <= n,
                cols >= 0,
        ;
        let hi: u64 = lo + cols;
        out.push((lo, hi));
        lo = hi;
        s = s + 1;
    }
    assert(bands_of(z, budget).take(s as int) =~= bands_of(z, budget));
    out
}

/// The bands of a level cover its columns from the first to the last, each one
/// starting where the one before it ends, wherever a band has a column at all.
pub proof fn law_bands_cover_the_level(z: u8, budget: u8)
    requires
        z < 64,
        2 * depth(z, budget) <= z,
    ensures
        bands_of(z, budget).len() > 0,
        bands_of(z, budget)[0].0 == 0,
        bands_of(z, budget).last().1 == pow2(z as nat),
        forall|i: int|
            0 <= i < bands_of(z, budget).len() ==> (#[trigger] bands_of(z, budget)[i]).0 < bands_of(z, budget)[i].1,
        forall|i: int, j: int|
            0 <= i && j == i + 1 && j < bands_of(z, budget).len() ==> (#[trigger] bands_of(z, budget)[i]).1 == (
            #[trigger] bands_of(z, budget)[j]).0,
{
    let n = slices(z, budget);
    let c = columns(z, budget);
    let e = (2 * depth(z, budget)) as nat;
    let rest = (z - e) as nat;
    lemma_pow2_pos(e);
    lemma_pow2_pos(rest);
    lemma_pow2_pos(z as nat);
    lemma_pow2_adds(e, rest);
    lemma2_to64();
    lemma_pow2_strictly_increases(z as nat, 64);
    vstd::arithmetic::div_mod::lemma_div_multiples_vanish(pow2(rest) as int, n as int);
    assert(c == pow2(rest));
    assert(n * c == pow2(z as nat));
    assert forall|i: int| 0 <= i < n implies (#[trigger] bands_of(z, budget)[i]).0 == i * c && bands_of(z, budget)[i].1
        == (i + 1) * c && i * c < (i + 1) * c by {
        assert(0 <= i * c < (i + 1) * c <= n * c) by (nonlinear_arith)
            requires
                0 <= i < n,
                c > 0,
        ;
    }
    assert(((n - 1) + 1) * c == n * c) by (nonlinear_arith);
    assert(bands_of(z, budget).last() == bands_of(z, budget)[n - 1]);
    assert(0 * c == 0) by (nonlinear_arith);
}

/// Among the first `n` bands, those that can hold something, each with its index
/// among all of them.
pub open spec fn live(all: Seq<(u64, u64)>, holds: Seq<bool>, n: nat) -> Seq<(usize, u64, u64)>
    decreases n,
{
    if n == 0 {
        Seq::empty()
    } else if holds[n - 1] {
        live(all, holds, (n - 1) as nat).push(((n - 1) as usize, all[n - 1].0, all[n - 1].1))
    } else {
        live(all, holds, (n - 1) as nat)
    }
}

/// The bands that can hold something: `holds` says of each band whether it overlaps
/// the data.
pub fn live_bands(all: &Vec<(u64, u64)>, holds: &Vec<bool>) -> (out: Vec<(usize, u64, u64)>)
    requires
        holds@.len() == all@.len(),
    ensures
        out@ == live(all@, holds@, all@.len()),
{
    let mut out: Vec<(usize, u64, u64)> = Vec::new();
    let mut i: usize = 0;
    while i < all.len()
        invariant
            i <= all@.len(),
            holds@.len() == all@.len(),
            out@ == live(all@, holds@, i as nat),
        decreases all@.len() - i,
    {
        if holds[i] {
            out.push((i, all[i].0, all[i].1));
        }
        i = i + 1;
    }
    out
}

/// The numbers with a fraction that a band's statement holds, as a query writes
/// them: the side of a tile, the size of a pixel, and the edges of the band.
pub struct BandNumbers<'a> {
    pub tile_span: &'a str,
    pub tolerance: &'a str,
    pub min_x: &'a str,
    pub max_x: &'a str,
}

/// The box of a tile. `$a` is half a side of the plane and `$b` the side of a tile.
pub const TILE_BOX: &'static str = "{'min_x': -$a + x * $b,
           'min_y': $a - (y + 1) * $b,
           'max_x': -$a + (x + 1) * $b,
           'max_y': $a - y * $b}::BOX_2D";

/// What mends the rings that simplifying breaks.
pub const REPAIR: &'static str = "CASE WHEN ST_IsValid(geom) THEN geom
              ELSE ST_CollectionExtract(ST_MakeValid(geom), 3) END";

/// The statement that bakes one band of one layer: `$a` takes the tiles, `$h` is the
/// layer and `$i` the level; `$f` and `$g` are the first and the last column, `$j`
/// and `$k` the edges of the band; `$d` is half a side of the plane, `$e` the side
/// of a tile and `$m` its box; `$c` simplifies a geometry and `$l` mends it; `$n`
/// and `$o` are a tile's grid and overlap; `$b` and `$p` carry the name along.
pub const BAND: &'static str = "
        INSERT INTO $a
        WITH candidates AS (
            -- Which tiles can this feature touch? Pure bbox arithmetic, so no
            -- spatial join and no index is needed. The clamps pin boundary
            -- features to this band's columns, so a feature overlapping two
            -- bands never emits the same tile twice.
            SELECT cls$b, $c AS geom,
                   GREATEST(CAST(FLOOR((min_x + $d) / $e) AS INTEGER), $f) AS x0,
                   LEAST(CAST(FLOOR((max_x + $d) / $e) AS INTEGER), $g) AS x1,
                   CAST(FLOOR(($d - max_y) / $e) AS INTEGER) AS y0,
                   CAST(FLOOR(($d - min_y) / $e) AS INTEGER) AS y1
            FROM features
            WHERE layer = '$h' AND minzoom <= $i
              AND max_x >= $j AND min_x < $k
        ), repaired AS (
            SELECT cls$b, $l AS geom, x0, x1, y0, y1 FROM candidates
        ), exploded AS (
            SELECT cls$b, geom, x, y
            FROM repaired,
                 UNNEST(range(x0, x1 + 1)) AS _x(x),
                 UNNEST(range(y0, y1 + 1)) AS _y(y)
        ), clipped AS (
            SELECT x, y, cls$b,
                   ST_AsMVTGeom(geom, $m, $n, $o, true) AS g
            FROM exploded
        )
        -- `cls` is all the styling needs, and for every layer but the label one
        -- it is the only attribute a tile carries: names on every feature
        -- inflate a tile by roughly 40% to write text nothing draws.
        SELECT $i, x, y, '$h',
               ST_AsMVT({geom: g, cls: cls$p}, '$h', $n, 'geom')
        FROM clipped
        WHERE g IS NOT NULL AND NOT ST_IsEmpty(g)
        GROUP BY x, y
        ";

/// How a layer's geometry is simplified to about a pixel.
pub open spec fn simplified(layer: Seq<char>, tolerance: Seq<char>) -> Seq<char> {
    (if tuning::areal(layer) {
        "ST_SimplifyPreserveTopology(geom, "@
    } else {
        "ST_Simplify(geom, "@
    }) + tolerance + ")"@
}

/// The statement that bakes the columns from `lo` up to `hi` of a layer at a level.
pub open spec fn band_statement(
    z: u8,
    layer: Seq<char>,
    lo: u64,
    hi: u64,
    into: Seq<char>,
    numbers: BandNumbers<'_>,
) -> Seq<char> {
    let named = layer == tuning::NAMED_LAYER@;
    text::filled(
        BAND@,
        seq![
            into,
            if named { ", name"@ } else { ""@ },
            simplified(layer, numbers.tolerance@),
            tuning::WORLD@,
            numbers.tile_span@,
            text::decimal(lo as nat),
            text::decimal((hi - 1) as nat),
            layer,
            text::decimal(z as nat),
            numbers.min_x@,
            numbers.max_x@,
            if tuning::areal(layer) { REPAIR@ } else { "geom"@ },
            text::filled(TILE_BOX@, seq![tuning::WORLD@, numbers.tile_span@]),
            text::decimal(tuning::EXTENT as nat),
            text::decimal(tuning::BUFFER as nat),
            if named { ", name: name"@ } else { ""@ },
        ],
    )
}

/// The statement that bakes one band. Areas are simplified with their topology kept
/// and then repaired, for a broken ring would stop the whole bake; lines cannot
/// break. Only the layer of labels carries names.
pub fn band_sql(z: u8, layer: &str, lo: u64, hi: u64, into: &str, numbers: &BandNumbers<'_>) -> (out: String)
    requires
        hi > 0,
    ensures
        out@ == band_statement(z, layer@, lo, hi, into@, *numbers),
{
    let areal: bool = tuning::is_area(layer);
    let named: bool = text::same(layer, tuning::NAMED_LAYER);
    let mut simplify: String = (if areal {
        "ST_SimplifyPreserveTopology(geom, "
    } else {
        "ST_Simplify(geom, "
    }).to_owned();
    simplify.push_str(numbers.tolerance);
    simplify.push_str(")");
    let corners: [&str; 2] = [tuning::WORLD, numbers.tile_span];
    assert(text::strs(corners@) =~= seq![tuning::WORLD@, numbers.tile_span@]);
    let tile_box: String = text::fill(TILE_BOX, &corners);
    let first: String = text::number(lo);
    let last: String = text::number(hi - 1);
    let level: String = text::number(z as u64);
    let extent: String = text::number(tuning::EXTENT as u64);
    let buffer: String = text::number(tuning::BUFFER as u64);
    let name_column: &str = if named {
        ", name"
    } else {
        ""
    };
    let repair: &str = if areal {
        REPAIR
    } else {
        "geom"
    };
    let name_field: &str = if named {
        ", name: name"
    } else {
        ""
    };
    let values: [&str; 16] = [
        into,
        name_column,
        simplify.as_str(),
        tuning::WORLD,
        numbers.tile_span,
        first.as_str(),
        last.as_str(),
        layer,
        level.as_str(),
        numbers.min_x,
        numbers.max_x,
        repair,
        tile_box.as_str(),
        extent.as_str(),
        buffer.as_str(),
        name_field,
    ];
    proof {
        let named = layer@ == tuning::NAMED_LAYER@;
        assert(text::strs(values@) =~= seq![
            into@,
            if named { ", name"@ } else { ""@ },
            simplified(layer@, numbers.tolerance@),
            tuning::WORLD@,
            numbers.tile_span@,
            text::decimal(lo as nat),
            text::decimal((hi - 1) as nat),
            layer@,
            text::decimal(z as nat),
            numbers.min_x@,
            numbers.max_x@,
            if tuning::areal(layer@) { REPAIR@ } else { "geom"@ },
            text::filled(TILE_BOX@, seq![tuning::WORLD@, numbers.tile_span@]),
            text::decimal(tuning::EXTENT as nat),
            text::decimal(tuning::BUFFER as nat),
            if named { ", name: name"@ } else { ""@ },
        ]);
    }
    text::fill(BAND, &values)
}

/// Whether a bake goes on after the last level that was finished: it does where
/// that level is one of this ladder's depth.
pub open spec fn goes_on(done: Option<u8>) -> bool {
    match done {
        Some(z) => z >= tuning::zooms()[0],
        None => false,
    }
}

/// The levels that are left to bake.
pub open spec fn left_to_bake(done: Option<u8>) -> Seq<u8> {
    if goes_on(done) {
        tuning::zooms().filter(|z: u8| z > done->0)
    } else {
        tuning::zooms()
    }
}

/// Where a bake starts, given the deepest level that an earlier run finished:
/// whether it goes on from there, and the levels that are left.
pub fn resume(done: Option<u8>) -> (r: (bool, Vec<u8>))
    ensures
        r.0 == goes_on(done),
        r.1@ == left_to_bake(done),
{
    let ladder: [u8; 4] = tuning::ZOOMS;
    let (going, last): (bool, u8) = match done {
        Some(z) => (z >= tuning::minzoom(), z),
        None => (false, 0),
    };
    let mut out: Vec<u8> = Vec::new();
    let mut i: usize = 0;
    let ghost deeper = |z: u8| z > last;
    proof {
        reveal(Seq::filter);
        assert(ladder@ =~= tuning::zooms());
        assert(tuning::zooms().take(0) =~= Seq::<u8>::empty());
    }
    while i < 4
        invariant
            i <= 4,
            ladder@ =~= tuning::zooms(),
            going == goes_on(done),
            going ==> done == Some(last),
            deeper == (|z: u8| z > last),
            going ==> out@ =~= tuning::zooms().take(i as int).filter(deeper),
            !going ==> out@ =~= tuning::zooms().take(i as int),
        decreases 4 - i,
    {
        proof {
            reveal(Seq::filter);
            assert(tuning::zooms().take(i + 1).drop_last() =~= tuning::zooms().take(i as int));
            assert(tuning::zooms().take(i + 1).last() == tuning::zooms()[i as int]);
        }
        if !going || ladder[i] > last {
            out.push(ladder[i]);
        }
        i = i + 1;
    }
    assert(tuning::zooms().take(4) =~= tuning::zooms());
    (going, out)
}

/// Begins a bake from nothing: what an earlier run left describes other features.
pub const START_OVER: &'static str = "DROP TABLE IF EXISTS tile_layers;
             DROP TABLE IF EXISTS tiles;
             DROP TABLE IF EXISTS merge_done;
             CREATE TABLE tile_layers
                 (z UTINYINT, x UINTEGER, y UINTEGER, layer VARCHAR, data BLOB);
             CREATE OR REPLACE TABLE bake_done (z UTINYINT)";

/// Ends a bake: the tiles are what is delivered, and they are found by their layer.
pub const FINISH: &'static str = "DROP TABLE IF EXISTS tiles;
         DROP TABLE IF EXISTS merge_done;
         DROP TABLE bake_done;
         CREATE INDEX IF NOT EXISTS tile_layers_lzxy ON tile_layers (layer, z, x, y);
         CHECKPOINT";

/// The extent of the data in degrees.
pub const BOUNDS: &'static str = "
        DROP TABLE IF EXISTS meta;
        CREATE TABLE meta AS
        WITH b AS (
            SELECT ST_Transform(ST_Extent_Agg(geom)::GEOMETRY,
                                'EPSG:3857', 'EPSG:4326', always_xy := true) AS g
            FROM features
        )
        SELECT ST_XMin(g) AS west, ST_YMin(g) AS south,
               ST_XMax(g) AS east, ST_YMax(g) AS north
        FROM b
        ";

/// The statement that a bake starts with. One that goes on drops what belongs to no
/// finished level, for that may be half of one.
pub open spec fn start_text(done: Option<u8>) -> Seq<char> {
    if goes_on(done) {
        "DELETE FROM tile_layers WHERE z > "@ + text::decimal(done->0 as nat)
    } else {
        START_OVER@
    }
}

/// The statement that a bake starts with.
pub fn start_sql(done: Option<u8>) -> (out: String)
    ensures
        out@ == start_text(done),
{
    match done {
        Some(z) => {
            if z >= tuning::minzoom() {
                let mut out: String = "DELETE FROM tile_layers WHERE z > ".to_owned();
                text::put_decimal(&mut out, z as u64);
                return out;
            }
            START_OVER.to_owned()
        },
        None => START_OVER.to_owned(),
    }
}

/// The statement that marks a level as finished.
pub fn finished_sql(z: u8) -> (out: String)
    ensures
        out@ == "INSERT INTO bake_done VALUES ("@ + text::decimal(z as nat) + ")"@,
{
    let mut out: String = "INSERT INTO bake_done VALUES (".to_owned();
    text::put_decimal(&mut out, z as u64);
    out.push_str(")");
    out
}

/// The layers that are baked at a level, in draw order.
pub open spec fn layers_at(z: u8, n: nat) -> Seq<Seq<char>>
    decreases n,
{
    if n == 0 {
        Seq::empty()
    } else if tuning::baked(tuning::layers()[n - 1], z) {
        layers_at(z, (n - 1) as nat).push(tuning::layers()[n - 1])
    } else {
        layers_at(z, (n - 1) as nat)
    }
}

/// The layers that are baked at a level, in draw order.
pub fn baked_layers(z: u8) -> (out: Vec<&'static str>)
    ensures
        text::strs(out@) == layers_at(z, 6),
{
    let names: [&'static str; 6] = tuning::LAYERS;
    let mut out: Vec<&'static str> = Vec::new();
    let mut i: usize = 0;
    assert(text::strs(out@) =~= layers_at(z, 0));
    assert(text::strs(names@) =~= tuning::layers());
    while i < 6
        invariant
            i <= 6,
            text::strs(names@) == tuning::layers(),
            text::strs(out@) == layers_at(z, i as nat),
        decreases 6 - i,
    {
        let ghost before = out@;
        assert(names@[i as int]@ == text::strs(names@)[i as int]);
        if tuning::bakes(names[i], z) {
            out.push(names[i]);
            assert(text::strs(out@) =~= text::strs(before).push(names@[i as int]@));
        }
        i = i + 1;
    }
    out
}

/// One band of one layer to bake: which of how many it is, and its columns.
#[derive(Clone, Copy, Debug)]
pub struct Job {
    pub layer: &'static str,
    pub band: usize,
    pub lo: u64,
    pub hi: u64,
}

/// A job as plain values.
pub open spec fn job_of(job: Job) -> (Seq<char>, usize, u64, u64) {
    (job.layer@, job.band, job.lo, job.hi)
}

/// Jobs as plain values.
pub open spec fn jobs_of(jobs: Seq<Job>) -> Seq<(Seq<char>, usize, u64, u64)> {
    jobs.map_values(|j: Job| job_of(j))
}

/// The jobs of one layer: its bands in order.
pub open spec fn layer_jobs(layer: Seq<char>, live: Seq<(usize, u64, u64)>) -> Seq<(Seq<char>, usize, u64, u64)> {
    Seq::new(live.len(), |i: int| (layer, i as usize, live[i].1, live[i].2))
}

/// The jobs of the first `n` of some layers, one layer after the other.
pub open spec fn plan_of(layers: Seq<Seq<char>>, live: Seq<(usize, u64, u64)>, n: nat) -> Seq<
    (Seq<char>, usize, u64, u64),
>
    decreases n,
{
    if n == 0 {
        Seq::empty()
    } else {
        plan_of(layers, live, (n - 1) as nat) + layer_jobs(layers[n - 1], live)
    }
}

/// Everything there is to bake at a level: each layer that is baked there, in draw
/// order, and of each layer every band that can hold something.
pub fn plan(z: u8, live: &Vec<(usize, u64, u64)>) -> (out: Vec<Job>)
    ensures
        jobs_of(out@) == plan_of(layers_at(z, 6), live@, layers_at(z, 6).len()),
{
    let layers: Vec<&'static str> = baked_layers(z);
    let mut out: Vec<Job> = Vec::new();
    let mut n: usize = 0;
    let ghost names = layers_at(z, 6);
    assert(jobs_of(out@) =~= plan_of(names, live@, 0));
    while n < layers.len()
        invariant
            n <= layers@.len(),
            names == text::strs(layers@),
            jobs_of(out@) == plan_of(names, live@, n as nat),
        decreases layers@.len() - n,
    {
        let layer: &'static str = layers[n];
        let ghost before = jobs_of(out@);
        let mut i: usize = 0;
        assert(names[n as int] == layer@);
        assert(jobs_of(out@) =~= before + layer_jobs(layer@, live@).take(0));
        while i < live.len()
            invariant
                i <= live@.len(),
                jobs_of(out@) == before + layer_jobs(layer@, live@).take(i as int),
            decreases live@.len() - i,
        {
            let ghost so_far = jobs_of(out@);
            let job: Job = Job { layer, band: i, lo: live[i].1, hi: live[i].2 };
            out.push(job);
            assert(jobs_of(out@) =~= so_far.push(job_of(job)));
            assert(jobs_of(out@) =~= before + layer_jobs(layer@, live@).take(i + 1));
            i = i + 1;
        }
        assert(layer_jobs(layer@, live@).take(i as int) =~= layer_jobs(layer@, live@));
        n = n + 1;
    }
    out
}

/// The layers that cover the whole map, in draw order.
pub fn background_layers() -> (out: Vec<&'static str>)
    ensures
        text::strs(out@) == tuning::layers().filter(|l: Seq<char>| tuning::background(l)),
{
    let names: [&'static str; 6] = tuning::LAYERS;
    let mut out: Vec<&'static str> = Vec::new();
    let mut i: usize = 0;
    let ghost wanted = |l: Seq<char>| tuning::background(l);
    proof {
        reveal(Seq::filter);
        assert(tuning::layers().take(0) =~= Seq::<Seq<char>>::empty());
        assert(text::strs(out@) =~= tuning::layers().take(0).filter(wanted));
        assert(text::strs(names@) =~= tuning::layers());
    }
    while i < 6
        invariant
            i <= 6,
            text::strs(names@) == tuning::layers(),
            wanted == (|l: Seq<char>| tuning::background(l)),
            text::strs(out@) == tuning::layers().take(i as int).filter(wanted),
        decreases 6 - i,
    {
        let ghost before = out@;
        proof {
            reveal(Seq::filter);
            assert(names@[i as int]@ == text::strs(names@)[i as int]);
            assert(tuning::layers().take(i + 1).drop_last() =~= tuning::layers().take(i as int));
            assert(tuning::layers().take(i + 1).last() == tuning::layers()[i as int]);
        }
        if tuning::is_background(names[i]) {
            out.push(names[i]);
            assert(text::strs(out@) =~= text::strs(before).push(names@[i as int]@));
        }
        i = i + 1;
    }
    assert(tuning::layers().take(6) =~= tuning::layers());
    out
}

/// A bake that was interrupted does what is left and nothing twice: together with
/// the finished levels, what is left is the whole ladder.
pub proof fn law_a_bake_resumes(done: u8, i: int)
    requires
        0 <= i < tuning::zooms().len(),
        done >= tuning::zooms()[0],
    ensures
        left_to_bake(Some(done)).contains(tuning::zooms()[i]) <==> tuning::zooms()[i] > done,
{
    if tuning::zooms()[i] > done {
        tuning::zooms().lemma_filter_contains(|z: u8| z > done, i);
    }
    if left_to_bake(Some(done)).contains(tuning::zooms()[i]) {
        tuning::zooms().lemma_filter_pred(
            |z: u8| z > done,
            left_to_bake(Some(done)).index_of(tuning::zooms()[i]),
        );
    }
}

/// **Each level past the budget has four times the bands of the one above it**, and down
/// to the budget a level is one band.
pub proof fn law_bands_multiply_by_four(z: u8, budget: u8)
    requires
        z < 255,
    ensures
        z <= budget ==> slices(z, budget) == 1,
        z >= budget ==> slices((z + 1) as u8, budget) == 4 * slices(z, budget),
{
    lemma2_to64();
    if z >= budget {
        let d = depth(z, budget);
        assert(depth((z + 1) as u8, budget) == d + 1);
        lemma_pow2_adds(2 * d, 2);
    }
}

proof fn lemma_live(all: Seq<(u64, u64)>, holds: Seq<bool>, n: nat)
    requires
        n <= all.len() <= usize::MAX,
    ensures
        live(all, holds, n) == Seq::new(n, |i: int| i).filter(|i: int| holds[i]).map_values(
            |i: int| (i as usize, all[i].0, all[i].1),
        ),
    decreases n,
{
    reveal(Seq::filter);
    let picks = |i: int| holds[i];
    let gives = |i: int| (i as usize, all[i].0, all[i].1);
    let places = Seq::new(n, |i: int| i);
    if n == 0 {
        assert(live(all, holds, n) =~= places.filter(picks).map_values(gives));
    } else {
        let m = (n - 1) as nat;
        lemma_live(all, holds, m);
        let before = Seq::new(m, |i: int| i);
        assert(places.drop_last() =~= before);
        assert(places.last() == n - 1);
        if holds[n - 1] {
            assert(places.filter(picks).map_values(gives) =~= before.filter(picks).map_values(gives).push(gives(n - 1)));
        } else {
            assert(places.filter(picks) == before.filter(picks));
        }
    }
}

/// **Every band that can hold something is baked, and no other**, each under its number
/// among all of them and with its own columns.
pub proof fn law_every_band_with_data_is_baked(all: Seq<(u64, u64)>, holds: Seq<bool>)
    requires
        all.len() <= usize::MAX,
    ensures
        live(all, holds, all.len()) == Seq::new(all.len(), |i: int| i).filter(|i: int| holds[i]).map_values(
            |i: int| (i as usize, all[i].0, all[i].1),
        ),
{
    lemma_live(all, holds, all.len());
}

proof fn lemma_layers_at(z: u8, n: nat)
    requires
        n <= 6,
    ensures
        layers_at(z, n) == tuning::layers().take(n as int).filter(
            |l: Seq<char>| (l != "land"@ && l != "landuse"@) || z <= 12,
        ),
    decreases n,
{
    reveal(Seq::filter);
    let front = tuning::layers().take(n as int);
    if n == 0 {
        assert(layers_at(z, n) =~= front.filter(|l: Seq<char>| (l != "land"@ && l != "landuse"@) || z <= 12));
    } else {
        lemma_layers_at(z, (n - 1) as nat);
        assert(front.drop_last() =~= tuning::layers().take(n - 1));
        assert(front.last() == tuning::layers()[n - 1]);
    }
}

/// **At every level all layers are baked in their order**, but for land and land use
/// past level 12.
pub proof fn law_which_layers_a_level_has(z: u8)
    ensures
        layers_at(z, 6) == tuning::layers().filter(
            |l: Seq<char>| (l != "land"@ && l != "landuse"@) || z <= 12,
        ),
{
    lemma_layers_at(z, 6);
    assert(tuning::layers().take(6) =~= tuning::layers());
}

proof fn lemma_plan(layers: Seq<Seq<char>>, live: Seq<(usize, u64, u64)>, n: nat, l: int, b: int)
    requires
        n <= layers.len(),
        live.len() <= usize::MAX,
    ensures
        plan_of(layers, live, n).len() == n * live.len(),
        0 <= l < n && 0 <= b < live.len() ==> 0 <= l * live.len() + b < n * live.len() && plan_of(layers, live, n)[l
            * live.len() + b] == (layers[l], b as usize, live[b].1, live[b].2),
    decreases n,
{
    if n > 0 {
        let m = (n - 1) as nat;
        lemma_plan(layers, live, m, l, b);
        assert(n * live.len() == m * live.len() + live.len()) by (nonlinear_arith)
            requires
                n == m + 1,
        ;
        if 0 <= l < n && 0 <= b < live.len() {
            assert(0 <= l * live.len()) by (nonlinear_arith)
                requires
                    0 <= l,
            ;
            if l == m {
                assert(plan_of(layers, live, n)[m * live.len() + b] == layer_jobs(layers[m as int], live)[b]);
            }
        }
    }
}

/// **Every layer has all its bands baked, one layer after the other**: with so many bands
/// to a layer, the jobs of the `l`-th layer stand behind those of the layers before it,
/// in the order of the bands, and each has the columns of its band.
pub proof fn law_every_band_of_every_layer_is_a_job(layers: Seq<Seq<char>>, live: Seq<(usize, u64, u64)>, l: int, b: int)
    requires
        live.len() <= usize::MAX,
        0 <= l < layers.len(),
        0 <= b < live.len(),
    ensures
        plan_of(layers, live, layers.len()).len() == layers.len() * live.len(),
        0 <= l * live.len() + b < plan_of(layers, live, layers.len()).len(),
        plan_of(layers, live, layers.len())[l * live.len() + b] == (layers[l], b as usize, live[b].1, live[b].2),
{
    lemma_plan(layers, live, layers.len(), l, b);
}

/// **A bake starts over unless a level of this ladder was finished**, and then it has all
/// levels ahead of it.
pub proof fn law_a_bake_starts_over_from_nothing(done: u8)
    ensures
        left_to_bake(None) == tuning::zooms(),
        start_text(None) == START_OVER@,
        done < tuning::zooms()[0] ==> left_to_bake(Some(done)) == tuning::zooms() && start_text(Some(done))
            == START_OVER@,
        done >= tuning::zooms()[0] ==> left_to_bake(Some(done)) == tuning::zooms().filter(|z: u8| z > done) && start_text(
            Some(done),
        ) == "DELETE FROM tile_layers WHERE z > "@ + text::decimal(done as nat),
{
}

} // verus!
