//! Where a build has got to: the lines that say what is there.

use crate::builds;
use crate::config;
use crate::progress;
use crate::text;
use crate::tuning;
use vstd::prelude::*;

verus! {

/// The ending of a word that counts `n` things.
pub open spec fn plural(n: nat) -> Seq<char> {
    if n == 1 {
        ""@
    } else {
        "s"@
    }
}

/// The ending of a word that counts `n` things.
pub fn plural_of(n: usize) -> (out: &'static str)
    ensures
        out@ == plural(n as nat),
{
    if n == 1 {
        ""
    } else {
        "s"
    }
}

/// How many extracts there are, how large they are, and whether the coastline is
/// there too.
pub fn extract_line(count: usize, bytes: u64, coastline: bool) -> (out: String)
    ensures
        out@ == "       "@ + text::decimal(count as nat) + " extract"@ + plural(count as nat) + ", "@ + progress::size(
            bytes as nat,
        ) + (if coastline {
            " + coastline"@
        } else {
            " (no coastline yet)"@
        }),
{
    let mut out: String = "       ".to_owned();
    text::put_decimal(&mut out, count as u64);
    out.push_str(" extract");
    out.push_str(plural_of(count));
    out.push_str(", ");
    let size: String = progress::bytes(bytes);
    out.push_str(size.as_str());
    out.push_str(if coastline {
        " + coastline"
    } else {
        " (no coastline yet)"
    });
    out
}

/// The end of the row that starts at a name.
pub open spec fn row_end(from: int, n: int) -> int {
    if from + 6 < n {
        from + 6
    } else {
        n
    }
}

/// Names, six to a row.
pub open spec fn name_rows_of(names: Seq<Seq<char>>, from: int) -> Seq<Seq<char>>
    decreases names.len() + 6 - from,
{
    if from >= names.len() {
        Seq::empty()
    } else {
        seq!["       "@ + text::joined(names.subrange(from, row_end(from, names.len() as int)), " "@)] + name_rows_of(
            names,
            from + 6,
        )
    }
}

/// Lays names out, six to a row.
pub fn name_rows(names: &Vec<String>) -> (out: Vec<String>)
    ensures
        text::texts(out@) == name_rows_of(text::texts(names@), 0),
{
    let mut out: Vec<String> = Vec::new();
    let mut from: usize = 0;
    let ghost all = text::texts(names@);
    assert(text::texts(out@) + name_rows_of(all, 0) =~= name_rows_of(all, 0));
    while from < names.len()
        invariant
            from <= names@.len(),
            all == text::texts(names@),
            text::texts(out@) + name_rows_of(all, from as int) == name_rows_of(all, 0),
        decreases names@.len() - from,
    {
        let last: usize = if names.len() - from > 6 {
            from + 6
        } else {
            names.len()
        };
        let mut part: Vec<String> = Vec::new();
        let mut i: usize = from;
        while i < last
            invariant
                from <= i <= last <= names@.len(),
                all == text::texts(names@),
                text::texts(part@) =~= all.subrange(from as int, i as int),
            decreases last - i,
        {
            let ghost before = text::texts(part@);
            part.push(names[i].clone());
            assert(text::texts(part@) =~= before.push(names@[i as int]@));
            i = i + 1;
        }
        let mut row: String = "       ".to_owned();
        let list: String = text::join(&part, " ");
        row.push_str(list.as_str());
        let ghost shown = row@;
        let ghost before = text::texts(out@);
        out.push(row);
        proof {
            assert(last == row_end(from as int, all.len() as int));
            assert(text::texts(out@) =~= before.push(shown));
            assert(name_rows_of(all, from as int) =~= seq![shown] + name_rows_of(all, from + 6));
            if from + 6 > all.len() {
                assert(name_rows_of(all, from + 6) =~= Seq::empty());
                assert(name_rows_of(all, last as int) =~= Seq::empty());
            }
            assert(text::texts(out@) + name_rows_of(all, last as int) =~= before + name_rows_of(all, from as int));
        }
        from = last;
    }
    assert(name_rows_of(all, from as int) =~= Seq::empty());
    assert(text::texts(out@) =~= text::texts(out@) + Seq::empty());
    out
}

/// A name and a count.
pub open spec fn count_text(name: Seq<char>, n: nat) -> Seq<char> {
    "         "@ + text::left(name, 12) + " "@ + text::right(text::grouped(n, ','), 14)
}

/// A line with a name and a count.
pub fn count_line(name: &str, n: u64) -> (out: String)
    ensures
        out@ == count_text(name@, n as nat),
{
    let mut out: String = "         ".to_owned();
    text::put_left(&mut out, name, 12);
    out.push_str(" ");
    let count: String = progress::commas(n);
    text::put_right(&mut out, count.as_str(), 14);
    out
}

/// A line with a name, a count of tiles, and their size.
pub fn tiles_line(name: &str, n: u64, bytes: u64) -> (out: String)
    ensures
        out@ == tiles_text(name@, n as nat, bytes as nat),
{
    let mut out: String = count_line(name, n);
    out.push_str("  ");
    let size: String = progress::bytes(bytes);
    text::put_right(&mut out, size.as_str(), 10);
    out
}

/// A line with a layer and the size of its archive.
pub fn archive_line(layer: &str, bytes: u64) -> (out: String)
    ensures
        out@ == "         "@ + text::left(layer@, 12) + " "@ + text::right(progress::size(bytes as nat), 10),
{
    let mut out: String = "         ".to_owned();
    text::put_left(&mut out, layer, 12);
    out.push_str(" ");
    let size: String = progress::bytes(bytes);
    text::put_right(&mut out, size.as_str(), 10);
    out
}

/// The line above a build's archives, with a mark on the build of this run.
pub fn build_line(build: &str, current: &str) -> (out: String)
    ensures
        out@ == "       "@ + build@ + (if build@ == current@ {
            "  <- this build"@
        } else {
            ""@
        }),
{
    let mut out: String = "       ".to_owned();
    out.push_str(build);
    out.push_str(if text::same(build, current) {
        "  <- this build"
    } else {
        ""
    });
    out
}

/// The sum of the first `n` numbers.
pub open spec fn sum(list: Seq<u64>, n: nat) -> nat
    decreases n,
{
    if n == 0 {
        0
    } else {
        sum(list, (n - 1) as nat) + list[n - 1] as nat
    }
}

proof fn lemma_sum_grows(list: Seq<u64>, m: nat, n: nat)
    requires
        m <= n <= list.len(),
    ensures
        sum(list, m) <= sum(list, n),
    decreases n,
{
    if m < n {
        lemma_sum_grows(list, m, (n - 1) as nat);
    }
}

/// Adds numbers up.
pub fn total(list: &Vec<u64>) -> (n: u64)
    requires
        sum(list@, list@.len()) <= u64::MAX,
    ensures
        n == sum(list@, list@.len()),
{
    let mut n: u64 = 0;
    let mut i: usize = 0;
    while i < list.len()
        invariant
            i <= list@.len(),
            sum(list@, list@.len()) <= u64::MAX,
            n == sum(list@, i as nat),
        decreases list@.len() - i,
    {
        proof {
            lemma_sum_grows(list@, (i + 1) as nat, list@.len());
        }
        n = n + list[i];
        i = i + 1;
    }
    n
}

/// What is added where the baked levels are not those of this map. `$a` are the
/// levels of this map.
pub const STALE_RUNGS: &'static str = "  (tuning.rs now says z$a -- `make all` will re-bake)";

/// Which levels were baked, and whether they are still the levels of this map.
pub open spec fn rungs_text(baked: Seq<u8>) -> Seq<char> {
    let list = text::joined(tuning::numbers(baked), ","@);
    let wanted = text::joined(tuning::numbers(tuning::zooms()), ","@);
    "\n       baked rungs z"@ + list + (if list == wanted {
        ""@
    } else {
        text::filled(STALE_RUNGS@, seq![wanted])
    })
}

/// Which levels were baked, and whether they are still the levels of this map.
pub fn rungs_line(baked: &Vec<u8>) -> (out: String)
    ensures
        out@ == rungs_text(baked@),
{
    let list: String = tuning::csv(baked.as_slice());
    let wanted: String = tuning::zooms_csv();
    let mut out: String = "\n       baked rungs z".to_owned();
    out.push_str(list.as_str());
    if text::same(list.as_str(), wanted.as_str()) {
        out.push_str("");
    } else {
        let values: [&str; 1] = [wanted.as_str()];
        assert(text::strs(values@) =~= seq![wanted@]);
        let note: String = text::fill(STALE_RUNGS, &values);
        out.push_str(note.as_str());
    }
    out
}

/// The sizes of some files.
pub open spec fn sizes_at(sizes: Seq<u64>, at: Seq<usize>) -> Seq<u64> {
    Seq::new(at.len(), |i: int| sizes[at[i] as int])
}

/// The lines of the archives of a build: its name, its layers in draw order, and what
/// they come to together.
pub open spec fn build_texts(
    files: Seq<String>,
    sizes: Seq<u64>,
    build: Seq<char>,
    current: Seq<char>,
) -> Seq<Seq<char>> {
    let at = builds::in_draw_order(files, build);
    let head = "       "@ + build + (if build == current {
        "  <- this build"@
    } else {
        ""@
    });
    let total = "         "@ + text::left("total"@, 12) + " "@ + text::right(
        progress::size(sum(sizes_at(sizes, at), at.len())),
        10,
    );
    seq![head] + Seq::new(
        at.len(),
        |i: int|
            "         "@ + text::left(builds::layer_of(files[at[i] as int]@), 12) + " "@ + text::right(
                progress::size(sizes[at[i] as int] as nat),
                10,
            ),
    ) + seq![total]
}

/// The lines of the archives of a build, in draw order, so that the listing reads the
/// way the map is painted.
pub fn build_lines(files: &Vec<String>, sizes: &Vec<u64>, build: &str, current: &str) -> (out: Vec<String>)
    requires
        sizes@.len() == files@.len(),
        sum(
            sizes_at(sizes@, builds::in_draw_order(files@, build@)),
            builds::in_draw_order(files@, build@).len(),
        ) <= u64::MAX,
    ensures
        text::texts(out@) == build_texts(files@, sizes@, build@, current@),
{
    let at: Vec<usize> = builds::layers_of(files, build);
    let count: usize = files.len();
    let mut out: Vec<String> = Vec::new();
    let mut parts: Vec<u64> = Vec::new();
    out.push(build_line(build, current));
    let ghost want = build_texts(files@, sizes@, build@, current@);
    let mut i: usize = 0;
    proof {
        builds::law_layers_are_files(files@, build@);
        assert(text::texts(out@) =~= want.take(1));
    }
    while i < at.len()
        invariant
            i <= at@.len(),
            count == files@.len(),
            sizes@.len() == files@.len(),
            at@ == builds::in_draw_order(files@, build@),
            forall|k: int| 0 <= k < at@.len() ==> (#[trigger] at@[k]) < files@.len() && builds::build_of(
                files@[at@[k] as int]@,
            ) is Some,
            want == build_texts(files@, sizes@, build@, current@),
            parts@ =~= sizes_at(sizes@, at@).take(i as int),
            text::texts(out@) =~= want.take(i + 1),
        decreases at@.len() - i,
    {
        let n: usize = at[i];
        let layer: String = match config::split_archive_name(files[n].as_str()) {
            Some((_build, layer)) => layer,
            None => "".to_owned(),
        };
        assert(layer@ == builds::layer_of(files@[n as int]@));
        let line: String = archive_line(layer.as_str(), sizes[n]);
        let ghost said = line@;
        let ghost before = text::texts(out@);
        out.push(line);
        parts.push(sizes[n]);
        assert(text::texts(out@) =~= before.push(said));
        assert(want[i + 1] == said);
        i = i + 1;
    }
    assert(parts@ =~= sizes_at(sizes@, at@));
    let all: u64 = total(&parts);
    let last: String = archive_line("total", all);
    let ghost said = last@;
    let ghost before = text::texts(out@);
    out.push(last);
    assert(text::texts(out@) =~= before.push(said));
    assert(text::texts(out@) =~= want);
    out
}

/// How many features a layer has.
#[derive(Debug)]
pub struct FeatureCount {
    pub layer: String,
    pub features: u64,
}

/// The counts of a list.
pub open spec fn counts_of(rows: Seq<FeatureCount>) -> Seq<u64> {
    rows.map_values(|r: FeatureCount| r.features)
}

/// The lines about features: each layer, and all of them together.
pub open spec fn feature_texts(rows: Seq<FeatureCount>) -> Seq<Seq<char>> {
    rows.map_values(|r: FeatureCount| count_text(r.layer@, r.features as nat)).push(
        count_text("total"@, sum(counts_of(rows), rows.len())),
    )
}

/// The lines about features, which say which rules of classification found something.
pub fn feature_lines(rows: &Vec<FeatureCount>) -> (out: Vec<String>)
    requires
        sum(counts_of(rows@), rows@.len()) <= u64::MAX,
    ensures
        text::texts(out@) == feature_texts(rows@),
{
    let mut out: Vec<String> = Vec::new();
    let mut counts: Vec<u64> = Vec::new();
    let mut i: usize = 0;
    let ghost want = rows@.map_values(|r: FeatureCount| count_text(r.layer@, r.features as nat));
    while i < rows.len()
        invariant
            i <= rows@.len(),
            want == rows@.map_values(|r: FeatureCount| count_text(r.layer@, r.features as nat)),
            text::texts(out@) =~= want.take(i as int),
            counts@ =~= counts_of(rows@).take(i as int),
        decreases rows@.len() - i,
    {
        let line: String = count_line(rows[i].layer.as_str(), rows[i].features);
        let ghost said = line@;
        let ghost before = text::texts(out@);
        out.push(line);
        counts.push(rows[i].features);
        assert(text::texts(out@) =~= before.push(said));
        i = i + 1;
    }
    assert(counts@ =~= counts_of(rows@));
    let last: String = count_line("total", total(&counts));
    let ghost said = last@;
    let ghost before = text::texts(out@);
    out.push(last);
    assert(text::texts(out@) =~= before.push(said));
    assert(text::texts(out@) =~= feature_texts(rows@));
    out
}

/// How many tiles a level has, and how large they are.
#[derive(Clone, Copy, Debug, PartialEq, Eq, Structural)]
pub struct LevelCount {
    pub z: u8,
    pub tiles: u64,
    pub bytes: u64,
}

/// How many tiles a layer has, and how large they are.
#[derive(Debug)]
pub struct LayerCount {
    pub layer: String,
    pub tiles: u64,
    pub bytes: u64,
}

/// A line about tiles.
pub open spec fn tiles_text(name: Seq<char>, n: nat, bytes: nat) -> Seq<char> {
    count_text(name, n) + "  "@ + text::right(progress::size(bytes), 10)
}

/// The levels of a list.
pub open spec fn levels_of(rows: Seq<LevelCount>) -> Seq<u8> {
    rows.map_values(|r: LevelCount| r.z)
}

/// The lines about tiles: each level, each layer, and the levels that were baked.
pub open spec fn tile_texts(levels: Seq<LevelCount>, layers: Seq<LayerCount>) -> Seq<Seq<char>> {
    (levels.map_values(
        |r: LevelCount| tiles_text("z"@ + text::decimal(r.z as nat), r.tiles as nat, r.bytes as nat),
    ) + layers.map_values(|r: LayerCount| tiles_text(r.layer@, r.tiles as nat, r.bytes as nat))).push(
        rungs_text(levels_of(levels)),
    )
}

/// The lines about tiles. The levels that were baked may differ from those of this map,
/// and the point of the last line is to notice.
pub fn tile_lines(levels: &Vec<LevelCount>, layers: &Vec<LayerCount>) -> (out: Vec<String>)
    ensures
        text::texts(out@) == tile_texts(levels@, layers@),
{
    let mut out: Vec<String> = Vec::new();
    let mut baked: Vec<u8> = Vec::new();
    let ghost first = levels@.map_values(
        |r: LevelCount| tiles_text("z"@ + text::decimal(r.z as nat), r.tiles as nat, r.bytes as nat),
    );
    let ghost second = layers@.map_values(|r: LayerCount| tiles_text(r.layer@, r.tiles as nat, r.bytes as nat));
    let mut i: usize = 0;
    while i < levels.len()
        invariant
            i <= levels@.len(),
            first == levels@.map_values(
                |r: LevelCount| tiles_text("z"@ + text::decimal(r.z as nat), r.tiles as nat, r.bytes as nat),
            ),
            text::texts(out@) =~= first.take(i as int),
            baked@ =~= levels_of(levels@).take(i as int),
        decreases levels@.len() - i,
    {
        let mut name: String = "z".to_owned();
        text::put_decimal(&mut name, levels[i].z as u64);
        let line: String = tiles_line(name.as_str(), levels[i].tiles, levels[i].bytes);
        let ghost said = line@;
        let ghost before = text::texts(out@);
        out.push(line);
        baked.push(levels[i].z);
        assert(text::texts(out@) =~= before.push(said));
        i = i + 1;
    }
    assert(baked@ =~= levels_of(levels@));
    assert(first.take(i as int) =~= first);
    let mut n: usize = 0;
    while n < layers.len()
        invariant
            n <= layers@.len(),
            second == layers@.map_values(|r: LayerCount| tiles_text(r.layer@, r.tiles as nat, r.bytes as nat)),
            text::texts(out@) =~= first + second.take(n as int),
        decreases layers@.len() - n,
    {
        let line: String = tiles_line(layers[n].layer.as_str(), layers[n].tiles, layers[n].bytes);
        let ghost said = line@;
        let ghost before = text::texts(out@);
        out.push(line);
        assert(text::texts(out@) =~= before.push(said));
        n = n + 1;
    }
    assert(second.take(n as int) =~= second);
    let last: String = rungs_line(&baked);
    let ghost said = last@;
    let ghost before = text::texts(out@);
    out.push(last);
    assert(text::texts(out@) =~= before.push(said));
    out
}

/// What is added up is what there is: one more has its own more.
pub proof fn law_totals_add_up(list: Seq<u64>, more: u64)
    ensures
        sum(list, 0) == 0,
        sum(list.push(more), list.len() + 1) == sum(list, list.len()) + more,
{
    lemma_sum_of_the_front(list, more, list.len());
}

proof fn lemma_sum_of_the_front(list: Seq<u64>, more: u64, n: nat)
    requires
        n <= list.len(),
    ensures
        sum(list.push(more), n) == sum(list, n),
    decreases n,
{
    if n > 0 {
        lemma_sum_of_the_front(list, more, (n - 1) as nat);
    }
}

proof fn lemma_name_rows(names: Seq<Seq<char>>, from: int, r: int)
    requires
        0 <= from,
        0 <= r,
    ensures
        6 * name_rows_of(names, from).len() < names.len() - from + 6 || from >= names.len(),
        6 * name_rows_of(names, from).len() >= names.len() - from,
        from >= names.len() ==> name_rows_of(names, from).len() == 0,
        r < name_rows_of(names, from).len() ==> name_rows_of(names, from)[r] == "       "@ + text::joined(
            names.subrange(from + 6 * r, row_end(from + 6 * r, names.len() as int)),
            " "@,
        ),
    decreases names.len() + 6 - from,
{
    if from < names.len() {
        if r > 0 {
            lemma_name_rows(names, from + 6, r - 1);
        } else {
            lemma_name_rows(names, from + 6, 0);
        }
    }
}

/// **Names are listed six to a row, each one once and in their order**: the `r`-th row
/// holds the six behind the rows before it, and the last row what is left.
pub proof fn law_names_are_listed_by_sixes(names: Seq<Seq<char>>, r: int)
    requires
        0 <= r < name_rows_of(names, 0).len(),
    ensures
        6 * (name_rows_of(names, 0).len() - 1) < names.len() <= 6 * name_rows_of(names, 0).len(),
        6 * r + 6 <= names.len() ==> name_rows_of(names, 0)[r] == "       "@ + text::joined(
            names.subrange(6 * r, 6 * r + 6),
            " "@,
        ),
        6 * r + 6 > names.len() ==> name_rows_of(names, 0)[r] == "       "@ + text::joined(names.skip(6 * r), " "@),
{
    lemma_name_rows(names, 0, r);
    if 6 * r + 6 > names.len() {
        assert(names.subrange(6 * r, names.len() as int) =~= names.skip(6 * r));
    }
}

} // verus!
