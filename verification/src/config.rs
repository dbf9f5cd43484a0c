//! Where a run reads and writes: the extracts, the build database and the archives,
//! each in a directory of its own.

use crate::names;
use crate::text;
use crate::tuning;
use vstd::prelude::*;

verus! {

/// A name inside a directory. An absolute name stays as it is.
pub open spec fn path(dir: Seq<char>, name: Seq<char>) -> Seq<char> {
    if dir.len() == 0 || (name.len() > 0 && name[0] == '/') {
        name
    } else if dir.last() == '/' {
        dir + name
    } else {
        dir + "/"@ + name
    }
}

/// Joins a directory and a name.
pub fn join(dir: &str, name: &str) -> (out: String)
    ensures
        out@ == path(dir@, name@),
{
    let d: Vec<char> = text::chars(dir);
    let n: Vec<char> = text::chars(name);
    if d.len() == 0 || (n.len() > 0 && n[0] == '/') {
        return name.to_owned();
    }
    let mut out: String = dir.to_owned();
    if d[d.len() - 1] != '/' {
        out.push_str("/");
    }
    out.push_str(name);
    out
}

/// An extract: the name it is known by, and where it is.
#[derive(Debug)]
pub struct Region {
    pub name: String,
    pub path: String,
}

/// The settings of a run.
#[derive(Debug)]
pub struct Config {
    /// The extracts, and the coastline that comes with them.
    pub pbf: String,
    /// The build database and what it spills.
    pub duckdb: String,
    /// One archive per layer.
    pub pmtiles: String,
    /// The memory of the database, as the database spells sizes. Without it, half of
    /// what the machine has.
    pub memory: Option<String>,
    /// How many downloads run at once.
    pub jobs: usize,
}

impl Default for Config {
    fn default() -> (cfg: Config)
        ensures
            cfg.pbf@ == "pbf"@,
            cfg.duckdb@ == "duckdb"@,
            cfg.pmtiles@ == "pmtiles"@,
            cfg.memory is None,
            cfg.jobs == 3,
    {
        Config {
            pbf: "pbf".to_owned(),
            duckdb: "duckdb".to_owned(),
            pmtiles: "pmtiles".to_owned(),
            memory: None,
            jobs: 3,
        }
    }
}

impl Config {
    /// The coastline, which lives with the extracts.
    pub fn land_zip(&self) -> (out: String)
        ensures
            out@ == path(self.pbf@, "land-polygons-split-3857.zip"@),
    {
        join(self.pbf.as_str(), "land-polygons-split-3857.zip")
    }

    /// The coastline's shapes, read straight out of the archive they come in.
    pub fn land_shp(&self) -> (out: String)
        ensures
            out@ == "/vsizip/"@ + path(self.pbf@, "land-polygons-split-3857.zip"@)
                + "/land-polygons-split-3857/land_polygons.shp"@,
    {
        let mut out: String = "/vsizip/".to_owned();
        let zip: String = self.land_zip();
        out.push_str(zip.as_str());
        out.push_str("/land-polygons-split-3857/land_polygons.shp");
        out
    }

    /// The catalogue of extracts, kept beside them.
    pub fn index_json(&self) -> (out: String)
        ensures
            out@ == path(self.pbf@, ".geofabrik-index.json"@),
    {
        join(self.pbf.as_str(), ".geofabrik-index.json")
    }

    /// The build database.
    pub fn db(&self) -> (out: String)
        ensures
            out@ == path(self.duckdb@, "minimap.duckdb"@),
    {
        join(self.duckdb.as_str(), "minimap.duckdb")
    }

    /// Where the database spills to: beside itself, where there is room.
    pub fn spill(&self) -> (out: String)
        ensures
            out@ == path(self.duckdb@, "tmp"@),
    {
        join(self.duckdb.as_str(), "tmp")
    }

    /// The directory of the archives.
    pub fn tiles_dir(&self) -> (out: String)
        ensures
            out@ == self.pmtiles@,
    {
        self.pmtiles.clone()
    }

    /// The archive of a layer. It belongs to no build: a server takes an archive by the
    /// name `<build>.<layer>.pmtiles`, so one that is to be served is put under it.
    pub fn layer_archive(&self, layer: &str) -> (out: String)
        ensures
            out@ == path(self.pmtiles@, layer@ + ".pmtiles"@),
    {
        let mut name: String = layer.to_owned();
        name.push_str(".pmtiles");
        join(self.pmtiles.as_str(), name.as_str())
    }

    /// Where the extract of a region goes.
    pub fn extract(&self, id: &str) -> (out: String)
        ensures
            out@ == path(self.pbf@, id@ + ".osm.pbf"@),
    {
        let mut name: String = id.to_owned();
        name.push_str(".osm.pbf");
        join(self.pbf.as_str(), name.as_str())
    }

    /// The statements that set the database up: its memory, where a limit is known,
    /// and where it spills to.
    pub fn settings(&self, half: Option<String>) -> (out: Vec<String>)
        ensures
            text::texts(out@) == settings_of(text::text_of(self.memory), text::text_of(half), path(
                self.duckdb@,
                "tmp"@,
            )),
    {
        let mut out: Vec<String> = Vec::new();
        let limit: Option<String> = match &self.memory {
            Some(m) => Some(m.clone()),
            None => half,
        };
        if let Some(limit) = limit {
            let mut set: String = "SET memory_limit = '".to_owned();
            set.push_str(limit.as_str());
            set.push_str("'");
            out.push(set);
        }
        let mut spill: String = "SET temp_directory = ".to_owned();
        let place: String = tuning::quote(self.spill().as_str());
        spill.push_str(place.as_str());
        out.push(spill);
        assert(text::texts(out@) =~= settings_of(
            text::text_of(self.memory),
            text::text_of(half),
            path(self.duckdb@, "tmp"@),
        ));
        out
    }
}

/// The statements that set the database up.
pub open spec fn settings_of(memory: Option<Seq<char>>, half: Option<Seq<char>>, spill: Seq<char>) -> Seq<Seq<char>> {
    let temp = "SET temp_directory = "@ + tuning::quoted(spill);
    let limit = match memory {
        Some(m) => Some(m),
        None => half,
    };
    match limit {
        Some(m) => seq!["SET memory_limit = '"@ + m + "'"@, temp],
        None => seq![temp],
    }
}

/// The name a file is known by: what is left of it without `.osm.pbf`, and without
/// `-latest` in front of that.
pub open spec fn region_of(file: Seq<char>) -> Option<Seq<char>> {
    match text::before(file, ".osm.pbf"@) {
        Some(stem) => match text::before(stem, "-latest"@) {
            Some(name) => Some(name),
            None => Some(stem),
        },
        None => None,
    }
}

/// The name of the region a file holds, if it is an extract.
pub fn region_name(file: &str) -> (r: Option<String>)
    ensures
        text::text_of(r) == region_of(file@),
{
    match text::strip_suffix(file, ".osm.pbf") {
        Some(stem) => match text::strip_suffix(stem.as_str(), "-latest") {
            Some(name) => Some(name),
            None => Some(stem),
        },
        None => None,
    }
}

/// The last part of a path.
pub open spec fn file_of(p: Seq<char>) -> Seq<char> {
    match parted_last(p, '/') {
        Some(parts) => parts.1,
        None => p,
    }
}

/// Whether a file lies in a directory itself, and not further down.
pub open spec fn lies_in(dir: Seq<char>, p: Seq<char>) -> bool {
    path(dir, file_of(p)) == p
}

/// Whether a file lies in a directory itself.
pub fn is_in(dir: &str, p: &str) -> (r: bool)
    ensures
        r == lies_in(dir@, p@),
{
    let name: String = match split_last(p, '/') {
        Some((_front, back)) => back,
        None => p.to_owned(),
    };
    let whole: String = join(dir, name.as_str());
    text::same(whole.as_str(), p)
}

/// Among the first `n` files, the one that a name stands for: the first that lies
/// where it belongs, or else the first of all.
pub open spec fn survivor(found: Seq<Region>, dir: Seq<char>, name: Seq<char>, n: nat) -> Option<int>
    decreases n,
{
    if n == 0 {
        None
    } else {
        let earlier = survivor(found, dir, name, (n - 1) as nat);
        if found[n - 1].name@ != name {
            earlier
        } else {
            match earlier {
                None => Some(n - 1),
                Some(i) => if lies_in(dir, found[n - 1].path@) && !lies_in(dir, found[i].path@) {
                    Some(n - 1)
                } else {
                    earlier
                },
            }
        }
    }
}

proof fn lemma_survivor(found: Seq<Region>, dir: Seq<char>, name: Seq<char>, n: nat)
    requires
        n <= found.len(),
    ensures
        match survivor(found, dir, name, n) {
            Some(i) => 0 <= i < n && found[i].name@ == name,
            None => forall|i: int| 0 <= i < n ==> (#[trigger] found[i]).name@ != name,
        },
    decreases n,
{
    if n > 0 {
        lemma_survivor(found, dir, name, (n - 1) as nat);
    }
}

/// The names of a list of regions.
pub open spec fn region_names(list: Seq<Region>) -> Seq<Seq<char>> {
    list.map_values(|r: Region| r.name@)
}

/// What is kept of the files found: each name once, in order, at the place that
/// stands for it.
pub open spec fn is_inventory(found: Seq<Region>, dir: Seq<char>, out: Seq<Region>) -> bool {
    &&& names::strictly_ascending(region_names(out))
    &&& forall|i: int| 0 <= i < out.len() ==> stands_for(found, dir, #[trigger] out[i])
    &&& forall|i: int| 0 <= i < found.len() ==> region_names(out).contains((#[trigger] found[i]).name@)
}

/// The place of the file that a name stands for.
fn survives(found: &Vec<Region>, dir: &str, name: &str) -> (r: Option<usize>)
    ensures
        match r {
            Some(i) => survivor(found@, dir@, name@, found@.len()) == Some(i as int) && i < found@.len(),
            None => survivor(found@, dir@, name@, found@.len()) is None,
        },
{
    let mut best: Option<usize> = None;
    let mut i: usize = 0;
    while i < found.len()
        invariant
            i <= found@.len(),
            match best {
                Some(b) => survivor(found@, dir@, name@, i as nat) == Some(b as int) && b < i,
                None => survivor(found@, dir@, name@, i as nat) is None,
            },
        decreases found@.len() - i,
    {
        if text::same(found[i].name.as_str(), name) {
            match best {
                None => {
                    best = Some(i);
                },
                Some(b) => {
                    if is_in(dir, found[i].path.as_str()) && !is_in(dir, found[b].path.as_str()) {
                        best = Some(i);
                    }
                },
            }
        }
        i = i + 1;
    }
    best
}

/// Why the extracts to work from cannot be had.
#[derive(Debug)]
pub enum RegionError {
    /// Nothing was downloaded.
    Nothing,
    /// These were asked for and are not there.
    Missing(Vec<String>),
}

/// The names that are asked for and not there, in the order they are asked for in.
pub open spec fn missing(wanted: Seq<String>, found: Seq<Region>, n: nat) -> Seq<Seq<char>>
    decreases n,
{
    if n == 0 {
        Seq::empty()
    } else if region_names(found).contains(wanted[n - 1]@) {
        missing(wanted, found, (n - 1) as nat)
    } else {
        missing(wanted, found, (n - 1) as nat).push(wanted[n - 1]@)
    }
}

/// Whether a region is the file that its name stands for.
pub open spec fn stands_for(found: Seq<Region>, dir: Seq<char>, r: Region) -> bool {
    let s = survivor(found, dir, r.name@, found.len());
    s is Some && r.path@ == found[s->0].path@
}

impl Config {
    /// The extracts among the files found. Two files can claim one name; the one that
    /// lies where it belongs is kept, so that a stale copy is never picked.
    pub fn extracts(&self, found: &Vec<Region>) -> (out: Vec<Region>)
        ensures
            is_inventory(found@, self.pbf@, out@),
    {
        let mut list: Vec<String> = Vec::new();
        let mut i: usize = 0;
        let ghost all = found@.map_values(|f: Region| f.name@);
        while i < found.len()
            invariant
                i <= found@.len(),
                all == found@.map_values(|f: Region| f.name@),
                text::texts(list@) =~= all.take(i as int),
            decreases found@.len() - i,
        {
            let ghost before = text::texts(list@);
            let name: String = found[i].name.clone();
            let ghost shown = name@;
            list.push(name);
            assert(text::texts(list@) =~= before.push(shown));
            i = i + 1;
        }
        assert(all.take(i as int) =~= all);
        let sorted: Vec<String> = names::distinct(list);
        let mut out: Vec<Region> = Vec::new();
        let mut n: usize = 0;
        while n < sorted.len()
            invariant
                n <= sorted@.len(),
                all == found@.map_values(|f: Region| f.name@),
                forall|s: Seq<char>| text::texts(sorted@).contains(s) <==> all.contains(s),
                region_names(out@) =~= text::texts(sorted@).take(n as int),
                forall|i: int| 0 <= i < out@.len() ==> stands_for(found@, self.pbf@, #[trigger] out@[i]),
            decreases sorted@.len() - n,
        {
            let ghost before = region_names(out@);
            proof {
                let name = sorted@[n as int]@;
                assert(text::texts(sorted@)[n as int] == name);
                assert(text::texts(sorted@).contains(name));
                assert(all.contains(name));
                let k = choose|k: int| 0 <= k < all.len() && all[k] == name;
                assert(found@[k].name@ == name);
                lemma_survivor(found@, self.pbf@, name, found@.len());
            }
            if let Some(at) = survives(found, self.pbf.as_str(), sorted[n].as_str()) {
                let region: Region = Region { name: sorted[n].clone(), path: found[at].path.clone() };
                out.push(region);
                assert(region_names(out@) =~= before.push(sorted@[n as int]@));
            }
            assert(text::texts(sorted@).take(n + 1) =~= text::texts(sorted@).take(n as int).push(sorted@[n as int]@));
            n = n + 1;
        }
        proof {
            assert(text::texts(sorted@).take(n as int) =~= text::texts(sorted@));
            assert forall|i: int| 0 <= i < found@.len() implies region_names(out@).contains((#[trigger] found@[i]).name@) by {
                assert(all[i] == found@[i].name@);
                assert(all.contains(all[i]));
            }
        }
        out
    }

    /// The extracts to work from: the ones that are named, or everything that is there.
    /// To name one that is not there is an error, for a map with a hole in it gives no
    /// sign of why.
    pub fn regions(&self, found: &Vec<Region>, wanted: &Vec<String>) -> (r: Result<Vec<Region>, RegionError>)
        ensures
            wanted@.len() == 0 && found@.len() == 0 ==> r == Err::<Vec<Region>, RegionError>(RegionError::Nothing),
            wanted@.len() == 0 && found@.len() > 0 ==> r is Ok && is_inventory(found@, self.pbf@, r->Ok_0@),
            wanted@.len() > 0 && missing(wanted@, found@, wanted@.len()).len() > 0 ==> {
                &&& r is Err
                &&& r->Err_0 is Missing
                &&& text::texts(r->Err_0->Missing_0@) == missing(wanted@, found@, wanted@.len())
            },
            wanted@.len() > 0 && missing(wanted@, found@, wanted@.len()).len() == 0 ==> {
                &&& r is Ok
                &&& region_names(r->Ok_0@) == text::texts(wanted@)
                &&& forall|i: int| 0 <= i < r->Ok_0@.len() ==> stands_for(found@, self.pbf@, #[trigger] r->Ok_0@[i])
            },
    {
        if wanted.len() == 0 {
            if found.len() == 0 {
                return Err(RegionError::Nothing);
            }
            return Ok(self.extracts(found));
        }
        let mut out: Vec<Region> = Vec::new();
        let mut gone: Vec<String> = Vec::new();
        let mut i: usize = 0;
        assert(text::texts(gone@) =~= missing(wanted@, found@, 0));
        while i < wanted.len()
            invariant
                i <= wanted@.len(),
                text::texts(gone@) == missing(wanted@, found@, i as nat),
                gone@.len() == 0 ==> region_names(out@) =~= text::texts(wanted@).take(i as int),
                forall|k: int| 0 <= k < out@.len() ==> stands_for(found@, self.pbf@, #[trigger] out@[k]),
            decreases wanted@.len() - i,
        {
            let ghost before = region_names(out@);
            let ghost lost = text::texts(gone@);
            let ghost name = wanted@[i as int]@;
            proof {
                lemma_survivor(found@, self.pbf@, name, found@.len());
                if region_names(found@).contains(name) {
                    let k = choose|k: int| 0 <= k < found@.len() && region_names(found@)[k] == name;
                    assert(found@[k].name@ == name);
                }
            }
            match survives(found, self.pbf.as_str(), wanted[i].as_str()) {
                Some(at) => {
                    let region: Region = Region { name: wanted[i].clone(), path: found[at].path.clone() };
                    assert(region_names(found@)[at as int] == name);
                    assert(stands_for(found@, self.pbf@, region));
                    out.push(region);
                    assert(region_names(out@) =~= before.push(name));
                },
                None => {
                    gone.push(wanted[i].clone());
                    assert(text::texts(gone@) =~= lost.push(name));
                },
            }
            i = i + 1;
        }
        assert(text::texts(gone@).len() == gone@.len());
        if gone.len() > 0 {
            return Err(RegionError::Missing(gone));
        }
        assert(text::texts(wanted@).take(i as int) =~= text::texts(wanted@));
        Ok(out)
    }
}

/// What is said of a missing extract. `$a` is the directory of the extracts.
pub const NO_EXTRACTS: &'static str = "no .osm.pbf under $a -- run `make download` first";

/// What is said of extracts that are not there. `$a` and `$b` are their names, with
/// commas and with spaces between them.
pub const NOT_DOWNLOADED: &'static str = "not downloaded: $a -- run `make download REGIONS=\"$b\"`";

impl RegionError {
    /// What is said of the error.
    pub open spec fn words(self, pbf: Seq<char>) -> Seq<char> {
        match self {
            RegionError::Nothing => text::filled(NO_EXTRACTS@, seq![pbf]),
            RegionError::Missing(list) => text::filled(
                NOT_DOWNLOADED@,
                seq![text::joined(text::texts(list@), ", "@), text::joined(text::texts(list@), " "@)],
            ),
        }
    }

    /// What is said of the error, where the extracts belong in `pbf`.
    pub fn message(&self, pbf: &str) -> (out: String)
        ensures
            out@ == self.words(pbf@),
    {
        match self {
            RegionError::Nothing => {
                let values: [&str; 1] = [pbf];
                assert(text::strs(values@) =~= seq![pbf@]);
                text::fill(NO_EXTRACTS, &values)
            },
            RegionError::Missing(list) => {
                let commas: String = text::join(list, ", ");
                let spaces: String = text::join(list, " ");
                let values: [&str; 2] = [commas.as_str(), spaces.as_str()];
                assert(text::strs(values@) =~= seq![commas@, spaces@]);
                text::fill(NOT_DOWNLOADED, &values)
            },
        }
    }
}

/// The first line at or after the `n`-th that begins with `front`.
pub open spec fn line_with(lines: Seq<Seq<char>>, front: Seq<char>, n: int) -> Option<Seq<char>>
    decreases lines.len() - n,
{
    if n >= lines.len() {
        None
    } else if text::after(lines[n], front) is Some {
        Some(lines[n])
    } else {
        line_with(lines, front, n + 1)
    }
}

/// The second word of a text.
pub open spec fn second_word(s: Seq<char>) -> Seq<char> {
    text::first_word(text::trimmed_start(s).skip(text::first_word(s).len() as int))
}

/// The share of this machine's memory, in mebibytes, from its list of figures: the
/// total is given in kibibytes.
pub open spec fn share(meminfo: Seq<char>, parts: nat) -> Option<Seq<char>> {
    match line_with(text::pieces(meminfo, '\n'), "MemTotal:"@, 0) {
        Some(line) => match text::parsed(second_word(line), u64::MAX as nat) {
            Some(kb) => Some(text::decimal(kb / 1024 / parts) + "MiB"@),
            None => None,
        },
        None => None,
    }
}

/// One part in so many of this machine's memory, as the database spells sizes.
pub fn share_of_ram(meminfo: &str, parts: u64) -> (r: Option<String>)
    requires
        parts > 0,
    ensures
        text::text_of(r) == share(meminfo@, parts as nat),
{
    let lines: Vec<String> = text::split(meminfo, '\n');
    let mut i: usize = 0;
    while i < lines.len()
        invariant
            i <= lines@.len(),
            parts > 0,
            text::texts(lines@) == text::pieces(meminfo@, '\n'),
            line_with(text::pieces(meminfo@, '\n'), "MemTotal:"@, 0) == line_with(
                text::texts(lines@),
                "MemTotal:"@,
                i as int,
            ),
        decreases lines@.len() - i,
    {
        let line: &str = lines[i].as_str();
        assert(text::texts(lines@)[i as int] == line@);
        if text::strip_prefix(line, "MemTotal:").is_some() {
            let (_first, rest): (String, String) = text::next_word(line);
            let (second, _rest): (String, String) = text::next_word(rest.as_str());
            return match text::parse(second.as_str(), u64::MAX) {
                Some(kb) => {
                    let mut out: String = text::number(kb / 1024 / parts);
                    out.push_str("MiB");
                    Some(out)
                },
                None => None,
            };
        }
        i = i + 1;
    }
    None
}

/// Half of this machine's memory.
pub fn half_of_ram(meminfo: &str) -> (r: Option<String>)
    ensures
        text::text_of(r) == share(meminfo@, 2),
{
    share_of_ram(meminfo, 2)
}

/// The last place of a character in a text.
pub open spec fn last_place(s: Seq<char>, c: char) -> Option<int>
    decreases s.len(),
{
    if s.len() == 0 {
        None
    } else if s.last() == c {
        Some(s.len() - 1)
    } else {
        last_place(s.drop_last(), c)
    }
}

/// Splits a text at the last place of a character.
pub open spec fn parted_last(s: Seq<char>, c: char) -> Option<(Seq<char>, Seq<char>)> {
    match last_place(s, c) {
        Some(i) => Some((s.take(i), s.skip(i + 1))),
        None => None,
    }
}

/// Splits a text at the last place of a character.
pub fn split_last(s: &str, c: char) -> (r: Option<(String, String)>)
    ensures
        match r {
            Some(p) => parted_last(s@, c) == Some((p.0@, p.1@)),
            None => parted_last(s@, c) is None,
        },
{
    let t: Vec<char> = text::chars(s);
    let mut n: usize = t.len();
    assert(t@.take(n as int) =~= t@);
    while n > 0
        invariant
            n <= t@.len(),
            t@ == s@,
            last_place(s@, c) == last_place(t@.take(n as int), c),
        decreases n,
    {
        assert(t@.take(n as int).drop_last() =~= t@.take(n - 1));
        if t[n - 1] == c {
            let front: String = text::string_of(&t, 0, n - 1);
            let back: String = text::string_of(&t, n, t.len());
            assert(front@ =~= s@.take(n - 1));
            assert(back@ =~= s@.skip(n as int));
            return Some((front, back));
        }
        n = n - 1;
    }
    None
}

/// The build and the layer an archive's name gives: `<build>.<layer>.pmtiles`, with
/// something in front of each dot.
pub open spec fn archive_parts(file: Seq<char>) -> Option<(Seq<char>, Seq<char>)> {
    match text::before(file, ".pmtiles"@) {
        Some(stem) => match parted_last(stem, '.') {
            Some(p) => if p.0.len() > 0 && p.1.len() > 0 {
                Some(p)
            } else {
                None
            },
            None => None,
        },
        None => None,
    }
}

/// Reads the build and the layer off an archive's name.
pub fn split_archive_name(file: &str) -> (r: Option<(String, String)>)
    ensures
        match r {
            Some(p) => archive_parts(file@) == Some((p.0@, p.1@)),
            None => archive_parts(file@) is None,
        },
{
    match text::strip_suffix(file, ".pmtiles") {
        Some(stem) => match split_last(stem.as_str(), '.') {
            Some((build, layer)) => {
                if text::chars(build.as_str()).len() > 0 && text::chars(layer.as_str()).len() > 0 {
                    Some((build, layer))
                } else {
                    None
                }
            },
            None => None,
        },
        None => None,
    }
}

/// An extract is known by one name, whether or not its file says that it is the
/// latest one.
pub proof fn law_latest_is_no_part_of_a_name(name: Seq<char>)
    requires
        text::before(name, "-latest"@) is None,
    ensures
        region_of(name + ".osm.pbf"@) == Some(name),
        region_of(name + "-latest.osm.pbf"@) == Some(name),
{
    reveal_strlit(".osm.pbf");
    reveal_strlit("-latest");
    reveal_strlit("-latest.osm.pbf");
    assert("-latest.osm.pbf"@ =~= "-latest"@ + ".osm.pbf"@);
    let a = name + ".osm.pbf"@;
    assert(a.skip(a.len() - 8) =~= ".osm.pbf"@);
    assert(a.take(a.len() - 8) =~= name);
    let b = name + "-latest.osm.pbf"@;
    let stem = name + "-latest"@;
    assert(b.skip(b.len() - 8) =~= ".osm.pbf"@);
    assert(b.take(b.len() - 8) =~= stem);
    assert(stem.skip(stem.len() - 7) =~= "-latest"@);
    assert(stem.take(stem.len() - 7) =~= name);
}

proof fn lemma_last_place(s: Seq<char>, c: char)
    ensures
        match last_place(s, c) {
            Some(i) => 0 <= i < s.len() && s[i] == c && forall|j: int| i < j < s.len() ==> #[trigger] s[j] != c,
            None => forall|j: int| 0 <= j < s.len() ==> #[trigger] s[j] != c,
        },
    decreases s.len(),
{
    if s.len() > 0 && s.last() != c {
        let rest = s.drop_last();
        lemma_last_place(rest, c);
        match last_place(rest, c) {
            Some(i) => {
                assert forall|j: int| i < j < s.len() implies #[trigger] s[j] != c by {
                    if j < s.len() - 1 {
                        assert(rest[j] != c);
                    }
                }
            },
            None => {
                assert forall|j: int| 0 <= j < s.len() implies #[trigger] s[j] != c by {
                    if j < s.len() - 1 {
                        assert(rest[j] != c);
                    }
                }
            },
        }
    }
}

pub(crate) proof fn lemma_parted_at(front: Seq<char>, c: char, back: Seq<char>)
    requires
        !back.contains(c),
    ensures
        parted_last(front.push(c) + back, c) == Some((front, back)),
{
    let s = front.push(c) + back;
    lemma_last_place(s, c);
    assert(s[front.len() as int] == c);
    match last_place(s, c) {
        Some(i) => {
            if i > front.len() {
                assert(back[i - front.len() - 1] == c);
                assert(back.contains(c));
            }
            if i < front.len() {
                assert(s[front.len() as int] != c);
            }
            assert(s.take(i) =~= front);
            assert(s.skip(i + 1) =~= back);
        },
        None => {
            assert(s[front.len() as int] != c);
        },
    }
}

/// **An archive is found again under its name**: what is called by a build, a layer and
/// `.pmtiles`, with dots between them, is the archive of that layer of that build,
/// whatever dots the build's own name holds.
pub proof fn law_an_archive_name_reads_back(build: Seq<char>, layer: Seq<char>)
    requires
        build.len() > 0,
        layer.len() > 0,
        !layer.contains('.'),
    ensures
        archive_parts(build + "."@ + layer + ".pmtiles"@) == Some((build, layer)),
{
    reveal_strlit(".");
    reveal_strlit(".pmtiles");
    let stem = build + "."@ + layer;
    let file = stem + ".pmtiles"@;
    assert(file.skip(file.len() - 8) =~= ".pmtiles"@);
    assert(file.take(file.len() - 8) =~= stem);
    assert(stem =~= build.push('.') + layer);
    lemma_parted_at(build, '.', layer);
}

/// **What is taken for an archive of a build is called like one.**
pub proof fn law_an_archive_is_called_like_one(file: Seq<char>)
    ensures
        archive_parts(file) matches Some((build, layer)) ==> {
            &&& build.len() > 0
            &&& layer.len() > 0
            &&& !layer.contains('.')
            &&& file == build + "."@ + layer + ".pmtiles"@
        },
{
    reveal_strlit(".");
    reveal_strlit(".pmtiles");
    if let Some(stem) = text::before(file, ".pmtiles"@) {
        lemma_last_place(stem, '.');
        if let Some((build, layer)) = archive_parts(file) {
            let i = last_place(stem, '.').unwrap();
            assert(stem =~= build + "."@ + layer);
            assert(file =~= stem + ".pmtiles"@);
            if layer.contains('.') {
                let k = choose|k: int| 0 <= k < layer.len() && layer[k] == '.';
                assert(stem[i + 1 + k] == '.');
            }
        }
    }
}

/// **What is put into a directory lies in it.**
pub proof fn law_what_is_put_into_a_directory_lies_in_it(dir: Seq<char>, name: Seq<char>)
    requires
        !name.contains('/'),
    ensures
        lies_in(dir, path(dir, name)),
        name.len() > 0 ==> path(dir, name).skip(path(dir, name).len() - name.len()) == name,
        dir.len() > 0 && name.len() > 0 ==> path(dir, name).take(dir.len() as int) == dir,
{
    reveal_strlit("/");
    let p = path(dir, name);
    if name.len() > 0 {
        assert(name.contains(name[0]));
    }
    assert(p.skip(p.len() - name.len()) =~= name);
    if dir.len() == 0 {
        lemma_last_place(name, '/');
        assert(file_of(p) == name);
    } else if dir.last() == '/' {
        assert(p =~= dir.drop_last().push('/') + name);
        lemma_parted_at(dir.drop_last(), '/', name);
        assert(p.take(dir.len() as int) =~= dir);
    } else {
        assert(p =~= dir.push('/') + name);
        lemma_parted_at(dir, '/', name);
        assert(p.take(dir.len() as int) =~= dir);
    }
}

/// Whether, of the first `n` files, the one at `i` is the first of a name that lies in
/// the directory of the extracts.
pub open spec fn first_in_place(found: Seq<Region>, dir: Seq<char>, name: Seq<char>, n: nat, i: int) -> bool {
    &&& 0 <= i < n
    &&& found[i].name@ == name
    &&& lies_in(dir, found[i].path@)
    &&& forall|j: int| 0 <= j < i && (#[trigger] found[j]).name@ == name ==> !lies_in(dir, found[j].path@)
}

/// Whether, of the first `n` files, the one at `i` is the first of a name, and none of
/// that name lies in the directory of the extracts.
pub open spec fn first_elsewhere(found: Seq<Region>, dir: Seq<char>, name: Seq<char>, n: nat, i: int) -> bool {
    &&& 0 <= i < n
    &&& found[i].name@ == name
    &&& forall|j: int| 0 <= j < i ==> (#[trigger] found[j]).name@ != name
    &&& forall|j: int| 0 <= j < n && (#[trigger] found[j]).name@ == name ==> !lies_in(dir, found[j].path@)
}

/// **A name stands for the first file of it that lies where it belongs**, and for the
/// first file of it at all only if none does.
pub proof fn law_a_stale_copy_is_never_picked(found: Seq<Region>, dir: Seq<char>, name: Seq<char>, n: nat)
    requires
        n <= found.len(),
    ensures
        match survivor(found, dir, name, n) {
            Some(i) => first_in_place(found, dir, name, n, i) || first_elsewhere(found, dir, name, n, i),
            None => forall|i: int| 0 <= i < n ==> (#[trigger] found[i]).name@ != name,
        },
    decreases n,
{
    if n > 0 {
        let m = (n - 1) as nat;
        law_a_stale_copy_is_never_picked(found, dir, name, m);
        if found[n - 1].name@ == name {
            if let Some(i) = survivor(found, dir, name, m) {
                assert(found[i].name@ == name);
            }
        }
    }
}

proof fn lemma_missing(wanted: Seq<String>, found: Seq<Region>, n: nat)
    requires
        n <= wanted.len(),
    ensures
        missing(wanted, found, n) == wanted.take(n as int).filter(|w: String| !region_names(found).contains(w@)).map_values(|w: String| w@),
    decreases n,
{
    reveal(Seq::filter);
    let picks = |w: String| !region_names(found).contains(w@);
    let gives = |w: String| w@;
    let front = wanted.take(n as int);
    if n == 0 {
        assert(missing(wanted, found, n) =~= front.filter(picks).map_values(gives));
    } else {
        lemma_missing(wanted, found, (n - 1) as nat);
        let earlier = wanted.take(n - 1);
        assert(front.drop_last() =~= earlier);
        assert(front.last() == wanted[n - 1]);
        if picks(wanted[n - 1]) {
            assert(front.filter(picks) == earlier.filter(picks).push(wanted[n - 1]));
            assert(front.filter(picks).map_values(gives) =~= earlier.filter(picks).map_values(gives).push(
                gives(wanted[n - 1]),
            ));
        } else {
            assert(front.filter(picks) == earlier.filter(picks));
        }
    }
}

/// **Every name that is asked for and not there is missing**, in the order they are asked
/// for in, and no other.
pub proof fn law_what_is_missing_is_named(wanted: Seq<String>, found: Seq<Region>)
    ensures
        missing(wanted, found, wanted.len()) == wanted.filter(|w: String| !region_names(found).contains(w@)).map_values(|w: String| w@),
{
    lemma_missing(wanted, found, wanted.len());
    assert(wanted.take(wanted.len() as int) =~= wanted);
}

/// **The line that is read is the first that begins as asked.**
pub proof fn law_the_first_such_line_is_read(lines: Seq<Seq<char>>, front: Seq<char>, n: int)
    requires
        0 <= n <= lines.len(),
    ensures
        match line_with(lines, front, n) {
            Some(line) => exists|i: int|
                n <= i < lines.len() && #[trigger] lines[i] == line && text::after(line, front) is Some && forall|j: int|
                    n <= j < i ==> text::after(#[trigger] lines[j], front) is None,
            None => forall|j: int| n <= j < lines.len() ==> text::after(#[trigger] lines[j], front) is None,
        },
    decreases lines.len() - n,
{
    if n < lines.len() {
        if text::after(lines[n], front) is Some {
            assert(lines[n] == lines[n]);
        } else {
            law_the_first_such_line_is_read(lines, front, n + 1);
            if let Some(line) = line_with(lines, front, n + 1) {
                let i = choose|i: int|
                    n + 1 <= i < lines.len() && #[trigger] lines[i] == line && text::after(line, front) is Some && forall|j: int|
                        n + 1 <= j < i ==> text::after(#[trigger] lines[j], front) is None;
                assert(lines[i] == line);
            }
        }
    }
}

} // verus!
