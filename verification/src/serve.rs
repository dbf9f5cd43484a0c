//! What the server answers: which builds and layers there are, what a viewer is told
//! of them, and the status and the body of every reply.

use crate::archive::Archive;
use crate::builds;
use crate::export;
use crate::names;
use crate::text;
use crate::tuning;
use crate::zones;
use crate::zones::Index;
use crate::zones::IndexError;
use crate::zones::Tier;
use vstd::prelude::*;

verus! {

/// Where everything is.
#[derive(Debug)]
pub struct Options {
    /// The directory of the archives.
    pub tiles: String,
    /// Which build is served.
    pub name: String,
    /// The index of zones. Without one, and where the file is missing, the map is
    /// served without zones.
    pub zones: Option<String>,
    /// Which tier zones are answered from; without it, the most private one.
    pub k: Option<u32>,
}

/// The place of the first of two characters at or after `from`.
pub open spec fn either(s: Seq<char>, a: char, b: char, from: int) -> Option<int>
    decreases s.len() - from,
{
    if from >= s.len() {
        None
    } else if s[from] == a || s[from] == b {
        Some(from)
    } else {
        either(s, a, b, from + 1)
    }
}

/// Where a raw value ends that a text begins with: behind the bracket that closes a
/// list, and else in front of a comma or a brace.
pub open spec fn value_end(s: Seq<char>) -> Option<int> {
    if s.len() == 0 {
        None
    } else if s[0] == '[' {
        match either(s, ']', ']', 0) {
            Some(i) => Some(i + 1),
            None => None,
        }
    } else {
        either(s, ',', '}', 0)
    }
}

/// The raw value behind a key.
pub open spec fn raw_value(meta: Seq<char>, key: Seq<char>) -> Option<Seq<char>> {
    match text::parted(meta, key) {
        Some(p) => {
            let rest = text::trimmed_start(p.1);
            match value_end(rest) {
                Some(end) => Some(text::trimmed(rest.take(end))),
                None => None,
            }
        },
        None => None,
    }
}

fn find_either(s: &Vec<char>, a: char, b: char) -> (r: Option<usize>)
    ensures
        match r {
            Some(i) => either(s@, a, b, 0) == Some(i as int) && i < s@.len(),
            None => either(s@, a, b, 0) is None,
        },
{
    let mut i: usize = 0;
    while i < s.len()
        invariant
            i <= s@.len(),
            either(s@, a, b, 0) == either(s@, a, b, i as int),
        decreases s@.len() - i,
    {
        if s[i] == a || s[i] == b {
            return Some(i);
        }
        i = i + 1;
    }
    None
}

/// One raw value out of what an archive says of itself.
pub fn json_field(meta: &str, key: &str) -> (r: Option<String>)
    ensures
        text::text_of(r) == raw_value(meta@, key@),
{
    match text::split_once(meta, key) {
        Some((_front, back)) => {
            let rest: Vec<char> = text::chars(text::trim_start(back.as_str()).as_str());
            if rest.len() == 0 {
                return None;
            }
            let end: Option<usize> = if rest[0] == '[' {
                match find_either(&rest, ']', ']') {
                    Some(i) => Some(i + 1),
                    None => None,
                }
            } else {
                find_either(&rest, ',', '}')
            };
            match end {
                Some(n) => {
                    let value: String = text::string_of(&rest, 0, n);
                    assert(value@ =~= rest@.take(n as int));
                    Some(text::trim(value.as_str()))
                },
                None => None,
            }
        },
        None => None,
    }
}

/// The quoted text behind a key.
pub open spec fn quoted_value(meta: Seq<char>, key: Seq<char>) -> Option<Seq<char>> {
    match text::parted(meta, key) {
        Some(p) => match text::after(text::trimmed_start(p.1), "\""@) {
            Some(rest) => match text::parted(rest, "\""@) {
                Some(q) => Some(q.0),
                None => None,
            },
            None => None,
        },
        None => None,
    }
}

/// One quoted text out of what an archive says of itself.
pub fn json_string(meta: &str, key: &str) -> (r: Option<String>)
    ensures
        text::text_of(r) == quoted_value(meta@, key@),
{
    match text::split_once(meta, key) {
        Some((_front, back)) => {
            let value: String = text::trim_start(back.as_str());
            match text::strip_prefix(value.as_str(), "\"") {
                Some(rest) => match text::split_once(rest.as_str(), "\"") {
                    Some((inner, _tail)) => Some(inner),
                    None => None,
                },
                None => None,
            }
        },
        None => None,
    }
}

/// The levels from one to another.
pub open spec fn levels(lo: u8, hi: u8) -> Seq<u8> {
    Seq::new(
        (if lo <= hi {
            hi - lo + 1
        } else {
            0
        }) as nat,
        |i: int| (lo + i) as u8,
    )
}

/// The levels an archive holds: what it says of itself, or all of its range.
pub open spec fn rungs_of(meta: Seq<char>, lo: u8, hi: u8) -> Seq<char> {
    match raw_value(meta, "\"rungs\":"@) {
        Some(list) => list,
        None => "["@ + text::joined(tuning::numbers(levels(lo, hi)), ","@) + "]"@,
    }
}

/// The levels an archive holds, as a list.
pub fn rungs(meta: &str, lo: u8, hi: u8) -> (out: String)
    ensures
        out@ == rungs_of(meta@, lo, hi),
{
    match json_field(meta, "\"rungs\":") {
        Some(list) => list,
        None => {
            let mut all: Vec<u8> = Vec::new();
            if lo <= hi {
                let mut z: u8 = lo;
                while z < hi
                    invariant
                        lo <= z <= hi,
                        all@ =~= levels(lo, hi).take(z - lo),
                    decreases hi - z,
                {
                    all.push(z);
                    z = z + 1;
                }
                all.push(hi);
            }
            assert(all@ =~= levels(lo, hi));
            let mut out: String = "[".to_owned();
            let list: String = tuning::csv(all.as_slice());
            out.push_str(list.as_str());
            out.push_str("]");
            out
        },
    }
}

/// The mark of an archive's content: its size and when it was last changed.
pub open spec fn etag_of(bytes: u64, changed: u64) -> Seq<char> {
    "\""@ + text::hex(bytes as nat) + "-"@ + text::hex(changed as nat) + "\""@
}

/// The mark of an archive's content, which changes whenever another archive is put in
/// its place.
pub fn etag(bytes: u64, changed: u64) -> (out: String)
    ensures
        out@ == etag_of(bytes, changed),
{
    let mut out: String = "\"".to_owned();
    text::put_hex(&mut out, bytes);
    out.push_str("-");
    text::put_hex(&mut out, changed);
    out.push_str("\"");
    out
}

/// Whether one of the marks that a client holds is this one.
pub open spec fn holds(held: Seq<char>, etag: Seq<char>) -> bool {
    exists|i: int|
        0 <= i < text::pieces(held, ',').len() && text::trimmed(#[trigger] text::pieces(held, ',')[i]) == etag
}

/// Whether a client holds this very content already.
pub fn is_held(held: &str, etag: &str) -> (r: bool)
    ensures
        r == holds(held@, etag@),
{
    let list: Vec<String> = text::split(held, ',');
    let mut i: usize = 0;
    while i < list.len()
        invariant
            i <= list@.len(),
            text::texts(list@) == text::pieces(held@, ','),
            forall|j: int| 0 <= j < i ==> text::trimmed(#[trigger] text::pieces(held@, ',')[j]) != etag@,
        decreases list@.len() - i,
    {
        let one: String = text::trim(list[i].as_str());
        assert(text::texts(list@)[i as int] == list@[i as int]@);
        if text::same(one.as_str(), etag) {
            return true;
        }
        i = i + 1;
    }
    false
}

/// A layer that is served: its archive, and what a client needs to know of it.
pub struct Layer {
    pub name: String,
    pub archive: Archive,
    /// The zoom levels it holds, as a list.
    pub rungs: String,
    /// The mark of its content. It is the layer's own, so a change to one layer leaves
    /// the others valid.
    pub etag: String,
    pub bytes: u64,
}

impl Layer {
    /// A layer of an archive of so many bytes that was last changed at a time.
    pub fn new(name: &str, archive: Archive, bytes: u64, changed: u64) -> (layer: Layer)
        ensures
            layer.name@ == name@,
            layer.archive == archive,
            layer.rungs@ == rungs_of(archive.metadata@, archive.header.min_zoom, archive.header.max_zoom),
            layer.etag@ == etag_of(bytes, changed),
            layer.bytes == bytes,
    {
        let list: String = rungs(archive.metadata.as_str(), archive.header.min_zoom, archive.header.max_zoom);
        Layer { name: name.to_owned(), rungs: list, etag: etag(bytes, changed), archive, bytes }
    }
}

/// The zones that are served: the index, and the tier that every answer comes from.
pub struct Anon {
    pub index: Index,
    pub tier: usize,
}

/// A server that is open: the layers of one build, in draw order, and maybe zones.
pub struct MapServer {
    pub name: String,
    pub layers: Vec<Layer>,
    pub anon: Option<Anon>,
}

/// Why zones cannot be served.
#[derive(Debug)]
pub enum ZonesError {
    /// The index cannot be read.
    Index(IndexError),
    /// There is no tier for what was asked; these are there.
    NoTier(Vec<u32>),
}

/// A number that may be missing, as it is shown.
pub open spec fn shown(k: Option<u32>) -> Seq<char> {
    match k {
        Some(n) => "Some("@ + text::decimal(n as nat) + ")"@,
        None => "None"@,
    }
}

/// What is said where a tier is missing. `$a` is the tier that was asked for, `$b` the
/// index and `$c` the tiers it has.
pub const NO_TIER: &'static str = "no tier for k=$a in $b; baked tiers are [$c]";

/// What is said where a tier is missing from the only index there is. `$a` is the tier
/// that was asked for and `$b` the tiers it has.
pub const NO_SUCH_TIER: &'static str = "no tier for k=$a; baked tiers are [$b]";

/// Tiers as they are shown.
pub open spec fn tier_texts(tiers: Seq<u32>) -> Seq<Seq<char>> {
    tiers.map_values(|k: u32| text::decimal(k as nat))
}

impl ZonesError {
    /// What is said of the error.
    pub open spec fn words(self, path: Seq<char>, k: Option<u32>) -> Seq<char> {
        match self {
            ZonesError::Index(e) => path + ": "@ + e.words(),
            ZonesError::NoTier(tiers) => text::filled(
                NO_TIER@,
                seq![shown(k), path, text::joined(tier_texts(tiers@), ", "@)],
            ),
        }
    }

    /// What is said of the error in the index at `path`, where tier `k` was asked for.
    pub fn message(&self, path: &str, k: Option<u32>) -> (out: String)
        ensures
            out@ == self.words(path@, k),
    {
        match self {
            ZonesError::Index(e) => {
                let mut out: String = path.to_owned();
                out.push_str(": ");
                let why: String = e.message();
                out.push_str(why.as_str());
                out
            },
            ZonesError::NoTier(tiers) => {
                let asked: String = show(k);
                let there: String = join_tiers(tiers);
                let values: [&str; 3] = [asked.as_str(), path, there.as_str()];
                assert(text::strs(values@) =~= seq![asked@, path@, there@]);
                text::fill(NO_TIER, &values)
            },
        }
    }

    /// What is said of the error by a server of a single index, which has no need to
    /// tell which one it means.
    pub open spec fn sole_words(self, k: Option<u32>) -> Seq<char> {
        match self {
            ZonesError::Index(e) => e.words(),
            ZonesError::NoTier(tiers) => text::filled(
                NO_SUCH_TIER@,
                seq![shown(k), text::joined(tier_texts(tiers@), ", "@)],
            ),
        }
    }

    /// What is said of the error by a server of a single index, where tier `k` was asked
    /// for.
    pub fn sole_message(&self, k: Option<u32>) -> (out: String)
        ensures
            out@ == self.sole_words(k),
    {
        match self {
            ZonesError::Index(e) => e.message(),
            ZonesError::NoTier(tiers) => {
                let asked: String = show(k);
                let there: String = join_tiers(tiers);
                let values: [&str; 2] = [asked.as_str(), there.as_str()];
                assert(text::strs(values@) =~= seq![asked@, there@]);
                text::fill(NO_SUCH_TIER, &values)
            },
        }
    }
}

/// A tier that was asked for, as it is shown.
fn show(k: Option<u32>) -> (out: String)
    ensures
        out@ == shown(k),
{
    match k {
        Some(n) => {
            let mut s: String = "Some(".to_owned();
            text::put_decimal(&mut s, n as u64);
            s.push_str(")");
            s
        },
        None => "None".to_owned(),
    }
}

/// Tiers as they are shown, in a row.
fn join_tiers(tiers: &Vec<u32>) -> (out: String)
    ensures
        out@ == text::joined(tier_texts(tiers@), ", "@),
{
    let mut parts: Vec<String> = Vec::new();
    let mut i: usize = 0;
    while i < tiers.len()
        invariant
            i <= tiers@.len(),
            text::texts(parts@) =~= tier_texts(tiers@).take(i as int),
        decreases tiers@.len() - i,
    {
        let part: String = text::number(tiers[i] as u64);
        let ghost said = part@;
        let ghost before = text::texts(parts@);
        parts.push(part);
        assert(text::texts(parts@) =~= before.push(said));
        i = i + 1;
    }
    assert(tier_texts(tiers@).take(i as int) =~= tier_texts(tiers@));
    text::join(&parts, ", ")
}

/// The tiers of an index.
pub open spec fn tiers_of(index: Index) -> Seq<u32> {
    index.tiers@.map_values(|t: Tier| t.k)
}

/// Reads an index of zones and settles which tier is answered from, once and for all
/// requests. A file that cannot be read is refused: a broken index should stop a
/// server, and not be served wrongly.
pub fn open_zones(file: &[u8], k: Option<u32>) -> (r: Result<Anon, ZonesError>)
    ensures
        match r {
            Ok(a) => {
                &&& zones::parsed(file@) == Ok::<zones::Layout, IndexError>(a.index@)
                &&& a.index@.wf() && a.index@.fits(file@)
                &&& a.tier < a.index.tiers@.len()
                &&& k is Some ==> a.index.tiers@[a.tier as int].k == k->0
                &&& k is Some ==> forall|j: int| 0 <= j < a.tier ==> (#[trigger] a.index.tiers@[j]).k != k->0
                &&& k is None ==> forall|j: int|
                    0 <= j < a.index.tiers@.len() ==> (#[trigger] a.index.tiers@[j]).k <= a.index.tiers@[a.tier as int].k
                &&& k is None ==> forall|j: int|
                    a.tier < j < a.index.tiers@.len() ==> (#[trigger] a.index.tiers@[j]).k
                        < a.index.tiers@[a.tier as int].k
            },
            Err(ZonesError::Index(e)) => zones::parsed(file@) == Err::<zones::Layout, IndexError>(e),
            Err(ZonesError::NoTier(tiers)) => {
                &&& k is Some
                &&& zones::parsed(file@) is Ok
                &&& tiers@ == zones::parsed(file@)->Ok_0.tiers.map_values(|t: Tier| t.k)
                &&& !tiers@.contains(k->0)
            },
        },
{
    let index: Index = match Index::parse(file) {
        Ok(index) => index,
        Err(e) => {
            return Err(ZonesError::Index(e));
        },
    };
    match index.tier(k) {
        Some(tier) => Ok(Anon { index, tier }),
        None => {
            let mut tiers: Vec<u32> = Vec::new();
            let mut i: usize = 0;
            while i < index.tiers.len()
                invariant
                    i <= index.tiers@.len(),
                    tiers@ =~= tiers_of(index).take(i as int),
                decreases index.tiers@.len() - i,
            {
                tiers.push(index.tiers[i].k);
                i = i + 1;
            }
            assert(tiers@ =~= tiers_of(index));
            proof {
                if k is Some && tiers@.contains(k->0) {
                    let j = choose|j: int| 0 <= j < tiers@.len() && tiers@[j] == k->0;
                    assert(index.tiers@[j].k == k->0);
                }
            }
            Err(ZonesError::NoTier(tiers))
        },
    }
}

/// Why a server does not open.
#[derive(Debug)]
pub enum OpenError {
    /// There is no archive of any build.
    NoBuilds,
    /// There is no such build; these are there.
    NoSuchBuild(Vec<String>),
}

/// What is said where there is no archive. `$a` is the directory.
pub const NO_ARCHIVES: &'static str = "no <name>.<layer>.pmtiles in $a -- run `make all` first";

/// What is said where a build is not there. `$a` is the build, `$b` the directory and
/// `$c` the builds in it.
pub const NO_SUCH_BUILD: &'static str = "no build $a in $b, only $c -- run `make all` first";

/// What is said where nobody said which of several builds to serve. `$a` is the
/// directory and `$b` the builds in it.
pub const SEVERAL_BUILDS: &'static str = "several builds in $a: $b -- say which with MINIMAP_NAME (make serve NAME=...)";

impl OpenError {
    /// What is said of the error.
    pub open spec fn words(self, name: Seq<char>, tiles: Seq<char>) -> Seq<char> {
        match self {
            OpenError::NoBuilds => text::filled(NO_ARCHIVES@, seq![tiles]),
            OpenError::NoSuchBuild(list) => text::filled(
                NO_SUCH_BUILD@,
                seq![name, tiles, text::joined(text::texts(list@), ", "@)],
            ),
        }
    }

    /// What is said of the error.
    pub fn message(&self, name: &str, tiles: &str) -> (out: String)
        ensures
            out@ == self.words(name@, tiles@),
    {
        match self {
            OpenError::NoBuilds => {
                let values: [&str; 1] = [tiles];
                assert(text::strs(values@) =~= seq![tiles@]);
                text::fill(NO_ARCHIVES, &values)
            },
            OpenError::NoSuchBuild(list) => {
                let there: String = text::join(list, ", ");
                let values: [&str; 3] = [name, tiles, there.as_str()];
                assert(text::strs(values@) =~= seq![name@, tiles@, there@]);
                text::fill(NO_SUCH_BUILD, &values)
            },
        }
    }
}

/// Whether a list of names is that of the builds in a directory.
pub open spec fn are_builds(list: Seq<Seq<char>>, files: Seq<String>) -> bool {
    &&& names::strictly_ascending(list)
    &&& forall|b: Seq<char>|
        list.contains(b) <==> exists|i: int|
            0 <= i < files.len() && builds::build_of(#[trigger] files[i]@) == Some(b)
}

/// Finds the archives of a build among the files of a directory, in the order they are
/// drawn in. A map without a layer is refused, and one that is not there is answered
/// with those that are.
pub fn archives(files: &Vec<String>, name: &str) -> (r: Result<Vec<usize>, OpenError>)
    ensures
        builds::in_draw_order(files@, name@).len() > 0 ==> r is Ok && r->Ok_0@ == builds::in_draw_order(
            files@,
            name@,
        ),
        builds::in_draw_order(files@, name@).len() == 0 ==> r is Err && match r->Err_0 {
            OpenError::NoBuilds => are_builds(Seq::empty(), files@),
            OpenError::NoSuchBuild(list) => list@.len() > 0 && are_builds(text::texts(list@), files@),
        },
{
    let found: Vec<usize> = builds::layers_of(files, name);
    if found.len() > 0 {
        return Ok(found);
    }
    let there: Vec<String> = builds::builds(files);
    if there.len() == 0 {
        assert(text::texts(there@) =~= Seq::empty());
        Err(OpenError::NoBuilds)
    } else {
        Err(OpenError::NoSuchBuild(there))
    }
}

/// Which build to serve where none is named.
#[derive(Debug)]
pub enum Choice {
    /// The only one there is.
    One(String),
    /// There is none.
    Nothing,
    /// There are several, and nobody said which.
    Several,
}

/// Picks the build to serve where none is named: the only one. Which of several is a
/// choice that nobody should make silently.
pub fn choose_build(there: &Vec<String>) -> (r: Choice)
    ensures
        match r {
            Choice::One(name) => there@.len() == 1 && name@ == there@[0]@,
            Choice::Nothing => there@.len() == 0,
            Choice::Several => there@.len() > 1,
        },
{
    if there.len() == 0 {
        Choice::Nothing
    } else if there.len() == 1 {
        Choice::One(there[0].clone())
    } else {
        Choice::Several
    }
}

/// The place of a layer among those that are served.
pub open spec fn layer_at(layers: Seq<Layer>, name: Seq<char>, from: int) -> Option<int>
    decreases layers.len() - from,
{
    if from >= layers.len() {
        None
    } else if layers[from].name@ == name {
        Some(from)
    } else {
        layer_at(layers, name, from + 1)
    }
}

/// What becomes of a request for a tile before the archive is looked into.
#[derive(Clone, Copy, Debug, PartialEq, Eq, Structural)]
pub enum Lookup {
    /// This build has no such layer: there is no use in asking again.
    NoSuchLayer,
    /// The client holds the content already.
    NotModified,
    /// The tile is in the archive of this layer, if it is anywhere.
    In(usize),
}

/// The status of a reply.
pub open spec fn status_of(lookup: Lookup, found: bool) -> u16 {
    match lookup {
        Lookup::NoSuchLayer => 404,
        Lookup::NotModified => 304,
        Lookup::In(_) => if found {
            200
        } else {
            204
        },
    }
}

/// The status of a reply to a request for a tile. That a tile is absent is no error: a
/// layer does not fill its extent.
pub fn tile_status(lookup: Lookup, found: bool) -> (r: u16)
    ensures
        r == status_of(lookup, found),
{
    match lookup {
        Lookup::NoSuchLayer => 404,
        Lookup::NotModified => 304,
        Lookup::In(_) => if found {
            200
        } else {
            204
        },
    }
}

/// Headers as plain values: the name and the value of each.
pub open spec fn header_texts(headers: Seq<(&str, String)>) -> Seq<(Seq<char>, Seq<char>)> {
    headers.map_values(|h: (&str, String)| (h.0@, h.1@))
}

/// The headers of a reply to a request for a tile. The content goes out gzipped, as it
/// is stored; a week passes before a client asks again, and then it shows its mark.
pub open spec fn tile_head(status: u16, etag: Seq<char>) -> Seq<(Seq<char>, Seq<char>)> {
    if status == 200 {
        seq![
            ("content-type"@, "application/vnd.mapbox-vector-tile"@),
            ("content-encoding"@, "gzip"@),
            ("cache-control"@, "public, max-age=604800"@),
            ("etag"@, etag),
        ]
    } else {
        Seq::empty()
    }
}

/// The headers of a reply to a request for a tile, by its status and the mark of the
/// archive.
pub fn tile_headers(status: u16, etag: &str) -> (out: Vec<(&'static str, String)>)
    ensures
        header_texts(out@) == tile_head(status, etag@),
{
    let mut out: Vec<(&'static str, String)> = Vec::new();
    if status == 200 {
        out.push(("content-type", "application/vnd.mapbox-vector-tile".to_owned()));
        out.push(("content-encoding", "gzip".to_owned()));
        out.push(("cache-control", "public, max-age=604800".to_owned()));
        out.push(("etag", etag.to_owned()));
    }
    assert(header_texts(out@) =~= tile_head(status, etag@));
    out
}

/// The headers of a reply in JSON.
pub open spec fn json_head() -> Seq<(Seq<char>, Seq<char>)> {
    seq![("content-type"@, "application/json"@)]
}

/// The headers of a reply in JSON.
pub fn json_headers() -> (out: Vec<(&'static str, String)>)
    ensures
        header_texts(out@) == json_head(),
{
    let mut out: Vec<(&'static str, String)> = Vec::new();
    out.push(("content-type", "application/json".to_owned()));
    assert(header_texts(out@) =~= json_head());
    out
}

/// The headers of a reply to a request for a zone. An answer may be kept, but only where
/// the position already is: a shared cache of positions is the log that is never
/// written. A refusal says nothing of how long it holds.
pub open spec fn zone_head(refused: bool) -> Seq<(Seq<char>, Seq<char>)> {
    if refused {
        json_head()
    } else {
        json_head().push(("cache-control"@, "private, max-age=3600"@))
    }
}

/// The headers of a reply to a request for a zone.
pub fn zone_headers(refused: bool) -> (out: Vec<(&'static str, String)>)
    ensures
        header_texts(out@) == zone_head(refused),
{
    let mut out: Vec<(&'static str, String)> = json_headers();
    if !refused {
        let ghost before = header_texts(out@);
        out.push(("cache-control", "private, max-age=3600".to_owned()));
        assert(header_texts(out@) =~= before.push(("cache-control"@, "private, max-age=3600"@)));
    }
    out
}

/// The line that a layer has in the report. `$a` is its name, `$b` how many tiles it
/// has, `$c` and `$d` its levels and `$e` its size.
pub const LAYER_LINE: &'static str = "  $a $b tiles  z$c..$d  $e MB\n";

/// The line that the zones have in the report: `$a` is their name, `$b` how many there
/// are, `$c` how many buildings each holds and `$d` the size of the index.
pub const ZONES_LINE: &'static str = "  $a $b zones  k=$c $d MB\n";

/// The line of a layer, where `megabytes` is its size.
pub open spec fn layer_line(layer: Layer, megabytes: Seq<char>) -> Seq<char> {
    text::filled(
        LAYER_LINE@,
        seq![
            text::left(layer.name@, 12),
            text::right(text::decimal(layer.archive.header.tile_count as nat), 9),
            text::decimal(layer.archive.header.min_zoom as nat),
            text::decimal(layer.archive.header.max_zoom as nat),
            text::right(megabytes, 8),
        ],
    )
}

/// The lines of the first `n` layers.
pub open spec fn layer_lines(layers: Seq<Layer>, megabytes: Seq<String>, n: nat) -> Seq<char>
    decreases n,
{
    if n == 0 {
        Seq::empty()
    } else {
        layer_lines(layers, megabytes, (n - 1) as nat) + layer_line(layers[n - 1], megabytes[n - 1]@)
    }
}

/// What is reported of the zones.
pub open spec fn zones_line(anon: Option<Anon>, megabytes: Seq<char>) -> Seq<char> {
    match anon {
        Some(a) => text::filled(
            ZONES_LINE@,
            seq![
                text::left("anon"@, 12),
                text::right(text::decimal(a.index.tiers@[a.tier as int].zones as nat), 9),
                text::left(text::decimal(a.index.tiers@[a.tier as int].k as nat), 10),
                text::right(megabytes, 8),
            ],
        ),
        None => "  anon: no index -- `make anon` enables /zone\n"@,
    }
}

/// The line of a layer.
fn put_layer_line(out: &mut String, layer: &Layer, megabytes: &str)
    ensures
        final(out)@ == old(out)@ + layer_line(*layer, megabytes@),
{
    let mut name: String = String::new();
    text::put_left(&mut name, layer.name.as_str(), 12);
    let count: String = text::number(layer.archive.header.tile_count);
    let mut tiles: String = String::new();
    text::put_right(&mut tiles, count.as_str(), 9);
    let lo: String = text::number(layer.archive.header.min_zoom as u64);
    let hi: String = text::number(layer.archive.header.max_zoom as u64);
    let mut size: String = String::new();
    text::put_right(&mut size, megabytes, 8);
    let values: [&str; 5] = [name.as_str(), tiles.as_str(), lo.as_str(), hi.as_str(), size.as_str()];
    assert(name@ =~= text::left(layer.name@, 12));
    assert(tiles@ =~= text::right(count@, 9));
    assert(size@ =~= text::right(megabytes@, 8));
    assert(text::strs(values@) =~= seq![name@, tiles@, lo@, hi@, size@]);
    let line: String = text::fill(LAYER_LINE, &values);
    out.push_str(line.as_str());
}

/// The widest level of the first `n` layers.
pub open spec fn lowest(layers: Seq<Layer>, n: nat) -> u8
    decreases n,
{
    if n == 0 {
        u8::MAX
    } else {
        let z = layers[n - 1].archive.header.min_zoom;
        let rest = lowest(layers, (n - 1) as nat);
        if z < rest {
            z
        } else {
            rest
        }
    }
}

/// The deepest level of the first `n` layers.
pub open spec fn highest(layers: Seq<Layer>, n: nat) -> u8
    decreases n,
{
    if n == 0 {
        0
    } else {
        let z = layers[n - 1].archive.header.max_zoom;
        let rest = highest(layers, (n - 1) as nat);
        if z > rest {
            z
        } else {
            rest
        }
    }
}

/// What a viewer is told of a layer. `$a` is its name, `$b` its levels, and `$c` and
/// `$d` the first and the last of them.
pub const LAYER_JSON: &'static str = "{\"name\":\"$a\",\"rungs\":$b,\"minzoom\":$c,\"maxzoom\":$d}";

/// What a viewer is told of a layer.
pub open spec fn layer_json(layer: Layer) -> Seq<char> {
    text::filled(
        LAYER_JSON@,
        seq![
            layer.name@,
            layer.rungs@,
            text::decimal(layer.archive.header.min_zoom as nat),
            text::decimal(layer.archive.header.max_zoom as nat),
        ],
    )
}

fn layer_text(layer: &Layer) -> (out: String)
    ensures
        out@ == layer_json(*layer),
{
    let lo: String = text::number(layer.archive.header.min_zoom as u64);
    let hi: String = text::number(layer.archive.header.max_zoom as u64);
    let values: [&str; 4] = [layer.name.as_str(), layer.rungs.as_str(), lo.as_str(), hi.as_str()];
    assert(text::strs(values@) =~= seq![layer.name@, layer.rungs@, lo@, hi@]);
    text::fill(LAYER_JSON, &values)
}

/// The extent of the map and its middle, as numbers with a fraction are written.
pub struct Bounds<'a> {
    pub west: &'a str,
    pub south: &'a str,
    pub east: &'a str,
    pub north: &'a str,
    pub center_lon: &'a str,
    pub center_lat: &'a str,
}

/// What a viewer is told of the map: `$a` and `$b` are its levels, `$c` to `$f` its
/// extent, `$g` and `$h` its middle, `$i` whether it has zones, `$j` its layers and
/// `$k` who made it.
pub const META: &'static str = "{\"tilejson\":\"3.0.0\",\"scheme\":\"xyz\",\"tiles\":[\"tiles/{layer}/{z}/{x}/{y}\"],
\"minzoom\":$a,\"maxzoom\":$b,\"bounds\":[$c,$d,$e,$f],\"center\":[$g,$h,$a],$i
\"layers\":[
  $j
],
\"attribution\":\"$k\"}";

/// What a viewer is told of a map in a single archive: `$a` and `$b` are its levels,
/// `$c` to `$f` its extent, `$g` to `$i` its middle and `$j` who made it.
pub const ARCHIVE_META: &'static str = "{\"tilejson\":\"3.0.0\",\"scheme\":\"xyz\",\"tiles\":[\"/tiles/{z}/{x}/{y}\"],
\"minzoom\":$a,\"maxzoom\":$b,\"bounds\":[$c,$d,$e,$f],\"center\":[$g,$h,$i],
\"attribution\":\"$j\"}";

/// Who made the map, as an archive says, or else as the data's licence asks.
pub open spec fn attribution_of(meta: Seq<char>) -> Seq<char> {
    match quoted_value(meta, "\"attribution\":"@) {
        Some(s) => s,
        None => "© OpenStreetMap contributors"@,
    }
}

/// Who made the map.
pub fn attribution(meta: &str) -> (out: String)
    ensures
        out@ == attribution_of(meta@),
{
    match json_string(meta, "\"attribution\":") {
        Some(s) => s,
        None => "© OpenStreetMap contributors".to_owned(),
    }
}

/// What a viewer is told of the zones: how many buildings each holds. It is told of
/// them only where they are answered.
pub open spec fn anon_json(anon: Option<Anon>) -> Seq<char> {
    match anon {
        Some(a) => "\n\"anon\":{\"k\":"@ + text::decimal(a.index.tiers@[a.tier as int].k as nat) + "},"@,
        None => ""@,
    }
}

impl MapServer {
    /// The layers have a build, and the tier is one of the index.
    pub open spec fn wf(self) -> bool {
        &&& self.layers@.len() > 0
        &&& self.anon matches Some(a) ==> a.tier < a.index.tiers@.len()
    }

    /// Opens a server on the layers of a build, in the order they are drawn in.
    pub fn open(name: &str, layers: Vec<Layer>, anon: Option<Anon>) -> (r: Option<MapServer>)
        requires
            anon matches Some(a) ==> a.tier < a.index.tiers@.len(),
        ensures
            r is None <==> layers@.len() == 0,
            r matches Some(s) ==> s.wf() && s.name@ == name@ && s.layers == layers && s.anon == anon,
    {
        if layers.len() == 0 {
            return None;
        }
        Some(MapServer { name: name.to_owned(), layers, anon })
    }

    /// Looks a layer up for a request for a tile, along with the marks of content that
    /// the client holds.
    pub fn find(&self, layer: &str, held: Option<&str>) -> (r: Lookup)
        ensures
            r == (match layer_at(self.layers@, layer@, 0) {
                None => Lookup::NoSuchLayer,
                Some(i) => if held is Some && holds(held->0@, self.layers@[i].etag@) {
                    Lookup::NotModified
                } else {
                    Lookup::In(i as usize)
                },
            }),
            r matches Lookup::In(i) ==> i < self.layers@.len() && self.layers@[i as int].name@ == layer@,
    {
        let mut i: usize = 0;
        while i < self.layers.len()
            invariant
                i <= self.layers@.len(),
                layer_at(self.layers@, layer@, 0) == layer_at(self.layers@, layer@, i as int),
            decreases self.layers@.len() - i,
        {
            if text::same(self.layers[i].name.as_str(), layer) {
                if let Some(marks) = held {
                    if is_held(marks, self.layers[i].etag.as_str()) {
                        return Lookup::NotModified;
                    }
                }
                return Lookup::In(i);
            }
            i = i + 1;
        }
        Lookup::NoSuchLayer
    }

    /// What got opened, one line per layer: `megabytes` are the sizes of the layers, and
    /// `index` that of the zones.
    pub fn report(&self, megabytes: &Vec<String>, index: &str) -> (out: String)
        requires
            self.wf(),
            megabytes@.len() == self.layers@.len(),
        ensures
            out@ == "  build "@ + self.name@ + "\n"@ + layer_lines(self.layers@, megabytes@, self.layers@.len())
                + zones_line(self.anon, index@),
    {
        let mut out: String = "  build ".to_owned();
        out.push_str(self.name.as_str());
        out.push_str("\n");
        let ghost top = out@;
        let mut i: usize = 0;
        assert(top =~= top + layer_lines(self.layers@, megabytes@, 0));
        while i < self.layers.len()
            invariant
                i <= self.layers@.len(),
                megabytes@.len() == self.layers@.len(),
                out@ == top + layer_lines(self.layers@, megabytes@, i as nat),
            decreases self.layers@.len() - i,
        {
            let ghost before = out@;
            put_layer_line(&mut out, &self.layers[i], megabytes[i].as_str());
            assert(out@ =~= top + layer_lines(self.layers@, megabytes@, (i + 1) as nat));
            i = i + 1;
        }
        match &self.anon {
            Some(a) => {
                let tier: Tier = a.index.tiers[a.tier];
                let mut name: String = String::new();
                text::put_left(&mut name, "anon", 12);
                let count: String = text::number(tier.zones as u64);
                let mut zones: String = String::new();
                text::put_right(&mut zones, count.as_str(), 9);
                let each: String = text::number(tier.k as u64);
                let mut k: String = String::new();
                text::put_left(&mut k, each.as_str(), 10);
                let mut size: String = String::new();
                text::put_right(&mut size, index, 8);
                let values: [&str; 4] = [name.as_str(), zones.as_str(), k.as_str(), size.as_str()];
                assert(name@ =~= text::left("anon"@, 12));
                assert(zones@ =~= text::right(count@, 9));
                assert(k@ =~= text::left(each@, 10));
                assert(size@ =~= text::right(index@, 8));
                assert(text::strs(values@) =~= seq![name@, zones@, k@, size@]);
                let line: String = text::fill(ZONES_LINE, &values);
                out.push_str(line.as_str());
            },
            None => {
                out.push_str("  anon: no index -- `make anon` enables /zone\n");
            },
        }
        out
    }

    /// What a viewer is told of the map.
    pub open spec fn meta(self, bounds: Bounds<'_>) -> Seq<char> {
        text::filled(
            META@,
            seq![
                text::decimal(lowest(self.layers@, self.layers@.len()) as nat),
                text::decimal(highest(self.layers@, self.layers@.len()) as nat),
                bounds.west@,
                bounds.south@,
                bounds.east@,
                bounds.north@,
                bounds.center_lon@,
                bounds.center_lat@,
                anon_json(self.anon),
                text::joined(self.layers@.map_values(|l: Layer| layer_json(l)), ",\n  "@),
                attribution_of(self.layers@[0].archive.metadata@),
            ],
        )
    }

    /// What a viewer is told of the map: its levels and its extent are those of all its
    /// layers together, and its layers come in draw order.
    pub fn meta_json(&self, bounds: &Bounds<'_>) -> (out: String)
        requires
            self.wf(),
        ensures
            out@ == self.meta(*bounds),
    {
        let mut lo: u8 = u8::MAX;
        let mut hi: u8 = 0;
        let mut parts: Vec<String> = Vec::new();
        let mut i: usize = 0;
        let ghost want = self.layers@.map_values(|l: Layer| layer_json(l));
        while i < self.layers.len()
            invariant
                i <= self.layers@.len(),
                want == self.layers@.map_values(|l: Layer| layer_json(l)),
                lo == lowest(self.layers@, i as nat),
                hi == highest(self.layers@, i as nat),
                text::texts(parts@) =~= want.take(i as int),
            decreases self.layers@.len() - i,
        {
            let layer: &Layer = &self.layers[i];
            if layer.archive.header.min_zoom < lo {
                lo = layer.archive.header.min_zoom;
            }
            if layer.archive.header.max_zoom > hi {
                hi = layer.archive.header.max_zoom;
            }
            let part: String = layer_text(layer);
            let ghost shown = part@;
            let ghost before = text::texts(parts@);
            parts.push(part);
            assert(text::texts(parts@) =~= before.push(shown));
            i = i + 1;
        }
        assert(want.take(i as int) =~= want);
        let first: String = text::number(lo as u64);
        let last: String = text::number(hi as u64);
        let layers: String = text::join(&parts, ",\n  ");
        let by: String = attribution(self.layers[0].archive.metadata.as_str());
        let mut anon: String = "".to_owned();
        if let Some(a) = &self.anon {
            anon = "\n\"anon\":{\"k\":".to_owned();
            text::put_decimal(&mut anon, a.index.tiers[a.tier].k as u64);
            anon.push_str("},");
        }
        let values: [&str; 11] = [
            first.as_str(),
            last.as_str(),
            bounds.west,
            bounds.south,
            bounds.east,
            bounds.north,
            bounds.center_lon,
            bounds.center_lat,
            anon.as_str(),
            layers.as_str(),
            by.as_str(),
        ];
        assert(text::strs(values@) =~= seq![
            first@,
            last@,
            bounds.west@,
            bounds.south@,
            bounds.east@,
            bounds.north@,
            bounds.center_lon@,
            bounds.center_lat@,
            anon@,
            layers@,
            by@,
        ]);
        text::fill(META, &values)
    }
}

/// What a viewer is told of a map in a single archive.
pub open spec fn archive_meta(archive: Archive, bounds: Bounds<'_>) -> Seq<char> {
    text::filled(
        ARCHIVE_META@,
        seq![
            text::decimal(archive.header.min_zoom as nat),
            text::decimal(archive.header.max_zoom as nat),
            bounds.west@,
            bounds.south@,
            bounds.east@,
            bounds.north@,
            bounds.center_lon@,
            bounds.center_lat@,
            text::decimal(archive.header.center_zoom as nat),
            attribution_of(archive.metadata@),
        ],
    )
}

/// What a viewer is told of a map in a single archive.
pub fn archive_json(archive: &Archive, bounds: &Bounds<'_>) -> (out: String)
    ensures
        out@ == archive_meta(*archive, *bounds),
{
    let lo: String = text::number(archive.header.min_zoom as u64);
    let hi: String = text::number(archive.header.max_zoom as u64);
    let at: String = text::number(archive.header.center_zoom as u64);
    let by: String = attribution(archive.metadata.as_str());
    let values: [&str; 10] = [
        lo.as_str(),
        hi.as_str(),
        bounds.west,
        bounds.south,
        bounds.east,
        bounds.north,
        bounds.center_lon,
        bounds.center_lat,
        at.as_str(),
        by.as_str(),
    ];
    assert(text::strs(values@) =~= seq![
        lo@,
        hi@,
        bounds.west@,
        bounds.south@,
        bounds.east@,
        bounds.north@,
        bounds.center_lon@,
        bounds.center_lat@,
        at@,
        by@,
    ]);
    text::fill(ARCHIVE_META, &values)
}

/// The address that a page's own requests start from.
pub open spec fn base_of(path: Seq<char>) -> Seq<char> {
    if path.len() > 0 && path.last() == '/' {
        path
    } else {
        path + "/"@
    }
}

/// The page with the address that its own requests start from, at the start of its
/// head: the same page then works under any prefix.
pub open spec fn shell_of(page: Seq<char>, path: Seq<char>) -> Seq<char> {
    let base = "<base href=\""@ + base_of(path) + "\">"@;
    match text::parted(page, "<head>"@) {
        Some(p) => p.0 + "<head>"@ + base + p.1,
        None => base + page,
    }
}

/// The page as it is served under a path.
pub fn shell(page: &str, path: &str) -> (out: String)
    ensures
        out@ == shell_of(page@, path@),
{
    let at: Vec<char> = text::chars(path);
    let mut base: String = "<base href=\"".to_owned();
    let mut from: String = path.to_owned();
    if at.len() == 0 || at[at.len() - 1] != '/' {
        from.push_str("/");
    }
    base.push_str(from.as_str());
    base.push_str("\">");
    match text::split_once(page, "<head>") {
        Some((front, back)) => {
            let mut out: String = front;
            out.push_str("<head>");
            out.push_str(base.as_str());
            out.push_str(back.as_str());
            out
        },
        None => {
            base.push_str(page);
            base
        },
    }
}

/// Whether a path could lead out of the directory of assets.
pub open spec fn climbs(path: Seq<char>) -> bool {
    text::place(path, ".."@, 0) is Some || path.contains('\\') || (path.len() > 0 && path[0] == '/')
}

/// Whether a path could lead out of the directory of assets: it is refused, and not
/// mended.
pub fn refused(path: &str) -> (r: bool)
    ensures
        r == climbs(path@),
{
    let t: Vec<char> = text::chars(path);
    if t.len() > 0 && t[0] == '/' {
        return true;
    }
    if text::contains(path, "..") {
        return true;
    }
    let mut i: usize = 0;
    while i < t.len()
        invariant
            i <= t@.len(),
            t@ == path@,
            forall|j: int| 0 <= j < i ==> t@[j] != '\\',
        decreases t@.len() - i,
    {
        if t[i] == '\\' {
            assert(path@[i as int] == '\\');
            return true;
        }
        i = i + 1;
    }
    false
}

/// The type of an asset, by the ending of its name.
pub open spec fn content_type_of(path: Seq<char>) -> Seq<char> {
    match crate::config::parted_last(path, '.') {
        Some(p) => if p.1 == "js"@ {
            "text/javascript; charset=utf-8"@
        } else if p.1 == "css"@ {
            "text/css; charset=utf-8"@
        } else if p.1 == "html"@ {
            "text/html; charset=utf-8"@
        } else if p.1 == "json"@ {
            "application/json"@
        } else if p.1 == "svg"@ {
            "image/svg+xml"@
        } else {
            "application/octet-stream"@
        },
        None => "application/octet-stream"@,
    }
}

/// The type of an asset.
pub fn content_type(path: &str) -> (out: &'static str)
    ensures
        out@ == content_type_of(path@),
{
    match crate::config::split_last(path, '.') {
        Some((_front, ending)) => {
            let e: &str = ending.as_str();
            if text::same(e, "js") {
                "text/javascript; charset=utf-8"
            } else if text::same(e, "css") {
                "text/css; charset=utf-8"
            } else if text::same(e, "html") {
                "text/html; charset=utf-8"
            } else if text::same(e, "json") {
                "application/json"
            } else if text::same(e, "svg") {
                "image/svg+xml"
            } else {
                "application/octet-stream"
            }
        },
        None => "application/octet-stream",
    }
}

/// The value of the first pair from the `n`-th on with a name.
pub open spec fn value_of(pairs: Seq<Seq<char>>, name: Seq<char>, n: int) -> Option<Seq<char>>
    decreases pairs.len() - n,
{
    if n >= pairs.len() {
        None
    } else {
        match text::parted(pairs[n], "="@) {
            Some(p) => if p.0 == name {
                Some(p.1)
            } else {
                value_of(pairs, name, n + 1)
            },
            None => value_of(pairs, name, n + 1),
        }
    }
}

/// A value out of a form: `lat=..&lon=..`.
pub fn param(form: &str, name: &str) -> (r: Option<String>)
    ensures
        text::text_of(r) == value_of(text::pieces(form@, '&'), name@, 0),
{
    let pairs: Vec<String> = text::split(form, '&');
    let mut i: usize = 0;
    while i < pairs.len()
        invariant
            i <= pairs@.len(),
            text::texts(pairs@) == text::pieces(form@, '&'),
            value_of(text::pieces(form@, '&'), name@, 0) == value_of(text::pieces(form@, '&'), name@, i as int),
        decreases pairs@.len() - i,
    {
        assert(text::texts(pairs@)[i as int] == pairs@[i as int]@);
        if let Some((key, value)) = text::split_once(pairs[i].as_str(), "=") {
            if text::same(key.as_str(), name) {
                return Some(value);
            }
        }
        i = i + 1;
    }
    None
}

/// Why a position gets no zone.
#[derive(Clone, Copy, Debug, PartialEq, Eq, Structural)]
pub enum Refusal {
    /// There are no zones.
    NoIndex,
    /// The position is no pair of numbers.
    NotNumbers,
    /// The position is not on the globe.
    OutOfRange,
    /// The position is outside the data.
    Outside,
    /// The index has no answer.
    NoZone,
}

/// Whether a position gets a zone, and else why not: the first thing that is wrong.
pub open spec fn refusal(index: bool, numbers: bool, in_range: bool, covered: bool, found: bool) -> Option<Refusal> {
    if !index {
        Some(Refusal::NoIndex)
    } else if !numbers {
        Some(Refusal::NotNumbers)
    } else if !in_range {
        Some(Refusal::OutOfRange)
    } else if !covered {
        Some(Refusal::Outside)
    } else if !found {
        Some(Refusal::NoZone)
    } else {
        None
    }
}

/// Whether a position gets a zone, and else why not.
pub fn check_position(index: bool, numbers: bool, in_range: bool, covered: bool, found: bool) -> (r: Option<Refusal>)
    ensures
        r == refusal(index, numbers, in_range, covered, found),
{
    if !index {
        Some(Refusal::NoIndex)
    } else if !numbers {
        Some(Refusal::NotNumbers)
    } else if !in_range {
        Some(Refusal::OutOfRange)
    } else if !covered {
        Some(Refusal::Outside)
    } else if !found {
        Some(Refusal::NoZone)
    } else {
        None
    }
}

impl Refusal {
    /// The status of the reply.
    pub open spec fn code(self) -> u16 {
        match self {
            Refusal::NoIndex => 404,
            Refusal::NotNumbers => 400,
            Refusal::OutOfRange => 400,
            Refusal::Outside => 404,
            Refusal::NoZone => 500,
        }
    }

    /// The status of the reply.
    pub fn status(self) -> (r: u16)
        ensures
            r == self.code(),
    {
        match self {
            Refusal::NoIndex => 404,
            Refusal::NotNumbers => 400,
            Refusal::OutOfRange => 400,
            Refusal::Outside => 404,
            Refusal::NoZone => 500,
        }
    }

    /// What is said of it.
    pub open spec fn words(self) -> Seq<char> {
        match self {
            Refusal::NoIndex => "no zone index -- run `make anon`"@,
            Refusal::NotNumbers => "lat and lon must be numbers"@,
            Refusal::OutOfRange => "lat and lon out of range"@,
            Refusal::Outside => "outside the covered region"@,
            Refusal::NoZone => "no zone"@,
        }
    }

    /// The body of the reply. Nothing of the request is repeated in it.
    pub fn zone_error(self) -> (out: String)
        ensures
            out@ == "{\"error\":\""@ + self.words() + "\"}"@,
    {
        let why: &str = match self {
            Refusal::NoIndex => "no zone index -- run `make anon`",
            Refusal::NotNumbers => "lat and lon must be numbers",
            Refusal::OutOfRange => "lat and lon out of range",
            Refusal::Outside => "outside the covered region",
            Refusal::NoZone => "no zone",
        };
        let mut out: String = "{\"error\":\"".to_owned();
        out.push_str(why);
        out.push_str("\"}");
        out
    }
}

/// A square of a zone, as numbers with a fraction are written.
#[derive(Debug)]
pub struct Corners {
    pub west: String,
    pub south: String,
    pub east: String,
    pub north: String,
}

/// A square as a list.
pub open spec fn corners_text(q: Corners) -> Seq<char> {
    "["@ + q.west@ + ","@ + q.south@ + ","@ + q.east@ + ","@ + q.north@ + "]"@
}

/// The answer for a zone with its squares, in front of the brace that closes it.
pub open spec fn with_quads(json: Seq<char>, quads: Seq<Corners>) -> Seq<char> {
    json.take(if json.len() == 0 { 0 } else { json.len() - 1 }) + ",\"quads\":["@ + text::joined(quads.map_values(|q: Corners| corners_text(q)), ","@) + "]}"@
}

/// Adds the squares of a zone to its answer.
pub fn zone_body(json: &str, quads: &Vec<Corners>) -> (out: String)
    ensures
        out@ == with_quads(json@, quads@),
{
    let t: Vec<char> = text::chars(json);
    let keep: usize = if t.len() == 0 {
        0
    } else {
        t.len() - 1
    };
    let mut out: String = text::string_of(&t, 0, keep);
    assert(out@ =~= json@.take(keep as int));
    out.push_str(",\"quads\":[");
    let mut parts: Vec<String> = Vec::new();
    let mut i: usize = 0;
    let ghost want = quads@.map_values(|q: Corners| corners_text(q));
    while i < quads.len()
        invariant
            i <= quads@.len(),
            want == quads@.map_values(|q: Corners| corners_text(q)),
            text::texts(parts@) =~= want.take(i as int),
        decreases quads@.len() - i,
    {
        let q: &Corners = &quads[i];
        let mut part: String = "[".to_owned();
        part.push_str(q.west.as_str());
        part.push_str(",");
        part.push_str(q.south.as_str());
        part.push_str(",");
        part.push_str(q.east.as_str());
        part.push_str(",");
        part.push_str(q.north.as_str());
        part.push_str("]");
        let ghost shown = part@;
        let ghost before = text::texts(parts@);
        assert(shown == corners_text(*q));
        parts.push(part);
        assert(text::texts(parts@) =~= before.push(shown));
        i = i + 1;
    }
    assert(want.take(i as int) =~= want);
    let list: String = text::join(&parts, ",");
    out.push_str(list.as_str());
    out.push_str("]}");
    out
}

/// Whether a character is a digit of a number in hexadecimal.
spec fn is_hex(c: char) -> bool {
    ('0' <= c <= '9') || ('a' <= c <= 'f')
}

proof fn lemma_hex_digits(n: nat)
    ensures
        text::hex(n).len() > 0,
        forall|i: int| 0 <= i < text::hex(n).len() ==> is_hex(#[trigger] text::hex(n)[i]),
    decreases n,
{
    if n >= 16 {
        lemma_hex_digits(n / 16);
        let front = text::hex(n / 16);
        assert forall|i: int| 0 <= i < text::hex(n).len() implies is_hex(#[trigger] text::hex(n)[i]) by {
            if i < front.len() {
                assert(text::hex(n)[i] == front[i]);
            }
        }
    }
}

proof fn lemma_hex_tells_apart(a: nat, b: nat)
    requires
        text::hex(a) == text::hex(b),
    ensures
        a == b,
    decreases a,
{
    lemma_hex_digits(a / 16);
    lemma_hex_digits(b / 16);
    assert(text::hex(a).last() == text::hex_digit(a % 16));
    assert(text::hex(b).last() == text::hex_digit(b % 16));
    assert(a % 16 == b % 16);
    if a >= 16 {
        assert(text::hex(a).len() == text::hex(a / 16).len() + 1);
        assert(b >= 16);
        assert(text::hex(a).drop_last() =~= text::hex(a / 16));
        assert(text::hex(b).drop_last() =~= text::hex(b / 16));
        lemma_hex_tells_apart(a / 16, b / 16);
    } else if b >= 16 {
        assert(text::hex(b).len() == text::hex(b / 16).len() + 1);
    }
}

proof fn lemma_etag_shape(bytes: u64, changed: u64)
    ensures
        !etag_of(bytes, changed).contains(','),
        text::trimmed(etag_of(bytes, changed)) == etag_of(bytes, changed),
        etag_of(bytes, changed).len() == text::hex(bytes as nat).len() + text::hex(changed as nat).len() + 3,
        forall|i: int|
            0 <= i < text::hex(bytes as nat).len() ==> etag_of(bytes, changed)[i + 1] == #[trigger] text::hex(
                bytes as nat,
            )[i],
        etag_of(bytes, changed)[text::hex(bytes as nat).len() as int + 1] == '-',
        forall|i: int|
            0 <= i < text::hex(changed as nat).len() ==> etag_of(bytes, changed)[i + text::hex(bytes as nat).len() + 2]
                == #[trigger] text::hex(changed as nat)[i],
{
    reveal_strlit("\"");
    reveal_strlit("-");
    lemma_hex_digits(bytes as nat);
    lemma_hex_digits(changed as nat);
    let e = etag_of(bytes, changed);
    let h = text::hex(bytes as nat);
    let k = text::hex(changed as nat);
    assert forall|i: int| 0 <= i < e.len() implies e[i] != ',' by {
        if i == 0 || i == h.len() + 1 || i == e.len() - 1 {
        } else if i <= h.len() {
            assert(e[i] == h[i - 1]);
        } else {
            assert(e[i] == k[i - h.len() - 2]);
        }
    }
    assert(e[0] == '"');
    assert(e.last() == '"');
    assert(text::trimmed_start(e) == e);
}

/// A mark of content is held exactly where it is the mark of the same content: a
/// change to one archive leaves the marks of the others valid, and no other archive's
/// mark stands for it.
pub proof fn law_marks_tell_content_apart(bytes: u64, changed: u64, held_bytes: u64, held_changed: u64)
    ensures
        holds(etag_of(held_bytes, held_changed), etag_of(bytes, changed)) <==> bytes == held_bytes && changed
            == held_changed,
{
    let e = etag_of(bytes, changed);
    let f = etag_of(held_bytes, held_changed);
    lemma_etag_shape(bytes, changed);
    lemma_etag_shape(held_bytes, held_changed);
    lemma_one_piece(f, ',');
    let list = text::pieces(f, ',');
    assert(list[0] == f);
    assert(holds(f, e) <==> f == e);
    if f == e {
        let h = text::hex(bytes as nat);
        let g = text::hex(held_bytes as nat);
        let k = text::hex(changed as nat);
        let l = text::hex(held_changed as nat);
        lemma_hex_digits(bytes as nat);
        lemma_hex_digits(held_bytes as nat);
        if h.len() < g.len() {
            assert(is_hex(g[h.len() as int]));
            assert(f[h.len() as int + 1] == g[h.len() as int]);
        }
        if g.len() < h.len() {
            assert(is_hex(h[g.len() as int]));
            assert(e[g.len() as int + 1] == h[g.len() as int]);
        }
        assert forall|i: int| 0 <= i < h.len() implies h[i] == g[i] by {
            assert(e[i + 1] == h[i]);
            assert(f[i + 1] == g[i]);
        }
        assert(h =~= g);
        assert forall|i: int| 0 <= i < k.len() implies k[i] == l[i] by {
            assert(e[i + h.len() + 2] == k[i]);
            assert(f[i + g.len() + 2] == l[i]);
        }
        assert(k =~= l);
        lemma_hex_tells_apart(bytes as nat, held_bytes as nat);
        lemma_hex_tells_apart(changed as nat, held_changed as nat);
    }
}

proof fn lemma_one_piece(s: Seq<char>, sep: char)
    requires
        !s.contains(sep),
    ensures
        text::pieces(s, sep) == seq![s],
    decreases s.len(),
{
    if s.len() == 0 {
        assert(s =~= Seq::empty());
    } else {
        assert forall|i: int| 0 <= i < s.drop_last().len() implies s.drop_last()[i] != sep by {
            assert(s.contains(s[i]));
        }
        lemma_one_piece(s.drop_last(), sep);
        assert(s.contains(s.last()));
        assert(s.drop_last().push(s.last()) =~= s);
        assert(text::pieces(s, sep) =~= seq![s]);
    }
}

proof fn lemma_joined_chars(parts: Seq<Seq<char>>, c: char)
    requires
        c != ',',
        forall|i: int, k: int| 0 <= i < parts.len() && 0 <= k < parts[i].len() ==> (#[trigger] parts[i][k]) != c,
    ensures
        !text::joined(parts, ","@).contains(c),
    decreases parts.len(),
{
    reveal_strlit(",");
    if parts.len() > 1 {
        let front = parts.drop_last();
        assert forall|i: int, k: int| 0 <= i < front.len() && 0 <= k < front[i].len() implies (#[trigger] front[i][k])
            != c by {
            assert(parts[i][k] != c);
        }
        lemma_joined_chars(front, c);
        let all = text::joined(parts, ","@);
        let head = text::joined(front, ","@);
        assert forall|i: int| 0 <= i < all.len() implies all[i] != c by {
            if i < head.len() {
                assert(head.contains(head[i]));
                assert(all[i] == head[i]);
            } else if i > head.len() {
                assert(all[i] == parts[parts.len() - 1][i - head.len() - 1]);
            }
        }
    } else if parts.len() == 1 {
        assert forall|k: int| 0 <= k < parts[0].len() implies text::joined(parts, ","@)[k] != c by {
            assert(parts[0][k] != c);
        }
    }
}

proof fn lemma_either_skips(s: Seq<char>, c: char, from: int, at: int)
    requires
        0 <= from <= at < s.len(),
        s[at] == c,
        forall|i: int| from <= i < at ==> s[i] != c,
    ensures
        either(s, c, c, from) == Some(at),
    decreases at - from,
{
    if from < at {
        lemma_either_skips(s, c, from + 1, at);
    }
}

proof fn lemma_place_skips(s: Seq<char>, part: Seq<char>, from: int, at: int)
    requires
        0 <= from <= at,
        text::stands_at(s, part, at),
        forall|i: int| from <= i < at ==> !text::stands_at(s, part, i),
    ensures
        text::place(s, part, from) == Some(at),
    decreases at - from,
{
    if from < at {
        lemma_place_skips(s, part, from + 1, at);
    }
}

proof fn lemma_stands(s: Seq<char>, part: Seq<char>, at: int)
    requires
        text::stands_at(s, part, at),
    ensures
        forall|k: int| 0 <= k < part.len() ==> s[at + k] == #[trigger] part[k],
{
    assert forall|k: int| 0 <= k < part.len() implies s[at + k] == #[trigger] part[k] by {
        assert(s.subrange(at, at + part.len())[k] == part[k]);
    }
}

/// Where the zoom levels are in what an archive says of itself.
proof fn lemma_rungs_place(layer: Seq<char>, rungs: Seq<u8>)
    requires
        !layer.contains('"'),
    ensures
        text::place(export::metadata_of(layer, rungs), "\"rungs\":"@, 0) == Some(
            export::METADATA@.len() as int + layer.len() + 2,
        ),
{
    let key = "\"rungs\":"@;
    let head = export::METADATA@;
    let mid = "\",\"rungs\":["@;
    let all = export::metadata_of(layer, rungs);
    reveal_strlit("\"rungs\":");
    reveal_strlit("\",\"rungs\":[");
    reveal_strlit("{\"attribution\":\"© OpenStreetMap contributors\",\"layer\":\"");
    let n = head.len() as int;
    let at = n + layer.len() + 2;
    assert(forall|i: int| 0 <= i < n ==> #[trigger] head[i] != 'g');
    assert(forall|i: int| 0 <= i < n ==> all[i] == #[trigger] head[i]);
    assert(forall|i: int| 0 <= i < layer.len() ==> all[n + i] == #[trigger] layer[i]);
    assert(forall|i: int| 0 <= i < mid.len() ==> all[n + layer.len() + i] == #[trigger] mid[i]);
    assert forall|j: int| 0 <= j < at implies !text::stands_at(all, key, j) by {
        if text::stands_at(all, key, j) {
            lemma_stands(all, key, j);
            assert(all[j] == key[0]);
            assert(all[j + 1] == key[1]);
            assert(all[j + 4] == key[4]);
            assert(all[j + 6] == key[6]);
            assert(all[j + 7] == key[7]);
            if j < n {
                if j + 4 < n {
                    assert(head[j + 4] != 'g');
                } else {
                    assert(head[n - 1] == '"' && head[n - 2] == ':' && head[n - 3] == '"' && head[n - 4] == 'r');
                    assert(j == n - 1);
                    if 5 < layer.len() {
                        assert(layer.contains(layer[5]));
                    } else if layer.len() == 5 {
                        assert(all[n + 6] == mid[1]);
                    } else {
                        if layer.len() == 4 {
                            assert(all[n + 4] == mid[0]);
                            assert(all[j + 5] == key[5]);
                        } else if layer.len() == 3 {
                            assert(all[n + 3] == mid[0]);
                        } else if layer.len() == 2 {
                            assert(all[n + 2] == mid[0]);
                            assert(all[j + 3] == key[3]);
                        } else if layer.len() == 1 {
                            assert(all[n + 1] == mid[0]);
                            assert(all[j + 2] == key[2]);
                        } else {
                            assert(all[n] == mid[0]);
                        }
                    }
                }
            } else if j < n + layer.len() {
                assert(layer.contains(layer[j - n]));
            } else if j == n + layer.len() {
                assert(all[j + 1] == mid[1]);
            } else {
                assert(all[j] == mid[1]);
            }
        }
    }
    assert(all.subrange(at, at + key.len()) =~= key) by {
        assert forall|k: int| 0 <= k < key.len() implies all[at + k] == key[k] by {
            assert(all[n + layer.len() + (k + 2)] == mid[k + 2]);
        }
    }
    lemma_place_skips(all, key, 0, at);
}

/// What an archive says of its zoom levels is what the server reads off it, level for
/// level, whatever its layer is called.
pub proof fn law_levels_read_back(layer: Seq<char>, rungs: Seq<u8>, lo: u8, hi: u8)
    requires
        !layer.contains('"'),
    ensures
        rungs_of(export::metadata_of(layer, rungs), lo, hi) == "["@ + text::joined(tuning::numbers(rungs), ","@) + "]"@,
{
    let key = "\"rungs\":"@;
    let head = export::METADATA@;
    let list = text::joined(tuning::numbers(rungs), ","@);
    let all = export::metadata_of(layer, rungs);
    lemma_rungs_place(layer, rungs);
    reveal_strlit("\"rungs\":");
    reveal_strlit("\",\"rungs\":[");
    reveal_strlit("]}");
    reveal_strlit("[");
    reveal_strlit("]");
    let at = head.len() as int + layer.len() + 2;
    let rest = all.skip(at + key.len());
    assert(rest =~= "["@ + list + "]}"@);
    let parts = tuning::numbers(rungs);
    assert forall|i: int, k: int| 0 <= i < parts.len() && 0 <= k < parts[i].len() implies (#[trigger] parts[i][k])
        != ']' by {
        text::law_numbers_are_digits(rungs[i] as nat);
        assert(text::is_digit(parts[i][k]));
    }
    lemma_joined_chars(parts, ']');
    let end = list.len() as int + 1;
    assert forall|i: int| 0 <= i < end implies rest[i] != ']' by {
        if i > 0 {
            assert(rest[i] == list[i - 1]);
            assert(list.contains(list[i - 1]));
        }
    }
    assert(rest[end] == ']');
    lemma_either_skips(rest, ']', 0, end);
    let value = rest.take(end + 1);
    assert(value =~= "["@ + list + "]"@);
    assert(value[0] == '[' && value.last() == ']');
    assert(text::trimmed_start(value) == value);
    assert(text::trimmed(value) == value);
    assert(rest[0] == '[');
    assert(text::trimmed_start(rest) == rest);
}

/// Who made the map is read off an archive as it was written.
pub proof fn law_attribution_reads_back(layer: Seq<char>, rungs: Seq<u8>)
    ensures
        attribution_of(export::metadata_of(layer, rungs)) == "© OpenStreetMap contributors"@,
{
    let key = "\"attribution\":"@;
    let n = key.len() as int;
    let words = "© OpenStreetMap contributors"@;
    let head = export::METADATA@;
    let all = export::metadata_of(layer, rungs);
    reveal_strlit("\"attribution\":");
    reveal_strlit("© OpenStreetMap contributors");
    reveal_strlit("{\"attribution\":\"© OpenStreetMap contributors\",\"layer\":\"");
    reveal_strlit("\"");
    assert(forall|i: int| 0 <= i < head.len() ==> all[i] == #[trigger] head[i]);
    assert(!text::stands_at(all, key, 0)) by {
        if text::stands_at(all, key, 0) {
            lemma_stands(all, key, 0);
            assert(all[0] == key[0]);
            assert(all[0] == head[0]);
        }
    }
    assert(all.subrange(1, 1 + n) =~= key) by {
        assert forall|k: int| 0 <= k < n implies all[1 + k] == key[k] by {
            assert(head[1 + k] == key[k]);
        }
    }
    lemma_place_skips(all, key, 0, 1);
    let rest = all.skip(1 + n);
    assert(rest[0] == head[1 + n]);
    assert(rest[0] == '"');
    assert(text::trimmed_start(rest) == rest);
    assert(rest.take(1) =~= "\""@);
    let inner = rest.skip(1);
    let at = words.len() as int;
    assert forall|k: int| 0 <= k < at implies inner[k] == words[k] && words[k] != '"' by {
        assert(head[2 + n + k] == words[k]);
        assert(inner[k] == all[2 + n + k]);
    }
    assert(inner[at] == head[2 + n + at]);
    assert forall|j: int| 0 <= j < at implies !text::stands_at(inner, "\""@, j) by {
        if text::stands_at(inner, "\""@, j) {
            lemma_stands(inner, "\""@, j);
            assert(inner[j + 0] == "\""@[0]);
            assert(words[j] != '"');
        }
    }
    assert(inner.subrange(at, at + 1) =~= "\""@);
    lemma_place_skips(inner, "\""@, 0, at);
    assert(inner.take(at) =~= words);
}

/// **A layer is found by its name**: the first one that is called so, and none only if
/// none is.
pub proof fn law_a_layer_is_found_by_its_name(layers: Seq<Layer>, name: Seq<char>, from: int)
    requires
        0 <= from <= layers.len(),
    ensures
        match layer_at(layers, name, from) {
            Some(i) => from <= i < layers.len() && layers[i].name@ == name && forall|j: int|
                from <= j < i ==> (#[trigger] layers[j]).name@ != name,
            None => forall|j: int| from <= j < layers.len() ==> (#[trigger] layers[j]).name@ != name,
        },
    decreases layers.len() - from,
{
    if from < layers.len() && layers[from].name@ != name {
        law_a_layer_is_found_by_its_name(layers, name, from + 1);
    }
}

/// **The map's levels are those of all its layers together**: it begins with the widest
/// level of any and ends with the deepest of any.
pub proof fn law_the_map_has_the_levels_of_its_layers(layers: Seq<Layer>, n: nat)
    requires
        0 < n <= layers.len(),
    ensures
        forall|i: int|
            0 <= i < n ==> lowest(layers, n) <= (#[trigger] layers[i]).archive.header.min_zoom && layers[i].archive.header.max_zoom
                <= highest(layers, n),
        exists|i: int| 0 <= i < n && (#[trigger] layers[i]).archive.header.min_zoom == lowest(layers, n),
        exists|i: int| 0 <= i < n && (#[trigger] layers[i]).archive.header.max_zoom == highest(layers, n),
    decreases n,
{
    let m = (n - 1) as nat;
    let last = layers[n - 1].archive.header;
    if m > 0 {
        law_the_map_has_the_levels_of_its_layers(layers, m);
        let a = choose|i: int| 0 <= i < m && (#[trigger] layers[i]).archive.header.min_zoom == lowest(layers, m);
        let b = choose|i: int| 0 <= i < m && (#[trigger] layers[i]).archive.header.max_zoom == highest(layers, m);
        assert(layers[a].archive.header.min_zoom == lowest(layers, m));
        assert(layers[b].archive.header.max_zoom == highest(layers, m));
    } else {
        assert(lowest(layers, 0) == u8::MAX);
        assert(highest(layers, 0) == 0);
    }
    assert(layers[n - 1].archive.header == last);
    if last.min_zoom <= lowest(layers, m) {
        assert(lowest(layers, n) == last.min_zoom);
    }
    if last.max_zoom >= highest(layers, m) {
        assert(highest(layers, n) == last.max_zoom);
    }
}

/// **The levels of an archive that does not list them are all from its first to its
/// last.**
pub proof fn law_a_range_has_every_level(lo: u8, hi: u8, z: u8)
    ensures
        levels(lo, hi).contains(z) <==> lo <= z <= hi,
        forall|i: int, j: int| 0 <= i < j < levels(lo, hi).len() ==> levels(lo, hi)[i] < levels(lo, hi)[j],
{
    if lo <= z <= hi {
        assert(levels(lo, hi)[z - lo] == z);
    }
}

/// Whether a pair gives a name a value.
pub open spec fn names_pair(pair: Seq<char>, name: Seq<char>) -> bool {
    text::parted(pair, "="@) matches Some((other, _)) && other == name
}

/// Whether the pair at `i` gives a name its value, and no pair before it gives it one.
pub open spec fn first_pair(pairs: Seq<Seq<char>>, name: Seq<char>, value: Seq<char>, n: int, i: int) -> bool {
    &&& n <= i < pairs.len()
    &&& text::parted(pairs[i], "="@) == Some((name, value))
    &&& forall|j: int| n <= j < i ==> !names_pair(#[trigger] pairs[j], name)
}

proof fn lemma_value_of(pairs: Seq<Seq<char>>, name: Seq<char>, n: int) -> (at: int)
    requires
        0 <= n <= pairs.len(),
    ensures
        match value_of(pairs, name, n) {
            Some(v) => first_pair(pairs, name, v, n, at),
            None => forall|j: int| n <= j < pairs.len() ==> !names_pair(#[trigger] pairs[j], name),
        },
    decreases pairs.len() - n,
{
    if n >= pairs.len() {
        n
    } else if names_pair(pairs[n], name) {
        let p = text::parted(pairs[n], "="@).unwrap();
        assert(p == (name, p.1));
        n
    } else {
        lemma_value_of(pairs, name, n + 1)
    }
}

/// **A form gives a name the value of the first pair that has it**, and none if no pair
/// has it.
pub proof fn law_a_form_is_read_by_name(form: Seq<char>, name: Seq<char>)
    ensures
        match value_of(text::pieces(form, '&'), name, 0) {
            Some(v) => exists|i: int| #[trigger] first_pair(text::pieces(form, '&'), name, v, 0, i),
            None => forall|j: int|
                0 <= j < text::pieces(form, '&').len() ==> !names_pair(#[trigger] text::pieces(form, '&')[j], name),
        },
{
    let at = lemma_value_of(text::pieces(form, '&'), name, 0);
    if let Some(v) = value_of(text::pieces(form, '&'), name, 0) {
        assert(first_pair(text::pieces(form, '&'), name, v, 0, at));
    }
}

/// **A mark counts wherever it stands among the marks that a client holds**: of two lists
/// with a comma between them it is in the one or in the other, and of a single mark only
/// the white space around it makes no difference.
pub proof fn law_a_mark_counts_wherever_it_stands(a: Seq<char>, b: Seq<char>, etag: Seq<char>)
    ensures
        holds(a.push(',') + b, etag) <==> holds(a, etag) || holds(b, etag),
        !a.contains(',') ==> (holds(a, etag) <==> text::trimmed(a) == etag),
{
    text::law_pieces_come_one_after_another(a, b, ',');
    let front = text::pieces(a, ',');
    let back = text::pieces(b, ',');
    let all = text::pieces(a.push(',') + b, ',');
    if holds(a, etag) {
        let i = choose|i: int| 0 <= i < front.len() && text::trimmed(#[trigger] front[i]) == etag;
        assert(all[i] == front[i]);
    }
    if holds(b, etag) {
        let i = choose|i: int| 0 <= i < back.len() && text::trimmed(#[trigger] back[i]) == etag;
        assert(all[front.len() + i] == back[i]);
    }
    if holds(a.push(',') + b, etag) {
        let i = choose|i: int| 0 <= i < all.len() && text::trimmed(#[trigger] all[i]) == etag;
        if i < front.len() {
            assert(front[i] == all[i]);
        } else {
            assert(back[i - front.len()] == all[i]);
        }
    }
    if !a.contains(',') {
        assert(front[0] == a);
    }
}

/// **A path is taken only if it cannot leave its directory**: nowhere in it do two dots
/// stand side by side, it has no backslash, and it does not begin at the root.
pub proof fn law_a_path_that_climbs_is_refused(path: Seq<char>)
    ensures
        !climbs(path) <==> (forall|i: int| 0 <= i < path.len() - 1 ==> !(#[trigger] path[i] == '.' && path[i + 1] == '.')) && (
        forall|i: int| 0 <= i < path.len() ==> #[trigger] path[i] != '\\') && !(path.len() > 0 && path[0] == '/'),
{
    reveal_strlit("..");
    text::law_a_place_is_the_first(path, ".."@, 0);
    assert forall|i: int| 0 <= i < path.len() - 1 implies (text::stands_at(path, ".."@, i) <==> (#[trigger] path[i] == '.'
        && path[i + 1] == '.')) by {
        let two = path.subrange(i, i + 2);
        if path[i] == '.' && path[i + 1] == '.' {
            assert(two =~= ".."@);
        }
        if text::stands_at(path, ".."@, i) {
            assert(two == ".."@);
            assert(two[0] == '.' && two[1] == '.');
        }
    }
    if let Some(i) = text::place(path, ".."@, 0) {
        let two = path.subrange(i, i + 2);
        assert(two == ".."@);
        assert(two[0] == '.' && two[1] == '.');
        assert(path[i] == '.' && path[i + 1] == '.');
    }
}

/// **The page is served whole**, with its address put in once: right behind the first
/// `<head>`, or in front of everything where there is none. The address is the path,
/// with a slash at its end.
pub proof fn law_the_page_gets_its_address(page: Seq<char>, path: Seq<char>)
    ensures
        ({
            let base = "<base href=\""@ + base_of(path) + "\">"@;
            match text::place(page, "<head>"@, 0) {
                Some(i) => shell_of(page, path) == page.take(i + 6) + base + page.skip(i + 6),
                None => shell_of(page, path) == base + page,
            }
        }),
        base_of(path).len() > 0 && base_of(path).last() == '/',
        base_of(path) == path || base_of(path) == path.push('/'),
        path.len() > 0 && path.last() == '/' ==> base_of(path) == path,
{
    reveal_strlit("<head>");
    reveal_strlit("/");
    assert(path + "/"@ =~= path.push('/'));
    let base = "<base href=\""@ + base_of(path) + "\">"@;
    text::law_a_place_is_the_first(page, "<head>"@, 0);
    if let Some(i) = text::place(page, "<head>"@, 0) {
        assert(page.subrange(i, i + 6) == "<head>"@);
        assert(page.take(i + 6) =~= page.take(i) + "<head>"@) by {
            assert forall|k: int| i <= k < i + 6 implies page[k] == "<head>"@[k - i] by {
                assert(page.subrange(i, i + 6)[k - i] == page[k]);
            }
        }
        assert(shell_of(page, path) =~= page.take(i + 6) + base + page.skip(i + 6));
    }
}

/// **An asset's type follows from what stands behind the last dot of its name.**
pub proof fn law_the_ending_gives_the_type(stem: Seq<char>, ending: Seq<char>)
    requires
        !ending.contains('.'),
    ensures
        ending == "js"@ ==> content_type_of(stem.push('.') + ending) == "text/javascript; charset=utf-8"@,
        ending == "css"@ ==> content_type_of(stem.push('.') + ending) == "text/css; charset=utf-8"@,
        ending == "html"@ ==> content_type_of(stem.push('.') + ending) == "text/html; charset=utf-8"@,
        ending == "json"@ ==> content_type_of(stem.push('.') + ending) == "application/json"@,
        ending == "svg"@ ==> content_type_of(stem.push('.') + ending) == "image/svg+xml"@,
        ending != "js"@ && ending != "css"@ && ending != "html"@ && ending != "json"@ && ending != "svg"@
            ==> content_type_of(stem.push('.') + ending) == "application/octet-stream"@,
{
    reveal_strlit("js");
    reveal_strlit("css");
    reveal_strlit("html");
    reveal_strlit("json");
    reveal_strlit("svg");
    assert("js"@.len() == 2 && "css"@.len() == 3 && "html"@.len() == 4 && "json"@.len() == 4 && "svg"@.len() == 3);
    assert("css"@[0] == 'c' && "svg"@[0] == 's' && "html"@[0] == 'h' && "json"@[0] == 'j');
    crate::config::lemma_parted_at(stem, '.', ending);
}

/// **A position is answered only if nothing speaks against it**, and otherwise the first
/// thing that does is named.
pub proof fn law_the_first_fault_is_named(index: bool, numbers: bool, in_range: bool, covered: bool, found: bool)
    ensures
        refusal(index, numbers, in_range, covered, found) is None <==> index && numbers && in_range && covered && found,
        refusal(index, numbers, in_range, covered, found) == Some(Refusal::NoIndex) <==> !index,
        refusal(index, numbers, in_range, covered, found) == Some(Refusal::NotNumbers) <==> index && !numbers,
        refusal(index, numbers, in_range, covered, found) == Some(Refusal::OutOfRange) <==> index && numbers && !in_range,
        refusal(index, numbers, in_range, covered, found) == Some(Refusal::Outside) <==> index && numbers && in_range
            && !covered,
{
}

/// **A reply says what became of the request**: 404 only for a layer that is not there,
/// 304 only where the client holds the content, and an absent tile is no error. Only a
/// tile that is sent may be kept, and it carries the mark of its archive.
pub proof fn law_a_reply_says_what_became_of_the_request(lookup: Lookup, found: bool, etag: Seq<char>)
    ensures
        status_of(lookup, found) == 404 <==> lookup is NoSuchLayer,
        status_of(lookup, found) == 304 <==> lookup is NotModified,
        status_of(lookup, found) == 200 <==> lookup is In && found,
        status_of(lookup, found) == 204 <==> lookup is In && !found,
        tile_head(status_of(lookup, found), etag).len() > 0 <==> lookup is In && found,
        lookup is In && found ==> tile_head(status_of(lookup, found), etag).contains(("etag"@, etag)) && tile_head(
            status_of(lookup, found),
            etag,
        ).contains(("content-encoding"@, "gzip"@)),
{
    if lookup is In && found {
        let head = tile_head(200, etag);
        assert(head[3] == ("etag"@, etag));
        assert(head[1] == ("content-encoding"@, "gzip"@));
    }
}

} // verus!
