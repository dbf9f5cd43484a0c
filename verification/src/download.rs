//! Fetching what a build starts from: finding extracts in the catalogue, and
//! deciding, transfer by transfer, what is there, what is asked for and when to try
//! again.

use crate::config;
use crate::config::Config;
use crate::config::Region;
use crate::names;
use crate::progress;
use crate::text;
use crate::tuning;
use vstd::prelude::*;

verus! {

/// One entry of the catalogue as it is published: any of its parts may be missing.
#[derive(Debug)]
pub struct Feature {
    pub id: Option<String>,
    pub parent: Option<String>,
    pub pbf: Option<String>,
}

/// An entry as plain values: its id, its parent and where its extract is.
pub open spec fn feature_texts(f: Feature) -> (Option<Seq<char>>, Option<Seq<char>>, Option<Seq<char>>) {
    (text::text_of(f.id), text::text_of(f.parent), text::text_of(f.pbf))
}

/// The entries of a list as plain values.
pub open spec fn features_texts(list: Seq<Feature>) -> Seq<
    (Option<Seq<char>>, Option<Seq<char>>, Option<Seq<char>>),
> {
    list.map_values(|f: Feature| feature_texts(f))
}

/// `serde_json::Value`.
#[verifier::external_type_specification]
#[verifier::external_body]
pub struct ExValue(serde_json::Value);

/// The strings in a value, each at the pointer that leads to it.
pub uninterp spec fn strings_in(v: serde_json::Value) -> Map<Seq<char>, Seq<char>>;

/// The lists in a value, each at the pointer that leads to it: how long they are.
pub uninterp spec fn lists_in(v: serde_json::Value) -> Map<Seq<char>, nat>;

/// What `serde_json::from_str` reads out of a text: the strings and the lists of the
/// value, each at the pointer that leads to it, or nothing where the text is no JSON.
pub uninterp spec fn json(body: Seq<char>) -> Option<(Map<Seq<char>, Seq<char>>, Map<Seq<char>, nat>)>;

/// `serde_json::from_str` into a `serde_json::Value`. What is claimed is that whether
/// there is a value, and what is in it, follows from the text; of the words of an error
/// nothing is claimed.
#[verifier::external_body]
fn parse_json(body: &str) -> (r: Result<serde_json::Value, String>)
    ensures
        match r {
            Ok(v) => json(body@) == Some((strings_in(v), lists_in(v))),
            Err(_) => json(body@) is None,
        },
{
    serde_json::from_str(body).map_err(|e: serde_json::Error| e.to_string())
}

/// What a map holds at a key.
pub open spec fn found<T>(m: Map<Seq<char>, T>, key: Seq<char>) -> Option<T> {
    if m.dom().contains(key) {
        Some(m[key])
    } else {
        None
    }
}

/// `serde_json::Value::pointer`, and `serde_json::Value::as_str` on what is found
/// there: the string at a pointer, where there is one.
#[verifier::external_body]
fn string_at(v: &serde_json::Value, pointer: &str) -> (r: Option<String>)
    ensures
        text::text_of(r) == found(strings_in(*v), pointer@),
{
    v.pointer(pointer).and_then(|s| s.as_str()).map(str::to_string)
}

/// `serde_json::Value::pointer`, and `serde_json::Value::as_array` on what is found
/// there: the length of the list at a pointer, where there is one.
#[verifier::external_body]
fn list_at(v: &serde_json::Value, pointer: &str) -> (r: Option<usize>)
    ensures
        match r {
            Some(n) => found(lists_in(*v), pointer@) == Some(n as nat),
            None => found(lists_in(*v), pointer@) is None,
        },
{
    v.pointer(pointer).and_then(|l| l.as_array()).map(|l| l.len())
}

/// Where a part of the `i`-th entry is.
pub open spec fn feature_pointer(i: int, part: Seq<char>) -> Seq<char> {
    "/features/"@ + text::decimal(i as nat) + part
}

/// The `i`-th entry among the strings of a catalogue: its id, its parent and where its
/// extract is.
pub open spec fn feature_at(strings: Map<Seq<char>, Seq<char>>, i: int) -> (
    Option<Seq<char>>,
    Option<Seq<char>>,
    Option<Seq<char>>,
) {
    (
        found(strings, feature_pointer(i, "/properties/id"@)),
        found(strings, feature_pointer(i, "/properties/parent"@)),
        found(strings, feature_pointer(i, "/properties/urls/pbf"@)),
    )
}

/// The entries of a published catalogue, read off its text.
pub open spec fn json_features(body: Seq<char>) -> Option<
    Option<Seq<(Option<Seq<char>>, Option<Seq<char>>, Option<Seq<char>>)>>,
> {
    match json(body) {
        Some((strings, lists)) => match found(lists, "/features"@) {
            Some(n) => Some(Some(Seq::new(n, |i: int| feature_at(strings, i)))),
            None => Some(None),
        },
        None => None,
    }
}

/// What was read, as plain values.
pub open spec fn published(r: Result<Option<Vec<Feature>>, String>) -> Option<
    Option<Seq<(Option<Seq<char>>, Option<Seq<char>>, Option<Seq<char>>)>>,
> {
    match r {
        Ok(Some(list)) => Some(Some(features_texts(list@))),
        Ok(None) => Some(None),
        Err(_) => None,
    }
}

/// Where a part of the `i`-th entry is.
fn pointer(i: usize, part: &str) -> (out: String)
    ensures
        out@ == feature_pointer(i as int, part@),
{
    let mut out: String = "/features/".to_owned();
    text::put_decimal(&mut out, i as u64);
    out.push_str(part);
    out
}

/// Reads the entries of a published catalogue.
fn read_features(body: &str) -> (r: Result<Option<Vec<Feature>>, String>)
    ensures
        published(r) == json_features(body@),
{
    let value: serde_json::Value = match parse_json(body) {
        Ok(value) => value,
        Err(why) => return Err(why),
    };
    let n: usize = match list_at(&value, "/features") {
        Some(n) => n,
        None => return Ok(None),
    };
    let ghost want = Seq::new(n as nat, |i: int| feature_at(strings_in(value), i));
    let mut out: Vec<Feature> = Vec::new();
    let mut i: usize = 0;
    while i < n
        invariant
            i <= n,
            want == Seq::new(n as nat, |k: int| feature_at(strings_in(value), k)),
            features_texts(out@) =~= want.take(i as int),
        decreases n - i,
    {
        let feature: Feature = Feature {
            id: string_at(&value, pointer(i, "/properties/id").as_str()),
            parent: string_at(&value, pointer(i, "/properties/parent").as_str()),
            pbf: string_at(&value, pointer(i, "/properties/urls/pbf").as_str()),
        };
        let ghost shown = feature_texts(feature);
        let ghost before = features_texts(out@);
        assert(want[i as int] == shown);
        out.push(feature);
        assert(features_texts(out@) =~= before.push(shown));
        i = i + 1;
    }
    assert(want.take(i as int) =~= want);
    Ok(Some(out))
}

/// An entry of the catalogue that has an id.
#[derive(Debug)]
pub struct Entry {
    pub id: String,
    pub parent: Option<String>,
    pub pbf: Option<String>,
}

/// The catalogue: everything that can be downloaded.
#[derive(Debug)]
pub struct Index {
    pub entries: Vec<Entry>,
}

/// Why there is no catalogue.
#[derive(Debug)]
pub enum IndexError {
    /// The text is no JSON, in the words of its reader.
    Malformed(String),
    /// There is no list of entries in it.
    NoFeatures,
}

impl IndexError {
    /// What is said of the error.
    pub open spec fn words(self) -> Seq<char> {
        match self {
            IndexError::Malformed(why) => why@,
            IndexError::NoFeatures => "no features in the Geofabrik index"@,
        }
    }

    /// What is said of the error.
    pub fn message(&self) -> (out: String)
        ensures
            out@ == self.words(),
    {
        match self {
            IndexError::Malformed(why) => why.clone(),
            IndexError::NoFeatures => "no features in the Geofabrik index".to_owned(),
        }
    }
}

/// An entry of the catalogue as plain values.
pub open spec fn entry_texts(e: Entry) -> (Option<Seq<char>>, Option<Seq<char>>, Option<Seq<char>>) {
    (Some(e.id@), text::text_of(e.parent), text::text_of(e.pbf))
}

/// The entries of the catalogue as plain values.
pub open spec fn entries_texts(list: Seq<Entry>) -> Seq<
    (Option<Seq<char>>, Option<Seq<char>>, Option<Seq<char>>),
> {
    list.map_values(|e: Entry| entry_texts(e))
}

/// The entries that have an id, in their order.
pub open spec fn named(
    list: Seq<(Option<Seq<char>>, Option<Seq<char>>, Option<Seq<char>>)>,
) -> Seq<(Option<Seq<char>>, Option<Seq<char>>, Option<Seq<char>>)>
    decreases list.len(),
{
    if list.len() == 0 {
        Seq::empty()
    } else if list.last().0 is Some {
        named(list.drop_last()).push(list.last())
    } else {
        named(list.drop_last())
    }
}

/// Keeps the entries that have an id.
pub fn catalogue(features: Vec<Feature>) -> (index: Index)
    ensures
        entries_texts(index.entries@) == named(features_texts(features@)),
{
    let mut entries: Vec<Entry> = Vec::new();
    let mut i: usize = 0;
    let ghost all = features_texts(features@);
    assert(entries_texts(entries@) =~= named(all.take(0)));
    while i < features.len()
        invariant
            i <= features@.len(),
            all == features_texts(features@),
            entries_texts(entries@) == named(all.take(i as int)),
        decreases features@.len() - i,
    {
        let ghost before = entries_texts(entries@);
        assert(all.take(i + 1).drop_last() =~= all.take(i as int));
        assert(all[i as int] == feature_texts(features@[i as int]));
        if let Some(id) = &features[i].id {
            let entry: Entry = Entry { id: id.clone(), parent: features[i].parent.clone(), pbf: features[i].pbf.clone() };
            let ghost shown = entry_texts(entry);
            entries.push(entry);
            assert(entries_texts(entries@) =~= before.push(shown));
        }
        i = i + 1;
    }
    assert(all.take(i as int) =~= all);
    Index { entries }
}

/// Whether an entry is one of the countries of Europe that are worth having.
pub open spec fn is_european(e: Entry) -> bool {
    text::text_of(e.parent) == Some("europe"@) && !tuning::is_aggregate(e.id@) && e.pbf is Some
}

/// The ids of the European countries among the first `n` entries.
pub open spec fn europeans(entries: Seq<Entry>, n: nat) -> Seq<Seq<char>>
    decreases n,
{
    if n == 0 {
        Seq::empty()
    } else if is_european(entries[n - 1]) {
        europeans(entries, (n - 1) as nat).push(entries[n - 1].id@)
    } else {
        europeans(entries, (n - 1) as nat)
    }
}

/// The first entry with an id, at or after the `n`-th.
pub open spec fn entry_at(entries: Seq<Entry>, id: Seq<char>, n: int) -> Option<int>
    decreases entries.len() - n,
{
    if n >= entries.len() {
        None
    } else if entries[n].id@ == id {
        Some(n)
    } else {
        entry_at(entries, id, n + 1)
    }
}

/// Whether two ids are near each other: one stands in the other.
pub open spec fn is_near(a: Seq<char>, b: Seq<char>) -> bool {
    text::place(a, b, 0) is Some || text::place(b, a, 0) is Some
}

/// The ids near one among the first `n` entries, at most eight.
pub open spec fn near(entries: Seq<Entry>, id: Seq<char>, n: nat) -> Seq<Seq<char>>
    decreases n,
{
    if n == 0 {
        Seq::empty()
    } else {
        let earlier = near(entries, id, (n - 1) as nat);
        if earlier.len() < 8 && is_near(entries[n - 1].id@, id) {
            earlier.push(entries[n - 1].id@)
        } else {
            earlier
        }
    }
}

/// Why a region has no address.
#[derive(Debug)]
pub enum UrlError {
    /// No region is called that; these are called something like it.
    Unknown(Vec<String>),
    /// The region has no extract of its own.
    NoPbf,
}

/// What is said of an unknown region. `$a` is the region.
pub const UNKNOWN: &'static str = "unknown region $a -- `make regions` lists them";

/// What is said of an unknown region when something is called much like it, `$b`.
pub const DID_YOU_MEAN: &'static str = "unknown region $a -- did you mean: $b";

impl UrlError {
    /// What is said of the error, where `shown` is the id in quotes.
    pub open spec fn words(self, id: Seq<char>, shown: Seq<char>) -> Seq<char> {
        match self {
            UrlError::Unknown(near) => if near@.len() == 0 {
                text::filled(UNKNOWN@, seq![shown])
            } else {
                text::filled(DID_YOU_MEAN@, seq![shown, text::joined(text::texts(near@), ", "@)])
            },
            UrlError::NoPbf => id + " has no .osm.pbf"@,
        }
    }

    /// What is said of the error, where `shown` is the id in quotes.
    pub fn message(&self, id: &str, shown: &str) -> (out: String)
        ensures
            out@ == self.words(id@, shown@),
    {
        match self {
            UrlError::Unknown(near) => {
                if near.len() == 0 {
                    let values: [&str; 1] = [shown];
                    assert(text::strs(values@) =~= seq![shown@]);
                    text::fill(UNKNOWN, &values)
                } else {
                    let list: String = text::join(near, ", ");
                    let values: [&str; 2] = [shown, list.as_str()];
                    assert(text::strs(values@) =~= seq![shown@, list@]);
                    text::fill(DID_YOU_MEAN, &values)
                }
            },
            UrlError::NoPbf => {
                let mut out: String = id.to_owned();
                out.push_str(" has no .osm.pbf");
                out
            },
        }
    }
}

impl Index {
    /// Reads the catalogue.
    pub fn load(body: &str) -> (r: Result<Index, IndexError>)
        ensures
            match json_features(body@) {
                None => r is Err && r->Err_0 is Malformed,
                Some(None) => r == Err::<Index, IndexError>(IndexError::NoFeatures),
                Some(Some(list)) => r is Ok && entries_texts(r->Ok_0.entries@) == named(list),
            },
    {
        match read_features(body) {
            Ok(Some(features)) => Ok(catalogue(features)),
            Ok(None) => Err(IndexError::NoFeatures),
            Err(why) => Err(IndexError::Malformed(why)),
        }
    }

    /// Where the extract of a region is. A typo is caught here, before anything is
    /// fetched, and answered with what is called much like it.
    pub fn pbf_url(&self, id: &str) -> (r: Result<String, UrlError>)
        ensures
            match entry_at(self.entries@, id@, 0) {
                None => {
                    &&& r is Err
                    &&& r->Err_0 is Unknown
                    &&& text::texts(r->Err_0->Unknown_0@) == near(self.entries@, id@, self.entries@.len())
                },
                Some(i) => match self.entries@[i].pbf {
                    Some(url) => r is Ok && r->Ok_0@ == url@,
                    None => r == Err::<String, UrlError>(UrlError::NoPbf),
                },
            },
    {
        let mut i: usize = 0;
        while i < self.entries.len()
            invariant
                i <= self.entries@.len(),
                entry_at(self.entries@, id@, 0) == entry_at(self.entries@, id@, i as int),
            decreases self.entries@.len() - i,
        {
            if text::same(self.entries[i].id.as_str(), id) {
                return match &self.entries[i].pbf {
                    Some(url) => Ok(url.clone()),
                    None => Err(UrlError::NoPbf),
                };
            }
            i = i + 1;
        }
        let mut like: Vec<String> = Vec::new();
        let mut n: usize = 0;
        assert(text::texts(like@) =~= near(self.entries@, id@, 0));
        while n < self.entries.len()
            invariant
                n <= self.entries@.len(),
                text::texts(like@) == near(self.entries@, id@, n as nat),
            decreases self.entries@.len() - n,
        {
            let other: &str = self.entries[n].id.as_str();
            let ghost before = text::texts(like@);
            assert(before.len() == like@.len());
            if like.len() < 8 && (text::contains(other, id) || text::contains(id, other)) {
                like.push(self.entries[n].id.clone());
                assert(text::texts(like@) =~= before.push(other@));
            }
            n = n + 1;
        }
        Err(UrlError::Unknown(like))
    }

    /// The countries of Europe that are worth having, in order.
    pub fn europe_children(&self) -> (out: Vec<String>)
        ensures
            names::ascending(text::texts(out@)),
            text::texts(out@).to_multiset() == europeans(self.entries@, self.entries@.len()).to_multiset(),
    {
        let mut ids: Vec<String> = Vec::new();
        let mut i: usize = 0;
        assert(text::texts(ids@) =~= europeans(self.entries@, 0));
        while i < self.entries.len()
            invariant
                i <= self.entries@.len(),
                text::texts(ids@) == europeans(self.entries@, i as nat),
            decreases self.entries@.len() - i,
        {
            let e: &Entry = &self.entries[i];
            let inside: bool = match &e.parent {
                Some(parent) => text::same(parent.as_str(), "europe"),
                None => false,
            };
            let ghost before = text::texts(ids@);
            if inside && !tuning::europe_skips(e.id.as_str()) && e.pbf.is_some() {
                ids.push(e.id.clone());
                assert(text::texts(ids@) =~= before.push(e.id@));
            }
            i = i + 1;
        }
        names::sort(ids)
    }
}

/// An entry's id, or nothing at all where it has none.
pub open spec fn id_or_empty(id: Option<Seq<char>>) -> Seq<char> {
    match id {
        Some(id) => id,
        None => ""@,
    }
}

/// The addresses of the European extracts in a list of entries.
pub open spec fn european_urls(
    list: Seq<(Option<Seq<char>>, Option<Seq<char>>, Option<Seq<char>>)>,
) -> Seq<Seq<char>>
    decreases list.len(),
{
    if list.len() == 0 {
        Seq::empty()
    } else {
        let (id, parent, pbf) = list.last();
        let earlier = european_urls(list.drop_last());
        if parent == Some("europe"@) && !tuning::is_aggregate(id_or_empty(id)) && pbf is Some {
            earlier.push(pbf->0)
        } else {
            earlier
        }
    }
}

/// The address of every European extract worth having, in order.
pub fn urls(features: &Vec<Feature>) -> (out: Vec<String>)
    ensures
        names::ascending(text::texts(out@)),
        text::texts(out@).to_multiset() == european_urls(features_texts(features@)).to_multiset(),
{
    let mut list: Vec<String> = Vec::new();
    let mut i: usize = 0;
    let ghost all = features_texts(features@);
    assert(text::texts(list@) =~= european_urls(all.take(0)));
    while i < features.len()
        invariant
            i <= features@.len(),
            all == features_texts(features@),
            text::texts(list@) == european_urls(all.take(i as int)),
        decreases features@.len() - i,
    {
        let f: &Feature = &features[i];
        assert(all.take(i + 1).drop_last() =~= all.take(i as int));
        assert(all.take(i + 1).last() == feature_texts(*f));
        let inside: bool = match &f.parent {
            Some(parent) => text::same(parent.as_str(), "europe"),
            None => false,
        };
        let skipped: bool = match &f.id {
            Some(id) => tuning::europe_skips(id.as_str()),
            None => tuning::europe_skips(""),
        };
        let ghost before = text::texts(list@);
        if inside && !skipped {
            if let Some(url) = &f.pbf {
                list.push(url.clone());
                assert(text::texts(list@) =~= before.push(url@));
            }
        }
        i = i + 1;
    }
    assert(all.take(i as int) =~= all);
    names::sort(list)
}

/// Why there is no list of addresses.
#[derive(Debug)]
pub enum UrlsError {
    /// The text is no JSON, in the words of its reader.
    Malformed(String),
    /// There is no list of entries in it.
    NoFeatures,
}

impl UrlsError {
    /// What is said of the error.
    pub open spec fn words(self) -> Seq<char> {
        match self {
            UrlsError::Malformed(why) => why@,
            UrlsError::NoFeatures => "no features in Geofabrik index"@,
        }
    }

    /// What is said of the error.
    pub fn message(&self) -> (out: String)
        ensures
            out@ == self.words(),
    {
        match self {
            UrlsError::Malformed(why) => why.clone(),
            UrlsError::NoFeatures => "no features in Geofabrik index".to_owned(),
        }
    }
}

/// The address of every European extract worth having, read off the catalogue.
pub fn europe_urls(body: &str) -> (r: Result<Vec<String>, UrlsError>)
    ensures
        match json_features(body@) {
            None => r is Err && r->Err_0 is Malformed,
            Some(None) => r == Err::<Vec<String>, UrlsError>(UrlsError::NoFeatures),
            Some(Some(list)) => {
                &&& r is Ok
                &&& names::ascending(text::texts(r->Ok_0@))
                &&& text::texts(r->Ok_0@).to_multiset() == european_urls(list).to_multiset()
            },
        },
{
    match read_features(body) {
        Ok(Some(features)) => Ok(urls(&features)),
        Ok(None) => Err(UrlsError::NoFeatures),
        Err(why) => Err(UrlsError::Malformed(why)),
    }
}

/// A transfer to make.
#[derive(Debug)]
pub struct Want {
    pub label: String,
    pub url: String,
    pub dest: String,
}

/// Where the extract of a region goes.
pub fn dest(cfg: &Config, id: &str) -> (out: String)
    ensures
        out@ == config::path(cfg.pbf@, id@ + ".osm.pbf"@),
{
    cfg.extract(id)
}

/// The transfer of the coastline.
pub fn land_want(cfg: &Config) -> (want: Want)
    ensures
        want.label@ == "land polygons"@,
        want.url@ == tuning::LAND_URL@,
        want.dest@ == config::path(cfg.pbf@, "land-polygons-split-3857.zip"@),
{
    Want { label: "land polygons".to_owned(), url: tuning::LAND_URL.to_owned(), dest: cfg.land_zip() }
}

/// Whether a file is large enough to be a whole download.
pub fn present(len: Option<u64>) -> (r: bool)
    ensures
        r == (len is Some && len->0 > 1_000_000),
{
    match len {
        Some(n) => n > 1_000_000,
        None => false,
    }
}

/// The regions to fetch: those that are named, with the children of Europe where
/// they are asked for, each one once and in order.
pub fn wanted(named: &Vec<String>, children: Vec<String>) -> (out: Vec<String>)
    ensures
        names::strictly_ascending(text::texts(out@)),
        forall|s: Seq<char>|
            text::texts(out@).contains(s) <==> text::texts(named@).contains(s) || text::texts(children@).contains(s),
{
    let mut all: Vec<String> = Vec::new();
    let mut i: usize = 0;
    while i < named.len()
        invariant
            i <= named@.len(),
            text::texts(all@) =~= text::texts(named@).take(i as int),
        decreases named@.len() - i,
    {
        let ghost before = text::texts(all@);
        all.push(named[i].clone());
        assert(text::texts(all@) =~= before.push(named@[i as int]@));
        i = i + 1;
    }
    let mut n: usize = 0;
    assert(text::texts(named@).take(i as int) =~= text::texts(named@));
    while n < children.len()
        invariant
            n <= children@.len(),
            text::texts(all@) =~= text::texts(named@) + text::texts(children@).take(n as int),
        decreases children@.len() - n,
    {
        let ghost before = text::texts(all@);
        all.push(children[n].clone());
        assert(text::texts(all@) =~= before.push(children@[n as int]@));
        n = n + 1;
    }
    proof {
        let a = text::texts(named@);
        let b = text::texts(children@);
        assert(b.take(n as int) =~= b);
        assert forall|s: Seq<char>| (a + b).contains(s) <==> a.contains(s) || b.contains(s) by {
            if a.contains(s) {
                let k = choose|k: int| 0 <= k < a.len() && a[k] == s;
                assert((a + b)[k] == s);
            }
            if b.contains(s) {
                let k = choose|k: int| 0 <= k < b.len() && b[k] == s;
                assert((a + b)[a.len() + k] == s);
            }
        }
    }
    names::distinct(all)
}

/// Where an extract lies already, though not where it belongs.
pub fn elsewhere(have: &Vec<Region>, id: &str, in_place: bool) -> (r: Option<String>)
    ensures
        match r {
            Some(p) => !in_place && exists|i: int|
                0 <= i < have@.len() && (#[trigger] have@[i]).name@ == id@ && have@[i].path@ == p@ && forall|j: int|
                    0 <= j < i ==> (#[trigger] have@[j]).name@ != id@,
            None => in_place || !config::region_names(have@).contains(id@),
        },
{
    if in_place {
        return None;
    }
    let mut i: usize = 0;
    while i < have.len()
        invariant
            i <= have@.len(),
            !in_place,
            forall|j: int| 0 <= j < i ==> (#[trigger] have@[j]).name@ != id@,
        decreases have@.len() - i,
    {
        if text::same(have[i].name.as_str(), id) {
            return Some(have[i].path.clone());
        }
        i = i + 1;
    }
    proof {
        if config::region_names(have@).contains(id@) {
            let k = choose|k: int| 0 <= k < have@.len() && config::region_names(have@)[k] == id@;
            assert(have@[k].name@ == id@);
        }
    }
    None
}

/// What becomes of a region that is to be downloaded.
#[derive(Debug)]
pub enum Action {
    /// Its extract is here already, and is put in its place.
    Adopt(String),
    /// It is fetched.
    Fetch(Want),
    /// There is nothing to fetch.
    Refuse(UrlError),
}

impl Index {
    /// The transfer of a region's extract.
    pub fn want(&self, cfg: &Config, id: &str) -> (r: Result<Want, UrlError>)
        ensures
            match entry_at(self.entries@, id@, 0) {
                None => {
                    &&& r is Err
                    &&& r->Err_0 is Unknown
                    &&& text::texts(r->Err_0->Unknown_0@) == near(self.entries@, id@, self.entries@.len())
                },
                Some(i) => match self.entries@[i].pbf {
                    Some(url) => {
                        &&& r is Ok
                        &&& r->Ok_0.label@ == id@
                        &&& r->Ok_0.url@ == url@
                        &&& r->Ok_0.dest@ == config::path(cfg.pbf@, id@ + ".osm.pbf"@)
                    },
                    None => r == Err::<Want, UrlError>(UrlError::NoPbf),
                },
            },
    {
        match self.pbf_url(id) {
            Ok(url) => Ok(Want { label: id.to_owned(), url, dest: dest(cfg, id) }),
            Err(e) => Err(e),
        }
    }

    /// Decides what becomes of a region: an extract that lies elsewhere is put in its
    /// place, rather than hours be spent to fetch what is here; any other is fetched.
    pub fn decide(&self, cfg: &Config, have: &Vec<Region>, id: &str, in_place: bool) -> (r: Action)
        ensures
            match r {
                Action::Adopt(p) => !in_place && exists|i: int|
                    0 <= i < have@.len() && (#[trigger] have@[i]).name@ == id@ && have@[i].path@ == p@ && forall|j: int|
                        0 <= j < i ==> (#[trigger] have@[j]).name@ != id@,
                Action::Fetch(want) => {
                    &&& in_place || !config::region_names(have@).contains(id@)
                    &&& want.label@ == id@
                    &&& want.dest@ == config::path(cfg.pbf@, id@ + ".osm.pbf"@)
                    &&& entry_at(self.entries@, id@, 0) matches Some(i) && self.entries@[i].pbf matches Some(url)
                        && want.url@ == url@
                },
                Action::Refuse(e) => {
                    &&& in_place || !config::region_names(have@).contains(id@)
                    &&& match entry_at(self.entries@, id@, 0) {
                        None => e is Unknown && text::texts(e->Unknown_0@) == near(
                            self.entries@,
                            id@,
                            self.entries@.len(),
                        ),
                        Some(i) => self.entries@[i].pbf is None && e is NoPbf,
                    }
                },
            },
    {
        match elsewhere(have, id, in_place) {
            Some(p) => Action::Adopt(p),
            None => match self.want(cfg, id) {
                Ok(want) => Action::Fetch(want),
                Err(e) => Action::Refuse(e),
            },
        }
    }
}

/// Whether there is nothing at all to do, which is an error: neither a transfer nor
/// an extract that was put in its place.
pub fn nothing_to_do(wants: usize, adopted: usize) -> (r: bool)
    ensures
        r == (wants == 0 && adopted == 0),
{
    wants == 0 && adopted == 0
}

/// How many bytes of a file are still to fetch.
pub fn outstanding(remote: Option<u64>, have: u64) -> (n: u64)
    ensures
        n == (match remote {
            Some(r) => if r > have {
                r - have
            } else {
                0
            },
            None => 0,
        }),
{
    match remote {
        Some(r) => if r > have {
            r - have
        } else {
            0
        },
        None => 0,
    }
}

/// Whether a file is complete: as long as the other side says it is. That a file is
/// there says nothing, for that is what an interrupted transfer leaves behind.
pub fn complete(have: u64, remote: Option<u64>) -> (r: bool)
    ensures
        r == (remote == Some(have) && have > 0),
{
    match remote {
        Some(n) => have == n && n > 0,
        None => false,
    }
}

/// How often one file is tried. Each attempt goes on where the last one stopped.
pub const ATTEMPTS: u32 = 5;

/// How many seconds to wait after a failed attempt, or nothing where it was the last
/// one.
pub fn retry_after(attempt: u32) -> (r: Option<u64>)
    ensures
        r == (if attempt < ATTEMPTS {
            Some((2 * attempt) as u64)
        } else {
            None
        }),
{
    if attempt < ATTEMPTS {
        Some(2 * attempt as u64)
    } else {
        None
    }
}

/// The range to ask for, so that a transfer goes on and does not start over.
pub fn range(have: u64) -> (r: Option<String>)
    ensures
        text::text_of(r) == (if have > 0 {
            Some("bytes="@ + text::decimal(have as nat) + "-"@)
        } else {
            None
        }),
{
    if have == 0 {
        return None;
    }
    let mut out: String = "bytes=".to_owned();
    text::put_decimal(&mut out, have);
    out.push_str("-");
    Some(out)
}

/// The length that a header gives.
pub fn content_length(value: &str) -> (r: Option<u64>)
    ensures
        match r {
            Some(n) => text::parsed(value@, u64::MAX as nat) == Some(n as nat),
            None => text::parsed(value@, u64::MAX as nat) is None,
        },
{
    text::parse(value, u64::MAX)
}

/// A transfer that has been answered.
#[derive(Clone, Copy, Debug, PartialEq, Eq, Structural)]
pub struct Transfer {
    /// Whether the answer goes on where the file ends, or starts over.
    pub resumed: bool,
    /// How long the whole file is, where that is known.
    pub total: Option<u64>,
    /// How much of it is there.
    pub done: u64,
}

impl Transfer {
    /// Whether less has arrived than there is.
    pub open spec fn is_short(self) -> bool {
        self.total is Some && self.done < self.total->0
    }

    /// Reads an answer: its status, the length of its body, and the length that was
    /// found for the whole file before. An answer that does not go on makes the file
    /// start over.
    pub fn answered(status: u16, have: u64, remote: Option<u64>, body: Option<u64>) -> (t: Transfer)
        requires
            remote is None && body is Some && status == 206 ==> body->0 + have <= u64::MAX,
        ensures
            t.resumed == (status == 206),
            t.done == (if status == 206 {
                have
            } else {
                0
            }),
            t.total == (match remote {
                Some(n) => Some(n),
                None => match body {
                    Some(n) => Some((n + t.done) as u64),
                    None => None,
                },
            }),
    {
        let resumed: bool = status == 206;
        let done: u64 = if resumed {
            have
        } else {
            0
        };
        let total: Option<u64> = match remote {
            Some(n) => Some(n),
            None => match body {
                Some(n) => Some(n + done),
                None => None,
            },
        };
        Transfer { resumed, total, done }
    }

    /// Counts bytes that have arrived.
    pub fn arrived(&mut self, n: u64)
        requires
            old(self).done + n <= u64::MAX,
        ensures
            *final(self) == (Transfer { done: (old(self).done + n) as u64, ..*old(self) }),
    {
        self.done = self.done + n;
    }

    /// Whether the transfer ended too early: a connection that is cut ends as cleanly
    /// as one that is done, and only the length tells them apart.
    pub fn truncated(&self) -> (r: Option<String>)
        ensures
            text::text_of(r) == (if self.is_short() {
                Some(
                    "truncated at "@ + progress::size(self.done as nat) + " of "@ + progress::size(
                        self.total->0 as nat,
                    ),
                )
            } else {
                None
            }),
    {
        match self.total {
            Some(total) => {
                if self.done < total {
                    let mut out: String = "truncated at ".to_owned();
                    let done: String = progress::bytes(self.done);
                    out.push_str(done.as_str());
                    out.push_str(" of ");
                    let whole: String = progress::bytes(total);
                    out.push_str(whole.as_str());
                    Some(out)
                } else {
                    None
                }
            },
            None => None,
        }
    }
}

/// Interrupting a transfer and starting it again ends with the whole file: a transfer
/// that goes on after `have` bytes is whole once the bytes that were left have
/// arrived, and not before.
pub proof fn law_a_resumed_transfer_completes(t: Transfer, have: u64, total: u64, n: u64)
    requires
        t.resumed,
        t.total == Some(total),
        t.done == have,
        have + n <= total,
    ensures
        (Transfer { done: (t.done + n) as u64, ..t }).is_short() <==> n < total - have,
{
}

/// What is said of transfers that failed. `$a` of `$b` failed, and `$c` are their
/// names.
pub const FAILED: &'static str = "$a of $b failed: $c -- re-run to resume where they stopped";

/// What is said of transfers that failed.
pub fn failed(failures: &Vec<String>, total: usize) -> (out: String)
    ensures
        out@ == text::filled(
            FAILED@,
            seq![
                text::decimal(failures@.len()),
                text::decimal(total as nat),
                text::joined(text::texts(failures@), ", "@),
            ],
        ),
{
    let n: String = text::number(failures.len() as u64);
    let all: String = text::number(total as u64);
    let list: String = text::join(failures, ", ");
    let values: [&str; 3] = [n.as_str(), all.as_str(), list.as_str()];
    assert(text::strs(values@) =~= seq![n@, all@, list@]);
    text::fill(FAILED, &values)
}

/// A cell of the list of regions: whether a region is here, and its name.
pub open spec fn region_cell(id: Seq<char>, have: Seq<Seq<char>>) -> Seq<char> {
    (if have.contains(id) {
        "[x] "@
    } else {
        "[ ] "@
    }) + text::left(id, 26)
}

/// The cells from one to before another, in a row.
pub open spec fn region_cells(ids: Seq<Seq<char>>, have: Seq<Seq<char>>, from: int, to: int) -> Seq<char>
    decreases to - from,
{
    if to <= from {
        Seq::empty()
    } else {
        region_cells(ids, have, from, to - 1) + region_cell(ids[to - 1], have)
    }
}

/// The end of the row that starts at a cell.
pub open spec fn row_end(from: int, n: int) -> int {
    if from + 4 < n {
        from + 4
    } else {
        n
    }
}

/// The list of regions, four to a row.
pub open spec fn region_rows(ids: Seq<Seq<char>>, have: Seq<Seq<char>>, from: int) -> Seq<Seq<char>>
    decreases ids.len() + 4 - from,
{
    if from >= ids.len() {
        Seq::empty()
    } else {
        seq!["  "@ + region_cells(ids, have, from, row_end(from, ids.len() as int))] + region_rows(
            ids,
            have,
            from + 4,
        )
    }
}

/// The list of regions, four to a row, with a mark on those that are here.
pub fn rows(ids: &Vec<String>, have: &Vec<String>) -> (out: Vec<String>)
    ensures
        text::texts(out@) == region_rows(text::texts(ids@), text::texts(have@), 0),
{
    let mut out: Vec<String> = Vec::new();
    let mut from: usize = 0;
    let ghost all = text::texts(ids@);
    let ghost here = text::texts(have@);
    assert(text::texts(out@) + region_rows(all, here, 0) =~= region_rows(all, here, 0));
    while from < ids.len()
        invariant
            from <= ids@.len(),
            all == text::texts(ids@),
            here == text::texts(have@),
            text::texts(out@) + region_rows(all, here, from as int) == region_rows(all, here, 0),
        decreases ids@.len() - from,
    {
        let last: usize = if ids.len() - from > 4 {
            from + 4
        } else {
            ids.len()
        };
        let mut row: String = "  ".to_owned();
        let mut i: usize = from;
        assert("  "@ + region_cells(all, here, from as int, from as int) =~= "  "@);
        while i < last
            invariant
                from <= i <= last <= ids@.len(),
                all == text::texts(ids@),
                here == text::texts(have@),
                row@ == "  "@ + region_cells(all, here, from as int, i as int),
            decreases last - i,
        {
            let ghost before = row@;
            let id: &str = ids[i].as_str();
            assert(all[i as int] == id@);
            if text::listed(have, id) {
                row.push_str("[x] ");
            } else {
                row.push_str("[ ] ");
            }
            text::put_left(&mut row, id, 26);
            assert(row@ =~= before + region_cell(id@, here));
            assert(row@ =~= "  "@ + region_cells(all, here, from as int, i + 1));
            i = i + 1;
        }
        let ghost shown = row@;
        let ghost before = text::texts(out@);
        out.push(row);
        proof {
            assert(last == row_end(from as int, all.len() as int));
            assert(text::texts(out@) =~= before.push(shown));
            assert(region_rows(all, here, from as int) =~= seq![shown] + region_rows(all, here, from + 4));
            if from + 4 > all.len() {
                assert(region_rows(all, here, from + 4) =~= Seq::empty());
                assert(region_rows(all, here, last as int) =~= Seq::empty());
            }
            assert(text::texts(out@) + region_rows(all, here, last as int) =~= before + region_rows(
                all,
                here,
                from as int,
            ));
        }
        from = last;
    }
    assert(region_rows(all, here, from as int) =~= Seq::empty());
    assert(text::texts(out@) =~= text::texts(out@) + Seq::empty());
    out
}

/// The regions that are here and not in the list.
pub open spec fn extras(have: Seq<Seq<char>>, ids: Seq<Seq<char>>) -> Seq<Seq<char>>
    decreases have.len(),
{
    if have.len() == 0 {
        Seq::empty()
    } else if ids.contains(have.last()) {
        extras(have.drop_last(), ids)
    } else {
        extras(have.drop_last(), ids).push(have.last())
    }
}

/// The regions that are here and not in the list.
pub fn extra(have: &Vec<String>, ids: &Vec<String>) -> (out: Vec<String>)
    ensures
        text::texts(out@) == extras(text::texts(have@), text::texts(ids@)),
{
    let mut out: Vec<String> = Vec::new();
    let mut i: usize = 0;
    let ghost here = text::texts(have@);
    assert(text::texts(out@) =~= extras(here.take(0), text::texts(ids@)));
    while i < have.len()
        invariant
            i <= have@.len(),
            here == text::texts(have@),
            text::texts(out@) == extras(here.take(i as int), text::texts(ids@)),
        decreases have@.len() - i,
    {
        let ghost before = text::texts(out@);
        assert(here.take(i + 1).drop_last() =~= here.take(i as int));
        assert(here[i as int] == have@[i as int]@);
        if !text::listed(ids, have[i].as_str()) {
            out.push(have[i].clone());
            assert(text::texts(out@) =~= before.push(have@[i as int]@));
        }
        i = i + 1;
    }
    assert(here.take(i as int) =~= here);
    out
}

/// **The catalogue holds every entry that has an id**, in the order they are published in,
/// and no other.
pub proof fn law_entries_without_an_id_are_left_out(list: Seq<(Option<Seq<char>>, Option<Seq<char>>, Option<Seq<char>>)>)
    ensures
        named(list) == list.filter(
            |w: (Option<Seq<char>>, Option<Seq<char>>, Option<Seq<char>>)| w.0 is Some,
        ),
    decreases list.len(),
{
    reveal(Seq::filter);
    let picks = |w: (Option<Seq<char>>, Option<Seq<char>>, Option<Seq<char>>)| w.0 is Some;
    if list.len() == 0 {
        assert(named(list) =~= list.filter(picks));
    } else {
        law_entries_without_an_id_are_left_out(list.drop_last());
    }
}

proof fn lemma_europeans(entries: Seq<Entry>, n: nat)
    requires
        n <= entries.len(),
    ensures
        europeans(entries, n) == entries.take(n as int).filter(|e: Entry| text::text_of(e.parent) == Some("europe"@) && e.id@ != "alps"@ && e.id@ != "dach"@ && e.id@ != "britain-and-ireland"@ && e.id@ != "united-kingdom"@ && e.pbf is Some).map_values(|e: Entry| e.id@),
    decreases n,
{
    reveal(Seq::filter);
    let picks = |e: Entry| text::text_of(e.parent) == Some("europe"@) && e.id@ != "alps"@ && e.id@ != "dach"@ && e.id@ != "britain-and-ireland"@ && e.id@ != "united-kingdom"@ && e.pbf is Some;
    let gives = |e: Entry| e.id@;
    let front = entries.take(n as int);
    if n == 0 {
        assert(europeans(entries, n) =~= front.filter(picks).map_values(gives));
    } else {
        lemma_europeans(entries, (n - 1) as nat);
        let earlier = entries.take(n - 1);
        assert(front.drop_last() =~= earlier);
        assert(front.last() == entries[n - 1]);
        if picks(entries[n - 1]) {
            assert(front.filter(picks) == earlier.filter(picks).push(entries[n - 1]));
            assert(front.filter(picks).map_values(gives) =~= earlier.filter(picks).map_values(gives).push(
                gives(entries[n - 1]),
            ));
        } else {
            assert(front.filter(picks) == earlier.filter(picks));
        }
    }
}

/// **Europe has every entry below it that has an extract**, but for the four that lie
/// across others.
pub proof fn law_which_countries_europe_has(entries: Seq<Entry>)
    ensures
        europeans(entries, entries.len()) == entries.filter(|e: Entry| text::text_of(e.parent) == Some("europe"@) && e.id@ != "alps"@ && e.id@ != "dach"@ && e.id@ != "britain-and-ireland"@ && e.id@ != "united-kingdom"@ && e.pbf is Some).map_values(|e: Entry| e.id@),
{
    lemma_europeans(entries, entries.len());
    assert(entries.take(entries.len() as int) =~= entries);
}

/// **The addresses of Europe are those of every entry below it that has one**, but for the
/// four entries that lie across others.
pub proof fn law_which_addresses_europe_has(list: Seq<(Option<Seq<char>>, Option<Seq<char>>, Option<Seq<char>>)>)
    ensures
        european_urls(list) == list.filter(
            |w: (Option<Seq<char>>, Option<Seq<char>>, Option<Seq<char>>)| w.1 == Some("europe"@) && w.0 != Some("alps"@) && w.0 != Some("dach"@) && w.0 != Some("britain-and-ireland"@) && w.0 != Some("united-kingdom"@) && w.2 is Some,
        ).map_values(|w: (Option<Seq<char>>, Option<Seq<char>>, Option<Seq<char>>)| w.2->0),
    decreases list.len(),
{
    reveal_strlit("alps");
    reveal_strlit("dach");
    reveal_strlit("britain-and-ireland");
    reveal_strlit("united-kingdom");
    reveal_strlit("");
    reveal(Seq::filter);
    let picks = |w: (Option<Seq<char>>, Option<Seq<char>>, Option<Seq<char>>)| w.1 == Some("europe"@) && w.0 != Some("alps"@) && w.0 != Some("dach"@) && w.0 != Some("britain-and-ireland"@) && w.0 != Some("united-kingdom"@) && w.2 is Some;
    let gives = |w: (Option<Seq<char>>, Option<Seq<char>>, Option<Seq<char>>)| w.2->0;
    if list.len() == 0 {
        assert(european_urls(list) =~= list.filter(picks).map_values(gives));
    } else {
        law_which_addresses_europe_has(list.drop_last());
        let (id, parent, pbf) = list.last();
        assert(""@.len() == 0 && "alps"@.len() == 4 && "dach"@.len() == 4);
        assert("britain-and-ireland"@.len() == 19 && "united-kingdom"@.len() == 14);
        assert(!tuning::is_aggregate(""@));
        assert(picks(list.last()) <==> parent == Some("europe"@) && !tuning::is_aggregate(id_or_empty(id)) && pbf is Some);
        if picks(list.last()) {
            assert(list.filter(picks).map_values(gives) =~= list.drop_last().filter(picks).map_values(gives).push(
                gives(list.last()),
            ));
        }
    }
}

/// **What is extra is here and not listed**, and all that is so is extra.
pub proof fn law_extras_are_not_listed(have: Seq<Seq<char>>, ids: Seq<Seq<char>>)
    ensures
        extras(have, ids) == have.filter(
            |w: Seq<char>| !ids.contains(w),
        ),
    decreases have.len(),
{
    reveal(Seq::filter);
    let picks = |w: Seq<char>| !ids.contains(w);
    if have.len() == 0 {
        assert(extras(have, ids) =~= have.filter(picks));
    } else {
        law_extras_are_not_listed(have.drop_last(), ids);
    }
}

/// **A region is the first entry that has its id**, and there is none only if no entry
/// has it.
pub proof fn law_a_region_is_the_first_of_its_id(entries: Seq<Entry>, id: Seq<char>, n: int)
    requires
        0 <= n <= entries.len(),
    ensures
        match entry_at(entries, id, n) {
            Some(i) => n <= i < entries.len() && entries[i].id@ == id && forall|j: int|
                n <= j < i ==> (#[trigger] entries[j]).id@ != id,
            None => forall|j: int| n <= j < entries.len() ==> (#[trigger] entries[j]).id@ != id,
        },
    decreases entries.len() - n,
{
    if n < entries.len() && entries[n].id@ != id {
        law_a_region_is_the_first_of_its_id(entries, id, n + 1);
    }
}

proof fn lemma_near(entries: Seq<Entry>, id: Seq<char>, n: nat)
    requires
        n <= entries.len(),
    ensures
        ({
            let like = entries.take(n as int).filter(|e: Entry| is_near(e.id@, id)).map_values(|e: Entry| e.id@);
            near(entries, id, n) == like.take(if like.len() < 8 { like.len() as int } else { 8 })
        }),
    decreases n,
{
    reveal(Seq::filter);
    let picks = |e: Entry| is_near(e.id@, id);
    let gives = |e: Entry| e.id@;
    let front = entries.take(n as int);
    let like = front.filter(picks).map_values(gives);
    if n == 0 {
        assert(near(entries, id, n) =~= like.take(like.len() as int));
    } else {
        lemma_near(entries, id, (n - 1) as nat);
        let earlier = entries.take(n - 1);
        let before = earlier.filter(picks).map_values(gives);
        assert(front.drop_last() =~= earlier);
        assert(front.last() == entries[n - 1]);
        if picks(entries[n - 1]) {
            assert(like =~= before.push(entries[n - 1].id@));
            if before.len() < 8 {
                assert(before.take(before.len() as int) =~= before);
                assert(like.take(like.len() as int) =~= like);
            } else {
                assert(like.take(8) =~= before.take(8));
            }
        } else {
            assert(like == before);
        }
    }
}

/// **What is suggested for an unknown region are the first eight whose ids hold it or
/// stand in it.**
pub proof fn law_the_nearest_eight_are_suggested(entries: Seq<Entry>, id: Seq<char>, a: Seq<char>)
    ensures
        ({
            let like = entries.filter(|e: Entry| is_near(e.id@, id)).map_values(|e: Entry| e.id@);
            near(entries, id, entries.len()) == like.take(if like.len() < 8 { like.len() as int } else { 8 })
        }),
        is_near(a, id) <==> (exists|at: int| #[trigger] text::stands_at(a, id, at)) || (exists|at: int| #[trigger]
            text::stands_at(id, a, at)),
{
    lemma_near(entries, id, entries.len());
    assert(entries.take(entries.len() as int) =~= entries);
    text::law_a_place_is_the_first(a, id, 0);
    text::law_a_place_is_the_first(id, a, 0);
}

proof fn lemma_region_rows(ids: Seq<Seq<char>>, have: Seq<Seq<char>>, from: int, r: int)
    requires
        0 <= from,
        0 <= r,
    ensures
        4 * region_rows(ids, have, from).len() < ids.len() - from + 4 || from >= ids.len(),
        4 * region_rows(ids, have, from).len() >= ids.len() - from,
        from >= ids.len() ==> region_rows(ids, have, from).len() == 0,
        r < region_rows(ids, have, from).len() ==> region_rows(ids, have, from)[r] == "  "@ + region_cells(
            ids,
            have,
            from + 4 * r,
            row_end(from + 4 * r, ids.len() as int),
        ),
    decreases ids.len() + 4 - from,
{
    if from < ids.len() {
        if r > 0 {
            lemma_region_rows(ids, have, from + 4, r - 1);
        } else {
            lemma_region_rows(ids, have, from + 4, 0);
        }
    }
}

/// **Regions are listed four to a row, each one once and in their order**: the `r`-th row
/// holds the four that stand behind the rows before it, and the last row what is left.
pub proof fn law_regions_are_listed_by_fours(ids: Seq<Seq<char>>, have: Seq<Seq<char>>, r: int)
    requires
        0 <= r < region_rows(ids, have, 0).len(),
    ensures
        4 * (region_rows(ids, have, 0).len() - 1) < ids.len() <= 4 * region_rows(ids, have, 0).len(),
        4 * r + 4 <= ids.len() ==> region_rows(ids, have, 0)[r] == "  "@ + (region_cell(ids[4 * r], have) + region_cell(
            ids[4 * r + 1],
            have,
        ) + region_cell(ids[4 * r + 2], have) + region_cell(ids[4 * r + 3], have)),
        4 * r + 4 > ids.len() ==> region_rows(ids, have, 0)[r] == "  "@ + region_cells(
            ids,
            have,
            4 * r,
            ids.len() as int,
        ),
{
    lemma_region_rows(ids, have, 0, r);
    reveal_with_fuel(region_cells, 6);
    if 4 * r + 4 <= ids.len() {
        assert(region_cells(ids, have, 4 * r, 4 * r + 4) =~= region_cell(ids[4 * r], have) + region_cell(
            ids[4 * r + 1],
            have,
        ) + region_cell(ids[4 * r + 2], have) + region_cell(ids[4 * r + 3], have));
    }
}

/// A region that is here has a cross, and one that is not has none; the names begin in
/// the same columns.
pub proof fn law_a_cross_marks_what_is_here(id: Seq<char>, have: Seq<Seq<char>>)
    ensures
        region_cell(id, have).len() == if id.len() < 26 { 30 } else { 4 + id.len() },
        region_cell(id, have)[1] == 'x' <==> have.contains(id),
        region_cell(id, have).subrange(4, 4 + id.len() as int) == id,
{
    reveal_strlit("[x] ");
    reveal_strlit("[ ] ");
    assert(region_cell(id, have).subrange(4, 4 + id.len() as int) =~= id);
}

} // verus!
