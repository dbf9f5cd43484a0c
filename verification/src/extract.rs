//! What becomes of the objects of an extract.
//!
//! An extract stores nodes, then ways, then relations, so it is read three
//! times: which relations are wanted and which ways they need, then which ways
//! are kept and which nodes they need, then where those nodes are. This module
//! takes each object as it is decoded and decides; nothing here reads a file.

use crate::rings;
use crate::rows::{extends, Interner, Row, TagSet, Tags, Texts};
use crate::rows;
use crate::sort;
use crate::sort::Rank;
use crate::text;
use crate::wkb;
use crate::wkb::Pt;
use std::collections::HashSet;
use vstd::prelude::*;

verus! {

broadcast use vstd::std_specs::hash::group_hash_axioms;

/// No coordinate stored for a node yet. A node at exactly (-1e-7, -1e-7) would
/// be indistinguishable; it is 11 metres off Null Island and it does not exist.
pub const MISSING: u64 = 0xffff_ffff_ffff_ffff;

/// Waterways worth drawing as a line. Everything else tagged `waterway` is
/// either an area or too small to matter.
pub open spec fn is_waterway_line(word: Seq<char>) -> bool {
    ||| word == "river"@
    ||| word == "canal"@
    ||| word == "stream"@
    ||| word == "ditch"@
    ||| word == "drain"@
}

/// A closed way with any of these is a candidate area.
pub open spec fn is_area_key(word: Seq<char>) -> bool {
    ||| word == "building"@
    ||| word == "landuse"@
    ||| word == "natural"@
    ||| word == "leisure"@
    ||| word == "water"@
    ||| word == "waterway"@
}

/// Settlements worth a label.
pub open spec fn is_place_kind(word: Seq<char>) -> bool {
    ||| word == "city"@
    ||| word == "town"@
}

fn waterway_line(word: &str) -> (r: bool)
    ensures
        r == is_waterway_line(word@),
{
    text::same(word, "river") || text::same(word, "canal") || text::same(word, "stream")
        || text::same(word, "ditch") || text::same(word, "drain")
}

fn area_key(word: &str) -> (r: bool)
    ensures
        r == is_area_key(word@),
{
    text::same(word, "building") || text::same(word, "landuse") || text::same(word, "natural")
        || text::same(word, "leisure") || text::same(word, "water") || text::same(word, "waterway")
}

fn place_kind(word: &str) -> (r: bool)
    ensures
        r == is_place_kind(word@),
{
    text::same(word, "city") || text::same(word, "town")
}

/// The keys and values of tags as texts.
pub open spec fn pairs(tags: Seq<(&str, &str)>) -> Seq<(Seq<char>, Seq<char>)> {
    tags.map_values(|t: (&str, &str)| (t.0@, t.1@))
}


/// The last value among the first `n` tags with this key.
pub open spec fn last_value(tags: Seq<(Seq<char>, Seq<char>)>, key: Seq<char>, n: nat) -> Option<Seq<char>>
    decreases n,
{
    if n == 0 {
        None
    } else if tags[n - 1].0 == key {
        Some(tags[n - 1].1)
    } else {
        last_value(tags, key, (n - 1) as nat)
    }
}

/// The last value of a key.
pub open spec fn value(tags: Seq<(Seq<char>, Seq<char>)>, key: Seq<char>) -> Option<Seq<char>> {
    last_value(tags, key, tags.len())
}

/// Whether one of the first `n` tags makes its object a candidate area.
pub open spec fn has_area_key(tags: Seq<(Seq<char>, Seq<char>)>, n: nat) -> bool
    decreases n,
{
    if n == 0 {
        false
    } else {
        is_area_key(tags[n - 1].0) || has_area_key(tags, (n - 1) as nat)
    }
}

proof fn lemma_place_keys_differ()
    ensures
        "name"@ != "place"@,
        "name"@ != "population"@,
        "place"@ != "population"@,
{
    reveal_strlit("name");
    reveal_strlit("place");
    reveal_strlit("population");
    assert("name"@.len() == 4 && "place"@.len() == 5 && "population"@.len() == 10);
}

/// The keys of the tags that are kept, told apart by their length and their first
/// letters.
proof fn lemma_tag_keys_differ()
    ensures
        "name"@.len() == 4,
        "water"@.len() == 5,
        "highway"@.len() == 7,
        "landuse"@.len() == 7,
        "natural"@.len() == 7,
        "leisure"@.len() == 7,
        "waterway"@.len() == 8,
        "building"@.len() == 8,
        "highway"@[0] == 'h',
        "landuse"@[1] == 'a',
        "landuse"@[0] == 'l',
        "leisure"@[1] == 'e',
        "leisure"@[0] == 'l',
        "natural"@[0] == 'n',
        "waterway"@[0] == 'w',
        "building"@[0] == 'b',
{
    reveal_strlit("name");
    reveal_strlit("water");
    reveal_strlit("highway");
    reveal_strlit("landuse");
    reveal_strlit("natural");
    reveal_strlit("leisure");
    reveal_strlit("waterway");
    reveal_strlit("building");
}

// --- settlements ----------------------------------------------------------

/// A named settlement, for labels. The position is the bits of its two
/// floating-point degrees.
pub struct Place {
    pub name: String,
    pub kind: String,
    pub population: i64,
    pub lon: u64,
    pub lat: u64,
}

/// The kind of settlement among the first `n` tags: the last `place` tag that is
/// worth a label.
pub open spec fn last_kind(tags: Seq<(Seq<char>, Seq<char>)>, n: nat) -> Option<Seq<char>>
    decreases n,
{
    if n == 0 {
        None
    } else if tags[n - 1].0 == "place"@ && is_place_kind(tags[n - 1].1) {
        Some(tags[n - 1].1)
    } else {
        last_kind(tags, (n - 1) as nat)
    }
}

/// The number the digits among the first `n` characters spell, whatever stands
/// between them, and how many digits there are.
pub open spec fn digits(s: Seq<char>, n: nat) -> (int, int)
    decreases n,
{
    if n == 0 {
        (0, 0)
    } else {
        let (v, count) = digits(s, (n - 1) as nat);
        let c = s[n - 1];
        if text::is_digit(c) {
            (v * 10 + (c as int - '0' as int), count + 1)
        } else {
            (v, count)
        }
    }
}

/// A population as mappers write it: `1 234 567`, `approx 40000`, `40,000`. The
/// digits count and the rest is ignored; a number too large to hold is 0.
pub open spec fn population_of(s: Seq<char>) -> int {
    let v = digits(s, s.len()).0;
    if v <= i64::MAX {
        v
    } else {
        0
    }
}

proof fn lemma_digits_grow(s: Seq<char>, m: nat, n: nat)
    requires
        m <= n,
    ensures
        0 <= digits(s, m).0 <= digits(s, n).0,
    decreases n,
{
    if m < n {
        lemma_digits_grow(s, m, (n - 1) as nat);
        let v = digits(s, (n - 1) as nat).0;
        assert(v <= v * 10);
    } else if n > 0 {
        lemma_digits_grow(s, (n - 1) as nat, (n - 1) as nat);
    }
}

/// Reads a population.
pub fn population(s: &str) -> (n: i64)
    ensures
        n == population_of(s@),
{
    let chars: Vec<char> = text::chars(s);
    let mut v: i64 = 0;
    let mut i: usize = 0;
    while i < chars.len()
        invariant
            i <= chars@.len(),
            chars@ == s@,
            0 <= v,
            v == digits(s@, i as nat).0,
        decreases chars@.len() - i,
    {
        let c: char = chars[i];
        if '0' <= c && c <= '9' {
            let d: i64 = (c as u32 - '0' as u32) as i64;
            if v > (i64::MAX - d) / 10 {
                proof {
                    lemma_digits_grow(s@, (i + 1) as nat, s@.len());
                }
                return 0;
            }
            v = v * 10 + d;
        }
        i = i + 1;
    }
    v
}

/// Adds the settlement a node's tags describe: it needs a name and a kind worth
/// a label.
pub fn collect_place(tags: &[(&str, &str)], lon: u64, lat: u64, out: &mut Vec<Place>)
    ensures
        match (value(pairs(tags@), "name"@), last_kind(pairs(tags@), tags@.len())) {
            (Some(name), Some(kind)) => {
                &&& final(out)@.len() == old(out)@.len() + 1
                &&& final(out)@.drop_last() == old(out)@
                &&& final(out)@.last().name@ == name
                &&& final(out)@.last().kind@ == kind
                &&& final(out)@.last().population == (match value(pairs(tags@), "population"@) {
                    Some(s) => population_of(s),
                    None => 0,
                })
                &&& final(out)@.last().lon == lon
                &&& final(out)@.last().lat == lat
            },
            _ => final(out)@ == old(out)@,
        },
{
    let mut name: Option<String> = None;
    let mut kind: Option<String> = None;
    let mut people: i64 = 0;
    let mut i: usize = 0;
    while i < tags.len()
        invariant
            i <= tags@.len(),
            text::text_of(name) == last_value(pairs(tags@), "name"@, i as nat),
            text::text_of(kind) == last_kind(pairs(tags@), i as nat),
            people == (match last_value(pairs(tags@), "population"@, i as nat) {
                Some(s) => population_of(s),
                None => 0,
            }),
        decreases tags@.len() - i,
    {
        let (k, v) = tags[i];
        proof {
            lemma_place_keys_differ();
        }
        if text::same(k, "name") {
            name = Some(v.to_owned());
        } else if text::same(k, "place") {
            if place_kind(v) {
                kind = Some(v.to_owned());
            }
        } else if text::same(k, "population") {
            people = population(v);
        }
        i = i + 1;
    }
    match name {
        Some(name) => {
            match kind {
                Some(kind) => {
                    out.push(Place { name, kind, population: people, lon, lat });
                    assert(out@.drop_last() =~= old(out)@);
                },
                None => {},
            }
        },
        None => {},
    }
}

// --- tags -----------------------------------------------------------------

/// The tags a line keeps.
pub open spec fn line_texts(tags: Seq<(Seq<char>, Seq<char>)>, n: nat) -> Texts {
    Texts {
        name: last_value(tags, "name"@, n),
        highway: last_value(tags, "highway"@, n),
        waterway: last_value(tags, "waterway"@, n),
        building: None,
        landuse: None,
        natural: None,
        leisure: None,
        water: None,
    }
}

/// The tags an area keeps.
pub open spec fn area_texts(tags: Seq<(Seq<char>, Seq<char>)>, n: nat) -> Texts {
    Texts {
        name: last_value(tags, "name"@, n),
        highway: None,
        waterway: last_value(tags, "waterway"@, n),
        building: last_value(tags, "building"@, n),
        landuse: last_value(tags, "landuse"@, n),
        natural: last_value(tags, "natural"@, n),
        leisure: last_value(tags, "leisure"@, n),
        water: last_value(tags, "water"@, n),
    }
}

/// A tag set says the same under a vocabulary that has grown.
pub proof fn law_words_keep_their_meaning(
    set: TagSet,
    earlier: Seq<Seq<char>>,
    words: Seq<Seq<char>>,
)
    requires
        set.wf(earlier),
        extends(words, earlier),
    ensures
        set.wf(words),
        set.texts(words) == set.texts(earlier),
{
}

/// The tags of a line, as ids.
pub fn line_tags(tags: &[(&str, &str)], words: &mut Interner) -> (set: TagSet)
    requires
        old(words).wf(),
        old(words)@.len() + tags@.len() < rows::NO_TAG,
    ensures
        final(words).wf(),
        final(words)@.len() <= old(words)@.len() + tags@.len(),
        extends(final(words)@, old(words)@),
        set.wf(final(words)@),
        set.texts(final(words)@) == line_texts(pairs(tags@), tags@.len()),
{
    let mut set: TagSet = TagSet::default();
    let mut i: usize = 0;
    while i < tags.len()
        invariant
            i <= tags@.len(),
            words.wf(),
            old(words)@.len() + tags@.len() < rows::NO_TAG,
            words@.len() <= old(words)@.len() + i,
            extends(words@, old(words)@),
            set.wf(words@),
            set.texts(words@) == line_texts(pairs(tags@), i as nat),
        decreases tags@.len() - i,
    {
        let (k, v) = tags[i];
        let ghost before = words@;
        proof {
            lemma_tag_keys_differ();
        }
        let ghost held = set;
        if text::same(k, "name") {
            set.name = words.intern(v);
        } else if text::same(k, "highway") {
            set.highway = words.intern(v);
        } else if text::same(k, "waterway") {
            set.waterway = words.intern(v);
        }
        proof {
            law_words_keep_their_meaning(held, before, words@);
        }
        i = i + 1;
    }
    set
}

/// The tags of an area, as ids.
pub fn area_tags(tags: &[(&str, &str)], words: &mut Interner) -> (set: TagSet)
    requires
        old(words).wf(),
        old(words)@.len() + tags@.len() < rows::NO_TAG,
    ensures
        final(words).wf(),
        final(words)@.len() <= old(words)@.len() + tags@.len(),
        extends(final(words)@, old(words)@),
        set.wf(final(words)@),
        set.texts(final(words)@) == area_texts(pairs(tags@), tags@.len()),
{
    let mut set: TagSet = TagSet::default();
    let mut i: usize = 0;
    while i < tags.len()
        invariant
            i <= tags@.len(),
            words.wf(),
            old(words)@.len() + tags@.len() < rows::NO_TAG,
            words@.len() <= old(words)@.len() + i,
            extends(words@, old(words)@),
            set.wf(words@),
            set.texts(words@) == area_texts(pairs(tags@), i as nat),
        decreases tags@.len() - i,
    {
        let (k, v) = tags[i];
        let ghost before = words@;
        proof {
            lemma_tag_keys_differ();
        }
        let ghost held = set;
        if text::same(k, "name") {
            set.name = words.intern(v);
        } else if text::same(k, "waterway") {
            set.waterway = words.intern(v);
        } else if text::same(k, "building") {
            set.building = words.intern(v);
        } else if text::same(k, "landuse") {
            set.landuse = words.intern(v);
        } else if text::same(k, "natural") {
            set.natural = words.intern(v);
        } else if text::same(k, "leisure") {
            set.leisure = words.intern(v);
        } else if text::same(k, "water") {
            set.water = words.intern(v);
        }
        proof {
            law_words_keep_their_meaning(held, before, words@);
        }
        i = i + 1;
    }
    set
}

// --- relations ------------------------------------------------------------

/// A member of a relation.
#[derive(Clone, Copy, Debug, PartialEq, Eq, Structural)]
pub enum Member {
    Node(i64),
    Way(i64),
    Relation(i64),
}

/// A relation that is drawn as an area: its tags, and the ways it is built from.
pub struct RelArea {
    pub id: i64,
    pub tags: TagSet,
    pub members: Vec<i64>,
}

/// The ways among the first `n` members.
pub open spec fn ways_of(members: Seq<Member>, n: nat) -> Seq<i64>
    decreases n,
{
    if n == 0 {
        Seq::empty()
    } else {
        let before = ways_of(members, (n - 1) as nat);
        match members[n - 1] {
            Member::Way(id) => before.push(id),
            _ => before,
        }
    }
}

/// Whether a relation is among the first `n` members.
pub open spec fn is_nested(members: Seq<Member>, n: nat) -> bool
    decreases n,
{
    if n == 0 {
        false
    } else {
        members[n - 1] is Relation || is_nested(members, (n - 1) as nat)
    }
}

/// Whether a relation is drawn: it carries a tag that makes it an area, it is a
/// multipolygon or a boundary, it has ways, and none of its members is itself a
/// relation.
pub open spec fn is_wanted_relation(tags: Seq<(Seq<char>, Seq<char>)>, members: Seq<Member>) -> bool {
    &&& has_area_key(tags, tags.len())
    &&& value(tags, "type"@) == Some("multipolygon"@) || value(tags, "type"@) == Some("boundary"@)
    &&& !is_nested(members, members.len())
    &&& ways_of(members, members.len()).len() > 0
}

/// Keeps a relation if it is drawn.
pub fn visit_relation(
    id: i64,
    tags: &[(&str, &str)],
    members: &[Member],
    words: &mut Interner,
    out: &mut Vec<RelArea>,
)
    requires
        old(words).wf(),
        old(words)@.len() + tags@.len() < rows::NO_TAG,
    ensures
        final(words).wf(),
        final(words)@.len() <= old(words)@.len() + tags@.len(),
        extends(final(words)@, old(words)@),
        !is_wanted_relation(pairs(tags@), members@) ==> final(out)@ == old(out)@ && final(words)@ == old(
            words,
        )@,
        is_wanted_relation(pairs(tags@), members@) ==> {
            &&& final(out)@.len() == old(out)@.len() + 1
            &&& final(out)@.drop_last() == old(out)@
            &&& final(out)@.last().id == id
            &&& final(out)@.last().members@ == ways_of(members@, members@.len())
            &&& final(out)@.last().tags.wf(final(words)@)
            &&& final(out)@.last().tags.texts(final(words)@) == area_texts(pairs(tags@), tags@.len())
        },
{
    let mut drawn_kind = false;
    let mut wanted = false;
    let mut i: usize = 0;
    proof {
        reveal_strlit("type");
        reveal_strlit("multipolygon");
        reveal_strlit("boundary");
    }
    while i < tags.len()
        invariant
            i <= tags@.len(),
            wanted == has_area_key(pairs(tags@), i as nat),
            drawn_kind == (last_value(pairs(tags@), "type"@, i as nat) == Some("multipolygon"@)
                || last_value(pairs(tags@), "type"@, i as nat) == Some("boundary"@)),
        decreases tags@.len() - i,
    {
        let (k, v) = tags[i];
        if text::same(k, "type") {
            drawn_kind = text::same(v, "multipolygon") || text::same(v, "boundary");
        }
        if area_key(k) {
            wanted = true;
        }
        i = i + 1;
    }
    if !wanted || !drawn_kind {
        return;
    }
    let mut ways: Vec<i64> = Vec::new();
    let mut nested = false;
    let mut i: usize = 0;
    while i < members.len()
        invariant
            i <= members@.len(),
            ways@ == ways_of(members@, i as nat),
            nested == is_nested(members@, i as nat),
        decreases members@.len() - i,
    {
        match members[i] {
            Member::Way(way) => {
                ways.push(way);
            },
            Member::Relation(_) => {
                nested = true;
            },
            Member::Node(_) => {},
        }
        i = i + 1;
    }
    if nested || ways.len() == 0 {
        return;
    }
    let set: TagSet = area_tags(tags, words);
    out.push(RelArea { id, tags: set, members: ways });
    assert(out@.drop_last() =~= old(out)@);
}

/// Whether one of the first `n` relations is built from a way.
pub open spec fn needs_way(relations: Seq<RelArea>, n: nat, way: i64) -> bool
    decreases n,
{
    if n == 0 {
        false
    } else {
        relations[n - 1].members@.contains(way) || needs_way(relations, (n - 1) as nat, way)
    }
}

/// Every way some relation is built from.
pub fn wanted_ways(relations: &Vec<RelArea>) -> (wanted: HashSet<i64>)
    ensures
        forall|way: i64| #[trigger]
            wanted@.contains(way) <==> needs_way(relations@, relations@.len(), way),
{
    let mut wanted: HashSet<i64> = HashSet::new();
    let mut i: usize = 0;
    while i < relations.len()
        invariant
            i <= relations@.len(),
            forall|way: i64| #[trigger]
                wanted@.contains(way) <==> needs_way(relations@, i as nat, way),
        decreases relations@.len() - i,
    {
        let members: &Vec<i64> = &relations[i].members;
        let ghost before = wanted@;
        let mut j: usize = 0;
        while j < members.len()
            invariant
                j <= members@.len(),
                forall|way: i64| #[trigger]
                    wanted@.contains(way) <==> before.contains(way) || members@.take(
                        j as int,
                    ).contains(way),
            decreases members@.len() - j,
        {
            wanted.insert(members[j]);
            j = j + 1;
            proof {
                let now = members@.take(j as int);
                let earlier = members@.take(j - 1);
                assert(now =~= earlier.push(members@[j - 1]));
                assert forall|way: i64| #[trigger] wanted@.contains(way) <==> before.contains(way)
                    || now.contains(way) by {
                    if earlier.contains(way) {
                        let k = choose|k: int| 0 <= k < earlier.len() && earlier[k] == way;
                        assert(now[k] == way);
                    }
                    if way == members@[j - 1] {
                        assert(now[j - 1] == way);
                    }
                    if now.contains(way) {
                        let k = choose|k: int| 0 <= k < now.len() && now[k] == way;
                        if k < j - 1 {
                            assert(earlier[k] == way);
                        }
                    }
                }
            }
        }
        assert(members@.take(members@.len() as int) =~= members@);
        i = i + 1;
    }
    wanted
}

// --- ways -----------------------------------------------------------------

/// Where one way's node ids live.
#[derive(Clone, Copy, Debug, PartialEq, Eq, Structural)]
pub struct Span {
    pub way: i64,
    pub chunk: usize,
    pub start: usize,
    pub count: usize,
}

/// Spans go by way.
impl Rank for Span {
    open spec fn rank(self) -> int {
        self.way as int
    }

    fn at_most(self, other: Span) -> (r: bool) {
        self.way <= other.way
    }
}

/// Node ids of many ways: an `index` over `chunks` that hold the ids end to end.
///
/// The chunks are never joined into one buffer, which is what makes merging
/// cheap, and sorting touches only the index, so ids never move.
pub struct WayRefs {
    pub index: Vec<Span>,
    pub chunks: Vec<Vec<i64>>,
}

/// The node ids a span names.
pub open spec fn span_ids(chunks: Seq<Vec<i64>>, s: Span) -> Seq<i64> {
    chunks[s.chunk as int]@.subrange(s.start as int, s.start + s.count)
}

/// Whether a span lies inside its chunk.
pub open spec fn span_fits(chunks: Seq<Vec<i64>>, s: Span) -> bool {
    s.chunk < chunks.len() && s.start + s.count <= chunks[s.chunk as int]@.len()
}

/// Ids in the first `n` chunks.
pub open spec fn chunks_total(chunks: Seq<Vec<i64>>, n: nat) -> int
    decreases n,
{
    if n == 0 {
        0
    } else {
        chunks_total(chunks, (n - 1) as nat) + chunks[n - 1]@.len()
    }
}

/// Whether one of the first `n` chunks holds an id.
pub open spec fn in_chunks(chunks: Seq<Vec<i64>>, id: i64) -> bool {
    exists|c: int| 0 <= c < chunks.len() && (#[trigger] chunks[c])@.contains(id)
}

impl View for WayRefs {
    type V = Seq<(i64, Seq<i64>)>;

    /// The ways, in the order of the index, each with its node ids.
    open spec fn view(&self) -> Seq<(i64, Seq<i64>)> {
        self.index@.map_values(|s: Span| (s.way, span_ids(self.chunks@, s)))
    }
}

impl WayRefs {
    /// Every span lies inside its chunk.
    pub open spec fn wf(self) -> bool {
        forall|i: int| 0 <= i < self.index@.len() ==> span_fits(self.chunks@, #[trigger] self.index@[i])
    }

    /// No ways.
    pub fn new() -> (refs: WayRefs)
        ensures
            refs.wf(),
            refs@ == Seq::<(i64, Seq<i64>)>::empty(),
            refs.index@.len() == 0,
            refs.chunks@.len() == 0,
    {
        let refs = WayRefs { index: Vec::new(), chunks: Vec::new() };
        assert(refs@ =~= Seq::<(i64, Seq<i64>)>::empty());
        refs
    }

    pub fn len(&self) -> (n: usize)
        ensures
            n == self@.len(),
    {
        self.index.len()
    }

    /// Adds a way and its node ids.
    pub fn push(&mut self, way: i64, ids: &[i64])
        requires
            old(self).wf(),
        ensures
            final(self).wf(),
            final(self)@ == old(self)@.push((way, ids@)),
    {
        let ghost before = *self;
        let mut buf: Vec<i64> = match self.chunks.pop() {
            Some(buf) => buf,
            None => Vec::new(),
        };
        let ghost held = buf@;
        let start: usize = buf.len();
        let mut i: usize = 0;
        assert(buf@ =~= held + ids@.take(0));
        while i < ids.len()
            invariant
                i <= ids@.len(),
                buf@ == held + ids@.take(i as int),
            decreases ids@.len() - i,
        {
            buf.push(ids[i]);
            i = i + 1;
            assert(buf@ =~= held + ids@.take(i as int));
        }
        assert(ids@.take(ids@.len() as int) =~= ids@);
        let chunk: usize = self.chunks.len();
        self.chunks.push(buf);
        self.index.push(Span { way, chunk, start, count: ids.len() });
        proof {
            let old_chunks = before.chunks@;
            let chunks = self.chunks@;
            assert forall|k: int| 0 <= k < before.index@.len() implies span_fits(
                chunks,
                #[trigger] before.index@[k],
            ) && span_ids(chunks, before.index@[k]) == span_ids(old_chunks, before.index@[k]) by {
                let s = before.index@[k];
                assert(span_fits(old_chunks, s));
                if s.chunk < chunks.len() - 1 {
                    assert(chunks[s.chunk as int] == old_chunks[s.chunk as int]);
                } else {
                    assert(held == old_chunks[s.chunk as int]@);
                    assert(span_ids(chunks, s) =~= span_ids(old_chunks, s));
                }
            }
            let fresh = self.index@.last();
            assert(span_ids(chunks, fresh) =~= ids@);
            assert forall|k: int| 0 <= k < self.index@.len() implies span_fits(
                chunks,
                #[trigger] self.index@[k],
            ) by {
                if k < before.index@.len() {
                    assert(self.index@[k] == before.index@[k]);
                }
            }
            assert(self@ =~= before@.push((way, ids@))) by {
                assert forall|k: int| 0 <= k < self@.len() implies self@[k] == before@.push(
                    (way, ids@),
                )[k] by {
                    if k < before.index@.len() {
                        assert(self.index@[k] == before.index@[k]);
                        assert(span_ids(chunks, before.index@[k]) == span_ids(
                            old_chunks,
                            before.index@[k],
                        ));
                    }
                }
            }
        }
    }

    /// Sorts the index by way. The ids do not move.
    pub fn sort(&mut self)
        requires
            old(self).wf(),
        ensures
            final(self).wf(),
            final(self).chunks == old(self).chunks,
            sort::sorted(final(self).index@),
            final(self).index@.to_multiset() == old(self).index@.to_multiset(),
    {
        let ghost before = self.index@;
        self.index = sort::sort(&self.index);
        proof {
            assert forall|i: int| 0 <= i < self.index@.len() implies span_fits(
                self.chunks@,
                #[trigger] self.index@[i],
            ) by {
                sort::lemma_same_values(self.index@, before, self.index@[i]);
                assert(self.index@.contains(self.index@[i]));
                let k = choose|k: int| 0 <= k < before.len() && before[k] == self.index@[i];
                assert(span_fits(old(self).chunks@, before[k]));
            }
        }
    }

    /// The node ids of one way. `None` if it is not there.
    pub fn get(&self, id: i64) -> (r: Option<&[i64]>)
        requires
            self.wf(),
            sort::sorted(self.index@),
        ensures
            match r {
                Some(ids) => self@.contains((id, ids@)),
                None => forall|k: int| 0 <= k < self@.len() ==> (#[trigger] self@[k]).0 != id,
            },
    {
        let mut lo: usize = 0;
        let mut hi: usize = self.index.len();
        while lo < hi
            invariant
                lo <= hi <= self.index@.len(),
                sort::sorted(self.index@),
                forall|k: int| 0 <= k < lo ==> (#[trigger] self.index@[k]).way < id,
                forall|k: int| hi <= k < self.index@.len() ==> (#[trigger] self.index@[k]).way >= id,
            decreases hi - lo,
        {
            let mid: usize = lo + (hi - lo) / 2;
            if self.index[mid].way < id {
                proof {
                    assert forall|k: int| 0 <= k < mid + 1 implies (#[trigger] self.index@[k]).way
                        < id by {
                        if k < mid {
                            assert(self.index@[k].rank() <= self.index@[mid as int].rank());
                        }
                    }
                }
                lo = mid + 1;
            } else {
                proof {
                    assert forall|k: int| mid <= k < self.index@.len() implies (
                    #[trigger] self.index@[k]).way >= id by {
                        if k > mid {
                            assert(self.index@[mid as int].rank() <= self.index@[k].rank());
                        }
                    }
                }
                hi = mid;
            }
        }
        if lo < self.index.len() && self.index[lo].way == id {
            let s: Span = self.index[lo];
            assert(span_fits(self.chunks@, self.index@[lo as int]));
            let chunk: &[i64] = self.chunks[s.chunk].as_slice();
            assert(s.start + s.count <= chunk.len());
            let ids: &[i64] = vstd::slice::slice_subrange(chunk, s.start, s.start + s.count);
            assert(self@[lo as int] == (id, ids@));
            Some(ids)
        } else {
            proof {
                assert forall|k: int| 0 <= k < self@.len() implies (#[trigger] self@[k]).0 != id by {
                    assert(self@[k].0 == self.index@[k].way);
                    if k > lo {
                        assert(self.index@[lo as int].rank() <= self.index@[k].rank());
                    }
                }
            }
            None
        }
    }

    /// Total ids held.
    pub fn total(&self) -> (n: usize)
        requires
            chunks_total(self.chunks@, self.chunks@.len()) <= usize::MAX,
        ensures
            n == chunks_total(self.chunks@, self.chunks@.len()),
    {
        let mut n: usize = 0;
        let mut i: usize = 0;
        while i < self.chunks.len()
            invariant
                i <= self.chunks@.len(),
                n == chunks_total(self.chunks@, i as nat),
                chunks_total(self.chunks@, self.chunks@.len()) <= usize::MAX,
            decreases self.chunks@.len() - i,
        {
            proof {
                lemma_total_grows(self.chunks@, (i + 1) as nat, self.chunks@.len());
            }
            n = n + self.chunks[i].len();
            i = i + 1;
        }
        n
    }

    /// Appends the ways of `other`. Its chunks come to sit behind this one's, so
    /// only the chunk numbers shift; the ids do not move.
    pub fn merge(&mut self, other: WayRefs)
        requires
            old(self).wf(),
            other.wf(),
            old(self).chunks@.len() + other.chunks@.len() <= usize::MAX,
        ensures
            final(self).wf(),
            final(self)@ == old(self)@ + other@,
    {
        let ghost before = *self;
        let base: usize = self.chunks.len();
        let mut i: usize = 0;
        while i < other.index.len()
            invariant
                i <= other.index@.len(),
                base == before.chunks@.len(),
                other.wf(),
                base + other.chunks@.len() <= usize::MAX,
                self.chunks == before.chunks,
                self.index@.len() == before.index@.len() + i,
                forall|k: int|
                    0 <= k < before.index@.len() ==> #[trigger] self.index@[k] == before.index@[k],
                forall|k: int|
                    0 <= k < i ==> #[trigger] self.index@[before.index@.len() + k] == (Span {
                        chunk: (other.index@[k].chunk + base) as usize,
                        ..other.index@[k]
                    }),
            decreases other.index@.len() - i,
        {
            let s: Span = other.index[i];
            assert(span_fits(other.chunks@, other.index@[i as int]));
            self.index.push(
                Span { way: s.way, chunk: s.chunk + base, start: s.start, count: s.count },
            );
            i = i + 1;
        }
        let mut moved: Vec<Vec<i64>> = other.chunks;
        self.chunks.append(&mut moved);
        proof {
            let chunks = self.chunks@;
            let n = before.index@.len();
            assert(chunks =~= before.chunks@ + other.chunks@);
            assert forall|k: int| 0 <= k < self.index@.len() implies span_fits(
                chunks,
                #[trigger] self.index@[k],
            ) && (self.index@[k].way, span_ids(chunks, self.index@[k])) == (before@ + other@)[k] by {
                if k < n {
                    let s = before.index@[k];
                    assert(self.index@[k] == s);
                    assert(span_fits(before.chunks@, s));
                    assert(chunks[s.chunk as int] == before.chunks@[s.chunk as int]);
                    assert((before@ + other@)[k] == before@[k]);
                } else {
                    let s = other.index@[k - n];
                    assert(self.index@[n + (k - n)] == (Span {
                        chunk: (s.chunk + base) as usize,
                        ..s
                    }));
                    assert(span_fits(other.chunks@, s));
                    assert(chunks[s.chunk + base] == other.chunks@[s.chunk as int]);
                    assert((before@ + other@)[k] == other@[k - n]);
                }
            }
            assert(self@ =~= before@ + other@);
        }
    }
}

proof fn lemma_total_grows(chunks: Seq<Vec<i64>>, m: nat, n: nat)
    requires
        m <= n,
    ensures
        0 <= chunks_total(chunks, m) <= chunks_total(chunks, n),
    decreases n,
{
    if m < n {
        lemma_total_grows(chunks, m, (n - 1) as nat);
    } else if n > 0 {
        lemma_total_grows(chunks, (n - 1) as nat, (n - 1) as nat);
    }
}

/// The ways that are kept: those drawn as lines, those drawn as areas, and the
/// node ids of both and of whatever the wanted relations need.
pub struct Ways {
    pub lines: Vec<(i64, TagSet)>,
    pub areas: Vec<(i64, TagSet)>,
    pub refs: WayRefs,
}

/// Whether a way is drawn as a line: a road, or a waterway worth drawing.
pub open spec fn is_line(tags: Seq<(Seq<char>, Seq<char>)>) -> bool {
    ||| value(tags, "highway"@) is Some
    ||| value(tags, "waterway"@) matches Some(w) && is_waterway_line(w)
}

/// Whether a way is drawn as an area: it carries a tag that makes it one, it does
/// not say that it is none, and it is closed, with three corners at least.
pub open spec fn is_area(tags: Seq<(Seq<char>, Seq<char>)>, refs: Seq<i64>) -> bool {
    &&& has_area_key(tags, tags.len())
    &&& value(tags, "area"@) != Some("no"@)
    &&& refs.len() >= 4
    &&& refs[0] == refs.last()
}

/// Whether a way is drawn as a line, and whether as an area.
pub fn way_kind(tags: &[(&str, &str)], refs: &[i64]) -> (r: (bool, bool))
    ensures
        r.0 == is_line(pairs(tags@)),
        r.1 == is_area(pairs(tags@), refs@),
{
    let mut highway = false;
    let mut waterway = false;
    let mut key = false;
    let mut area_no = false;
    let mut i: usize = 0;
    proof {
        reveal_strlit("area");
        reveal_strlit("highway");
        reveal_strlit("waterway");
        assert("area"@.len() == 4 && "highway"@.len() == 7 && "waterway"@.len() == 8);
    }
    while i < tags.len()
        invariant
            i <= tags@.len(),
            "area"@.len() == 4 && "highway"@.len() == 7 && "waterway"@.len() == 8,
            highway == last_value(pairs(tags@), "highway"@, i as nat) is Some,
            waterway == (last_value(pairs(tags@), "waterway"@, i as nat) matches Some(w)
                && is_waterway_line(w)),
            area_no == (last_value(pairs(tags@), "area"@, i as nat) == Some("no"@)),
            key == has_area_key(pairs(tags@), i as nat),
        decreases tags@.len() - i,
    {
        let (k, v) = tags[i];
        if text::same(k, "highway") {
            highway = true;
        } else if text::same(k, "waterway") {
            waterway = waterway_line(v);
        } else if text::same(k, "area") {
            area_no = text::same(v, "no");
        }
        if area_key(k) {
            key = true;
        }
        i = i + 1;
    }
    let n: usize = refs.len();
    (highway || waterway, key && !area_no && n >= 4 && refs[0] == refs[n - 1])
}

impl Ways {
    pub fn new() -> (ways: Ways)
        ensures
            ways.refs.wf(),
            ways.lines@.len() == 0,
            ways.areas@.len() == 0,
            ways.refs@ == Seq::<(i64, Seq<i64>)>::empty(),
            ways.refs.chunks@.len() == 0,
    {
        Ways { lines: Vec::new(), areas: Vec::new(), refs: WayRefs::new() }
    }

    /// Keeps a way if it is drawn, or if a wanted relation is built from it.
    pub fn visit(
        &mut self,
        id: i64,
        tags: &[(&str, &str)],
        ids: &[i64],
        wanted: &HashSet<i64>,
        words: &mut Interner,
    )
        requires
            old(self).refs.wf(),
            old(words).wf(),
            old(words)@.len() + 2 * tags@.len() < rows::NO_TAG,
        ensures
            final(self).refs.wf(),
            final(words).wf(),
            final(words)@.len() <= old(words)@.len() + 2 * tags@.len(),
            extends(final(words)@, old(words)@),
            final(self).refs@ == if is_line(pairs(tags@)) || is_area(pairs(tags@), ids@) || wanted@.contains(id) {
                old(self).refs@.push((id, ids@))
            } else {
                old(self).refs@
            },
            if is_line(pairs(tags@)) {
                &&& final(self).lines@.len() == old(self).lines@.len() + 1
                &&& final(self).lines@.drop_last() == old(self).lines@
                &&& final(self).lines@.last().0 == id
                &&& final(self).lines@.last().1.wf(final(words)@)
                &&& final(self).lines@.last().1.texts(final(words)@) == line_texts(
                    pairs(tags@),
                    tags@.len(),
                )
            } else {
                final(self).lines@ == old(self).lines@
            },
            if is_area(pairs(tags@), ids@) {
                &&& final(self).areas@.len() == old(self).areas@.len() + 1
                &&& final(self).areas@.drop_last() == old(self).areas@
                &&& final(self).areas@.last().0 == id
                &&& final(self).areas@.last().1.wf(final(words)@)
                &&& final(self).areas@.last().1.texts(final(words)@) == area_texts(
                    pairs(tags@),
                    tags@.len(),
                )
            } else {
                final(self).areas@ == old(self).areas@
            },
    {
        let (line, area) = way_kind(tags, ids);
        if !line && !area && !wanted.contains(&id) {
            return;
        }
        let ghost start = words@;
        let ghost mut between = words@;
        if line {
            let set: TagSet = line_tags(tags, words);
            self.lines.push((id, set));
            proof {
                between = words@;
            }
            assert(self.lines@.drop_last() =~= old(self).lines@);
        }
        if area {
            let set: TagSet = area_tags(tags, words);
            self.areas.push((id, set));
            assert(self.areas@.drop_last() =~= old(self).areas@);
            proof {
                if line {
                    law_words_keep_their_meaning(self.lines@.last().1, between, words@);
                }
            }
        }
        self.refs.push(id, ids);
    }

    /// Appends what another worker kept, in its own vocabulary.
    pub fn merge(&mut self, other: Ways, theirs: &Interner, words: &mut Interner)
        requires
            old(self).refs.wf(),
            other.refs.wf(),
            old(self).refs.chunks@.len() + other.refs.chunks@.len() <= usize::MAX,
            old(words).wf(),
            theirs.wf(),
            old(words)@.len() + theirs@.len() < rows::NO_TAG,
            all_known(other.lines@, theirs@),
            all_known(other.areas@, theirs@),
        ensures
            final(words).wf(),
            final(words)@.len() <= old(words)@.len() + theirs@.len(),
            extends(final(words)@, old(words)@),
            final(self).refs.wf(),
            final(self).refs@ == old(self).refs@ + other.refs@,
            appended(old(self).lines@, final(self).lines@, final(words)@, set_rows(other.lines@, theirs@)),
            appended(old(self).areas@, final(self).areas@, final(words)@, set_rows(other.areas@, theirs@)),
    {
        let table: Vec<u32> = words.absorb(theirs);
        append_renamed(&mut self.lines, &other.lines, &table, Ghost(theirs@), Ghost(words@));
        append_renamed(&mut self.areas, &other.areas, &table, Ghost(theirs@), Ghost(words@));
        self.refs.merge(other.refs);
    }
}

/// Whether every id in a list of tag sets stands for a word.
pub open spec fn all_known(sets: Seq<(i64, TagSet)>, words: Seq<Seq<char>>) -> bool {
    forall|i: int| 0 <= i < sets.len() ==> (#[trigger] sets[i]).1.wf(words)
}

/// A list of tag sets as text.
pub open spec fn set_rows(sets: Seq<(i64, TagSet)>, words: Seq<Seq<char>>) -> Seq<(i64, Texts)> {
    sets.map_values(|s: (i64, TagSet)| (s.0, s.1.texts(words)))
}

/// Whether a list of tag sets is an earlier one with rows of text behind it, each as a
/// set whose ids stand for that text.
pub open spec fn appended(
    before: Seq<(i64, TagSet)>,
    after: Seq<(i64, TagSet)>,
    words: Seq<Seq<char>>,
    rows: Seq<(i64, Texts)>,
) -> bool {
    &&& after.len() == before.len() + rows.len()
    &&& after.take(before.len() as int) == before
    &&& all_known(after.skip(before.len() as int), words)
    &&& set_rows(after.skip(before.len() as int), words) == rows
}

/// Appends tag sets of another vocabulary, by a table of the ids its words have in this
/// one.
fn append_renamed(
    into: &mut Vec<(i64, TagSet)>,
    from: &Vec<(i64, TagSet)>,
    table: &Vec<u32>,
    Ghost(theirs): Ghost<Seq<Seq<char>>>,
    Ghost(words): Ghost<Seq<Seq<char>>>,
)
    requires
        all_known(from@, theirs),
        rows::is_table(table@, theirs, words),
    ensures
        appended(old(into)@, final(into)@, words, set_rows(from@, theirs)),
{
    let mut i: usize = 0;
    let ghost start = into@;
    let ghost n = into@.len() as int;
    let ghost want = set_rows(from@, theirs);
    assert(into@.take(n) =~= start);
    assert(set_rows(into@.skip(n), words) =~= want.take(0));
    while i < from.len()
        invariant
            i <= from@.len(),
            all_known(from@, theirs),
            rows::is_table(table@, theirs, words),
            want == set_rows(from@, theirs),
            n == start.len(),
            appended(start, into@, words, want.take(i as int)),
        decreases from@.len() - i,
    {
        let ghost before = into@;
        let (id, set): (i64, TagSet) = from[i];
        proof {
            assert(from@[i as int].1.wf(theirs));
            rows::law_renaming_keeps_the_text(set, table@, theirs, words);
        }
        let here: TagSet = set.rename(table);
        into.push((id, here));
        proof {
            assert(into@.take(n) =~= before.take(n));
            assert(into@.skip(n) =~= before.skip(n).push((id, here)));
            assert(set_rows(into@.skip(n), words) =~= set_rows(before.skip(n), words).push((id, here.texts(words))));
            assert(want.take(i + 1) =~= want.take(i as int).push(want[i as int]));
            assert(all_known(into@.skip(n), words));
        }
        i = i + 1;
    }
    assert(want.take(i as int) =~= want);
}

// --- nodes ----------------------------------------------------------------

/// A position as one number: latitude and longitude in 1e-7 degrees, as two
/// 32-bit halves in two's complement.
pub open spec fn packed(lat: i32, lon: i32) -> u64 {
    (half(lat) * 0x1_0000_0000 + half(lon)) as u64
}

/// A signed number as 32 bits.
pub open spec fn half(v: i32) -> int {
    if v < 0 {
        v + 0x1_0000_0000
    } else {
        v as int
    }
}

/// 32 bits as a signed number.
pub open spec fn signed(v: int) -> int {
    if v >= 0x8000_0000 {
        v - 0x1_0000_0000
    } else {
        v
    }
}

fn half_of(v: i32) -> (r: u64)
    ensures
        r == half(v),
        r < 0x1_0000_0000,
{
    if v < 0 {
        (v as i64 + 0x1_0000_0000) as u64
    } else {
        v as u64
    }
}

fn signed_of(v: u64) -> (r: i32)
    requires
        v < 0x1_0000_0000,
    ensures
        r == signed(v as int),
{
    if v >= 0x8000_0000 {
        (v as i64 - 0x1_0000_0000) as i32
    } else {
        v as i32
    }
}

/// A position as one number.
pub fn pack(lat: i32, lon: i32) -> (v: u64)
    ensures
        v == packed(lat, lon),
{
    half_of(lat) * 0x1_0000_0000 + half_of(lon)
}

/// Back to longitude and latitude, in 1e-7 degrees.
pub fn unpack(v: u64) -> (r: (i32, i32))
    ensures
        r.0 == signed(v as int % 0x1_0000_0000),
        r.1 == signed(v as int / 0x1_0000_0000),
{
    (signed_of(v % 0x1_0000_0000), signed_of(v / 0x1_0000_0000))
}

/// A position survives being packed, and only one position cannot be told from a
/// missing one.
pub proof fn law_positions_survive(lat: i32, lon: i32)
    ensures
        signed(packed(lat, lon) as int % 0x1_0000_0000) == lon,
        signed(packed(lat, lon) as int / 0x1_0000_0000) == lat,
        packed(lat, lon) == MISSING <==> lat == -1 && lon == -1,
{
    let v = half(lat) * 0x1_0000_0000 + half(lon);
    assert(v / 0x1_0000_0000 == half(lat) && v % 0x1_0000_0000 == half(lon));
}

/// Node coordinates, in 1e-7 degrees, for a known set of ids.
pub struct Locations {
    pub ids: Vec<i64>,
    pub packed: Vec<u64>,
}

/// Whether each id is greater than the one before it.
pub open spec fn ascending(ids: Seq<i64>) -> bool {
    forall|i: int, j: int| 0 <= i < j < ids.len() ==> ids[i] < ids[j]
}

/// Every id of some chunks, once, in order.
pub fn wanted_ids(refs: &WayRefs) -> (ids: Vec<i64>)
    ensures
        ascending(ids@),
        forall|id: i64| #[trigger] ids@.contains(id) <==> in_chunks(refs.chunks@, id),
{
    let mut all: Vec<i64> = Vec::new();
    let mut i: usize = 0;
    while i < refs.chunks.len()
        invariant
            i <= refs.chunks@.len(),
            forall|id: i64| #[trigger]
                all@.contains(id) <==> in_chunks(refs.chunks@.take(i as int), id),
        decreases refs.chunks@.len() - i,
    {
        let chunk: &Vec<i64> = &refs.chunks[i];
        let ghost before = all@;
        let ghost upto = refs.chunks@.take(i as int);
        all.extend_from_slice(chunk.as_slice());
        i = i + 1;
        proof {
            let now = refs.chunks@.take(i as int);
            assert(all@ =~= before + chunk@);
            assert(now =~= upto.push(*chunk));
            assert forall|id: i64| #[trigger] all@.contains(id) <==> in_chunks(now, id) by {
                if all@.contains(id) {
                    let k = choose|k: int| 0 <= k < all@.len() && all@[k] == id;
                    if k < before.len() {
                        assert(before[k] == id);
                        assert(before.contains(id));
                        let c = choose|c: int| 0 <= c < upto.len() && (#[trigger] upto[c])@.contains(id);
                        assert(now[c] == upto[c]);
                    } else {
                        assert(chunk@[k - before.len()] == id);
                        assert(now[i - 1]@.contains(id));
                    }
                }
                if in_chunks(now, id) {
                    let c = choose|c: int| 0 <= c < now.len() && (#[trigger] now[c])@.contains(id);
                    if c < upto.len() {
                        assert(upto[c] == now[c]);
                        assert(in_chunks(upto, id));
                        assert(before.contains(id));
                        let k = choose|k: int| 0 <= k < before.len() && before[k] == id;
                        assert(all@[k] == id);
                    } else {
                        let k = choose|k: int| 0 <= k < chunk@.len() && chunk@[k] == id;
                        assert(all@[before.len() + k] == id);
                    }
                }
            }
        }
    }
    assert(refs.chunks@.take(refs.chunks@.len() as int) =~= refs.chunks@);
    let sorted: Vec<i64> = sort::sort(&all);
    let mut ids: Vec<i64> = Vec::new();
    let mut i: usize = 0;
    while i < sorted.len()
        invariant
            i <= sorted@.len(),
            sort::sorted(sorted@),
            ascending(ids@),
            i > 0 ==> ids@.len() > 0 && ids@.last() == sorted@[i - 1],
            i == 0 ==> ids@.len() == 0,
            forall|id: i64| #[trigger] ids@.contains(id) <==> sorted@.take(i as int).contains(id),
        decreases sorted@.len() - i,
    {
        let id: i64 = sorted[i];
        let n: usize = ids.len();
        let ghost before = ids@;
        if n == 0 || ids[n - 1] != id {
            proof {
                if n > 0 {
                    assert(sorted@[i - 1].rank() <= sorted@[i as int].rank());
                }
            }
            ids.push(id);
        }
        i = i + 1;
        proof {
            let earlier = sorted@.take(i - 1);
            let now = sorted@.take(i as int);
            assert forall|v: i64| #[trigger] ids@.contains(v) <==> now.contains(v) by {
                if ids@.contains(v) {
                    let k = choose|k: int| 0 <= k < ids@.len() && ids@[k] == v;
                    if k < before.len() {
                        assert(before[k] == v);
                        assert(before.contains(v));
                        let m = choose|m: int| 0 <= m < earlier.len() && earlier[m] == v;
                        assert(now[m] == v);
                    } else {
                        assert(now[i - 1] == v);
                    }
                }
                if now.contains(v) {
                    let m = choose|m: int| 0 <= m < now.len() && now[m] == v;
                    if m < i - 1 {
                        assert(earlier[m] == v);
                        assert(earlier.contains(v));
                        assert(before.contains(v));
                        let k = choose|k: int| 0 <= k < before.len() && before[k] == v;
                        assert(ids@[k] == v);
                    } else {
                        assert(ids@[ids@.len() - 1] == v);
                    }
                }
            }
        }
    }
    proof {
        assert(sorted@.take(sorted@.len() as int) =~= sorted@);
        assert forall|id: i64| #[trigger] ids@.contains(id) <==> in_chunks(refs.chunks@, id) by {
            sort::lemma_same_values(sorted@, all@, id);
            assert(all@.contains(id) <==> in_chunks(refs.chunks@, id));
        }
    }
    ids
}

/// Where an id stands among ascending ids.
fn find_id(ids: &Vec<i64>, id: i64) -> (r: Option<usize>)
    requires
        ascending(ids@),
    ensures
        match r {
            Some(k) => k < ids@.len() && ids@[k as int] == id,
            None => !ids@.contains(id),
        },
{
    let mut lo: usize = 0;
    let mut hi: usize = ids.len();
    while lo < hi
        invariant
            lo <= hi <= ids@.len(),
            ascending(ids@),
            forall|k: int| 0 <= k < lo ==> #[trigger] ids@[k] < id,
            forall|k: int| hi <= k < ids@.len() ==> #[trigger] ids@[k] > id,
        decreases hi - lo,
    {
        let mid: usize = lo + (hi - lo) / 2;
        if ids[mid] < id {
            lo = mid + 1;
        } else if ids[mid] > id {
            hi = mid;
        } else {
            return Some(mid);
        }
    }
    None
}

impl Locations {
    /// One slot for each id.
    pub open spec fn wf(self) -> bool {
        ascending(self.ids@) && self.packed@.len() == self.ids@.len()
    }

    /// What is stored for an id, if it is one of the wanted ones.
    pub open spec fn stored(self, id: i64) -> Option<u64> {
        if self.ids@.contains(id) {
            Some(self.packed@[self.ids@.index_of(id)])
        } else {
            None
        }
    }

    /// Room for these ids, with nothing stored yet.
    pub fn new(ids: Vec<i64>) -> (locations: Locations)
        requires
            ascending(ids@),
        ensures
            locations.wf(),
            locations.ids@ == ids@,
            forall|id: i64| ids@.contains(id) ==> #[trigger] locations.stored(id) == Some(MISSING),
    {
        let mut slots: Vec<u64> = Vec::new();
        while slots.len() < ids.len()
            invariant
                slots@.len() <= ids@.len(),
                forall|k: int| 0 <= k < slots@.len() ==> #[trigger] slots@[k] == MISSING,
            decreases ids@.len() - slots@.len(),
        {
            slots.push(MISSING);
        }
        Locations { ids, packed: slots }
    }

    /// Stores where a node is, if it is one of the wanted ones.
    pub fn store(&mut self, id: i64, lat: i32, lon: i32)
        requires
            old(self).wf(),
        ensures
            final(self).wf(),
            final(self).ids == old(self).ids,
            forall|other: i64| #[trigger]
                final(self).stored(other) == if other == id && old(self).ids@.contains(id) {
                    Some(packed(lat, lon))
                } else {
                    old(self).stored(other)
                },
    {
        let ghost before = *self;
        match find_id(&self.ids, id) {
            Some(k) => {
                self.packed.set(k, pack(lat, lon));
                proof {
                    assert(before.ids@.contains(id));
                    assert forall|other: i64| #[trigger]
                        self.stored(other) == if other == id && before.ids@.contains(id) {
                            Some(packed(lat, lon))
                        } else {
                            before.stored(other)
                        } by {
                        if self.ids@.contains(other) {
                            let p = self.ids@.index_of(other);
                            assert(self.ids@[p] == other);
                            if other == id {
                                assert(p == k) by {
                                    if p < k {
                                        assert(self.ids@[p] < self.ids@[k as int]);
                                    } else if p > k {
                                        assert(self.ids@[k as int] < self.ids@[p]);
                                    }
                                }
                            }
                        }
                    }
                }
            },
            None => {},
        }
    }

    /// The packed position of a node, which doubles as the identity of a place.
    /// `None` if it was not wanted, or was not in the extract.
    pub fn get(&self, id: i64) -> (r: Option<u64>)
        requires
            self.wf(),
        ensures
            r == self.at(id),
    {
        match find_id(&self.ids, id) {
            Some(k) => {
                proof {
                    assert(self.ids@.contains(id));
                    let p = self.ids@.index_of(id);
                    assert(self.ids@[p] == id);
                    if p < k {
                        assert(self.ids@[p] < self.ids@[k as int]);
                    } else if p > k {
                        assert(self.ids@[k as int] < self.ids@[p]);
                    }
                }
                if self.packed[k] == MISSING {
                    None
                } else {
                    Some(self.packed[k])
                }
            },
            None => None,
        }
    }

    /// Where a node is, if that is known.
    pub open spec fn at(self, id: i64) -> Option<u64> {
        if self.stored(id) == Some(MISSING) {
            None
        } else {
            self.stored(id)
        }
    }
}

// --- rows -----------------------------------------------------------------

/// The positions of the first `n` nodes, without the repeats a duplicated node
/// makes. A missing one fails the whole way: half a coastline is worse than none.
pub open spec fn resolved(ids: Seq<i64>, locations: Locations, n: nat) -> Option<Seq<u64>>
    decreases n,
{
    if n == 0 {
        Some(Seq::empty())
    } else {
        match resolved(ids, locations, (n - 1) as nat) {
            None => None,
            Some(out) => match locations.at(ids[n - 1]) {
                None => None,
                Some(p) => if out.len() > 0 && out.last() == p {
                    Some(out)
                } else {
                    Some(out.push(p))
                },
            },
        }
    }
}

proof fn lemma_resolved_fails(ids: Seq<i64>, locations: Locations, m: nat, n: nat)
    requires
        m <= n,
        resolved(ids, locations, m) is None,
    ensures
        resolved(ids, locations, n) is None,
    decreases n,
{
    if m < n {
        lemma_resolved_fails(ids, locations, m, (n - 1) as nat);
    }
}

/// Node ids to packed positions.
pub fn resolve(ids: &[i64], locations: &Locations) -> (r: Option<Vec<u64>>)
    requires
        locations.wf(),
    ensures
        match resolved(ids@, *locations, ids@.len()) {
            Some(out) => r is Some && r.unwrap()@ == out,
            None => r is None,
        },
{
    let mut out: Vec<u64> = Vec::new();
    let mut i: usize = 0;
    while i < ids.len()
        invariant
            i <= ids@.len(),
            locations.wf(),
            resolved(ids@, *locations, i as nat) == Some(out@),
        decreases ids@.len() - i,
    {
        let p: u64 = match locations.get(ids[i]) {
            Some(p) => p,
            None => {
                proof {
                    lemma_resolved_fails(ids@, *locations, (i + 1) as nat, ids@.len());
                }
                return None;
            },
        };
        let n: usize = out.len();
        if n == 0 || out[n - 1] != p {
            out.push(p);
        }
        i = i + 1;
    }
    Some(out)
}

/// Area ids keep ways and relations apart: a way's area is twice its id.
pub fn way_area_id(id: i64) -> (r: i64)
    requires
        i64::MIN <= 2 * id <= i64::MAX,
    ensures
        r == 2 * id,
{
    2 * id
}

/// A relation's area is twice its id and one more.
pub fn relation_area_id(id: i64) -> (r: i64)
    requires
        i64::MIN <= 2 * id,
        2 * id + 1 <= i64::MAX,
    ensures
        r == 2 * id + 1,
{
    2 * id + 1
}

/// No way's area shares an id with a relation's.
pub proof fn law_area_ids_never_collide(way: i64, relation: i64)
    ensures
        2 * way != 2 * relation + 1,
{
}

/// The positions along the members of a relation, one list for each of the first
/// `n`. `None` where a member, or a node of one, is not in the extract.
pub open spec fn member_parts(parts: Seq<Option<Seq<u64>>>, n: nat) -> Option<Seq<Seq<u64>>>
    decreases n,
{
    if n == 0 {
        Some(Seq::empty())
    } else {
        match member_parts(parts, (n - 1) as nat) {
            None => None,
            Some(out) => match parts[n - 1] {
                None => None,
                Some(part) => Some(out.push(part)),
            },
        }
    }
}

/// A way's positions, if the extract has the way and all its nodes. Of a way that
/// is there more than once, any one may be taken.
pub open spec fn way_part(refs: WayRefs, locations: Locations, way: i64, part: Option<Seq<u64>>) -> bool {
    if exists|k: int| 0 <= k < refs@.len() && (#[trigger] refs@[k]).0 == way {
        exists|ids: Seq<i64>| #[trigger]
            refs@.contains((way, ids)) && part == resolved(ids, locations, ids.len())
    } else {
        part is None
    }
}

/// An optional list as a plain sequence.
pub open spec fn points_of(points: Option<Vec<u64>>) -> Option<Seq<u64>> {
    match points {
        Some(points) => Some(points@),
        None => None,
    }
}

/// The positions along one way.
pub fn way_points(refs: &WayRefs, locations: &Locations, way: i64) -> (r: Option<Vec<u64>>)
    requires
        refs.wf(),
        sort::sorted(refs.index@),
        locations.wf(),
    ensures
        way_part(*refs, *locations, way, points_of(r)),
{
    match refs.get(way) {
        Some(ids) => {
            proof {
                let k = choose|k: int| 0 <= k < refs@.len() && refs@[k] == (way, ids@);
                assert(refs@[k].0 == way);
                assert(refs@.contains((way, ids@)));
            }
            resolve(ids, locations)
        },
        None => None,
    }
}

proof fn lemma_parts_fail(parts: Seq<Option<Seq<u64>>>, m: nat, n: nat)
    requires
        m <= n,
        member_parts(parts, m) is None,
    ensures
        member_parts(parts, n) is None,
    decreases n,
{
    if m < n {
        lemma_parts_fail(parts, m, (n - 1) as nat);
    }
}

proof fn lemma_parts_prefix(a: Seq<Option<Seq<u64>>>, b: Seq<Option<Seq<u64>>>, n: nat)
    requires
        n <= a.len(),
        n <= b.len(),
        forall|i: int| 0 <= i < n ==> a[i] == b[i],
    ensures
        member_parts(a, n) == member_parts(b, n),
    decreases n,
{
    if n > 0 {
        lemma_parts_prefix(a, b, (n - 1) as nat);
    }
}

/// The closed rings a relation's members make. `None` if a member, or a node of
/// one, is cut off by the edge of the extract, or if the members do not close.
pub fn relation_rings(members: &Vec<i64>, refs: &WayRefs, locations: &Locations) -> (r: Option<
    Vec<Vec<u64>>,
>)
    requires
        refs.wf(),
        sort::sorted(refs.index@),
        locations.wf(),
    ensures
        exists|parts: Seq<Option<Seq<u64>>>|
            #![trigger member_parts(parts, members@.len())]
            parts.len() == members@.len() && (forall|i: int|
                0 <= i < members@.len() ==> way_part(
                    *refs,
                    *locations,
                    members@[i],
                    #[trigger] parts[i],
                )) && match member_parts(parts, members@.len()) {
                None => r is None,
                Some(ways) => rings::assembled(ways, rings::rings_of(r)),
            },
{
    let mut ways: Vec<Vec<u64>> = Vec::new();
    let ghost mut parts: Seq<Option<Seq<u64>>> = Seq::empty();
    let mut i: usize = 0;
    let mut missing = false;
    assert(rings::lists(ways@) =~= Seq::<Seq<u64>>::empty());
    while i < members.len()
        invariant
            i <= members@.len(),
            refs.wf(),
            sort::sorted(refs.index@),
            locations.wf(),
            parts.len() == i,
            forall|k: int|
                0 <= k < i ==> way_part(*refs, *locations, members@[k], #[trigger] parts[k]),
            !missing ==> member_parts(parts, i as nat) == Some(rings::lists(ways@)),
            missing ==> member_parts(parts, i as nat) is None,
        decreases members@.len() - i,
    {
        let part: Option<Vec<u64>> = way_points(refs, locations, members[i]);
        let ghost before = parts;
        proof {
            parts = parts.push(points_of(part));
            lemma_parts_prefix(before, parts, i as nat);
        }
        match part {
            Some(points) => {
                let ghost held = ways@;
                ways.push(points);
                assert(rings::lists(ways@) =~= rings::lists(held).push(points@));
            },
            None => {
                missing = true;
            },
        }
        i = i + 1;
    }
    if missing {
        return None;
    }
    assert(member_parts(parts, members@.len()) == Some(rings::lists(ways@)));
    rings::assemble_rings(ways)
}

/// The rings that are still rings once duplicate positions are dropped.
pub open spec fn proper(rings: Seq<Seq<u64>>, n: nat) -> Seq<Seq<u64>>
    decreases n,
{
    if n == 0 {
        Seq::empty()
    } else if rings[n - 1].len() >= 4 {
        proper(rings, (n - 1) as nat).push(rings[n - 1])
    } else {
        proper(rings, (n - 1) as nat)
    }
}

/// Drops the rings that have collapsed, and keeps the rest of the shape.
pub fn proper_rings(rings: Vec<Vec<u64>>) -> (out: Vec<Vec<u64>>)
    ensures
        rings::lists(out@) == proper(rings::lists(rings@), rings@.len()),
{
    let mut out: Vec<Vec<u64>> = Vec::new();
    let mut i: usize = 0;
    assert(rings::lists(out@) =~= Seq::<Seq<u64>>::empty());
    while i < rings.len()
        invariant
            i <= rings@.len(),
            rings::lists(out@) == proper(rings::lists(rings@), i as nat),
        decreases rings@.len() - i,
    {
        if rings[i].len() >= 4 {
            let ghost held = out@;
            let ring: Vec<u64> = rings[i].clone();
            assert(ring@ =~= rings@[i as int]@);
            out.push(ring);
            assert(rings::lists(out@) =~= rings::lists(held).push(ring@));
        }
        assert(rings::lists(rings@)[i as int] == rings@[i as int]@);
        i = i + 1;
    }
    out
}

/// The row of a line. A line needs two points.
pub fn build_line(osm_id: i64, tags: Tags, pts: &[Pt]) -> (r: Option<Row>)
    requires
        pts@.len() <= u32::MAX,
    ensures
        r is Some <==> pts@.len() >= 2,
        r matches Some(row) ==> row.osm_id == osm_id && row.tags == tags && row.wkb@
            == wkb::linestring(pts@),
{
    if pts.len() < 2 {
        return None;
    }
    Some(Row { osm_id, tags, wkb: wkb::wkb_linestring(pts) })
}

/// The row of an area, if it has any polygon and is large enough to be seen.
pub fn build_area(osm_id: i64, tags: Tags, polys: &Vec<Vec<Vec<Pt>>>, visible: bool) -> (r: Option<
    Row,
>)
    requires
        wkb::counts_fit(polys@),
    ensures
        r is Some <==> polys@.len() > 0 && visible,
        r matches Some(row) ==> row.osm_id == osm_id && row.tags == tags && row.wkb@
            == wkb::multipolygon(polys@),
{
    if polys.len() == 0 || !visible {
        return None;
    }
    Some(Row { osm_id, tags, wkb: wkb::wkb_multipolygon(polys) })
}

// --- what holds of it all -------------------------------------------------

/// Whether a tag with this key and this value is there, and no tag behind it has the key.
pub open spec fn is_last(tags: Seq<(Seq<char>, Seq<char>)>, key: Seq<char>, v: Seq<char>) -> bool {
    exists|i: int|
        0 <= i < tags.len() && #[trigger] tags[i] == (key, v) && forall|j: int|
            i < j < tags.len() ==> (#[trigger] tags[j]).0 != key
}

/// Whether no tag has this key.
pub open spec fn no_tag(tags: Seq<(Seq<char>, Seq<char>)>, key: Seq<char>) -> bool {
    forall|i: int| 0 <= i < tags.len() ==> (#[trigger] tags[i]).0 != key
}

proof fn lemma_last_value(tags: Seq<(Seq<char>, Seq<char>)>, key: Seq<char>, n: nat)
    requires
        n <= tags.len(),
    ensures
        match last_value(tags, key, n) {
            Some(v) => exists|i: int|
                0 <= i < n && #[trigger] tags[i] == (key, v) && forall|j: int|
                    i < j < n ==> (#[trigger] tags[j]).0 != key,
            None => forall|i: int| 0 <= i < n ==> (#[trigger] tags[i]).0 != key,
        },
    decreases n,
{
    if n > 0 {
        if tags[n - 1].0 == key {
            assert(tags[n - 1] == (key, tags[n - 1].1));
        } else {
            lemma_last_value(tags, key, (n - 1) as nat);
        }
    }
}

/// **The last tag with a key counts.** The value of a key is the value of the last tag
/// that has it, and there is none exactly where no tag has it.
pub proof fn law_the_last_value_counts(tags: Seq<(Seq<char>, Seq<char>)>, key: Seq<char>)
    ensures
        forall|v: Seq<char>| #[trigger] is_last(tags, key, v) <==> Some(v) == value(tags, key),
        no_tag(tags, key) <==> value(tags, key) is None,
{
    lemma_last_value(tags, key, tags.len());
    assert forall|v: Seq<char>| #[trigger] is_last(tags, key, v) <==> Some(v) == value(tags, key) by {
        if is_last(tags, key, v) {
            let i = choose|i: int|
                0 <= i < tags.len() && #[trigger] tags[i] == (key, v) && forall|j: int|
                    i < j < tags.len() ==> (#[trigger] tags[j]).0 != key;
            assert(tags[i].0 == key);
            assert(value(tags, key) is Some);
            let w = value(tags, key)->0;
            let k = choose|k: int|
                0 <= k < tags.len() && #[trigger] tags[k] == (key, w) && forall|j: int|
                    k < j < tags.len() ==> (#[trigger] tags[j]).0 != key;
            assert(tags[k].0 == key);
            assert(i == k);
        }
    }
}

/// **An area keeps each tag under its own name.** Every field of an area's tags is the
/// last value of the tag whose key is the field's name, and is missing exactly where no
/// tag has that key; a road's tag is not kept.
pub proof fn law_an_area_keeps_its_tags(tags: Seq<(Seq<char>, Seq<char>)>)
    ensures
        forall|v: Seq<char>| #[trigger] is_last(tags, "name"@, v) <==> area_texts(tags, tags.len()).name == Some(v),
        no_tag(tags, "name"@) <==> area_texts(tags, tags.len()).name is None,
        forall|v: Seq<char>| #[trigger] is_last(tags, "waterway"@, v) <==> area_texts(tags, tags.len()).waterway == Some(v),
        no_tag(tags, "waterway"@) <==> area_texts(tags, tags.len()).waterway is None,
        forall|v: Seq<char>| #[trigger] is_last(tags, "building"@, v) <==> area_texts(tags, tags.len()).building == Some(v),
        no_tag(tags, "building"@) <==> area_texts(tags, tags.len()).building is None,
        forall|v: Seq<char>| #[trigger] is_last(tags, "landuse"@, v) <==> area_texts(tags, tags.len()).landuse == Some(v),
        no_tag(tags, "landuse"@) <==> area_texts(tags, tags.len()).landuse is None,
        forall|v: Seq<char>| #[trigger] is_last(tags, "natural"@, v) <==> area_texts(tags, tags.len()).natural == Some(v),
        no_tag(tags, "natural"@) <==> area_texts(tags, tags.len()).natural is None,
        forall|v: Seq<char>| #[trigger] is_last(tags, "leisure"@, v) <==> area_texts(tags, tags.len()).leisure == Some(v),
        no_tag(tags, "leisure"@) <==> area_texts(tags, tags.len()).leisure is None,
        forall|v: Seq<char>| #[trigger] is_last(tags, "water"@, v) <==> area_texts(tags, tags.len()).water == Some(v),
        no_tag(tags, "water"@) <==> area_texts(tags, tags.len()).water is None,
        area_texts(tags, tags.len()).highway is None,
{
    law_the_last_value_counts(tags, "name"@);
    law_the_last_value_counts(tags, "waterway"@);
    law_the_last_value_counts(tags, "building"@);
    law_the_last_value_counts(tags, "landuse"@);
    law_the_last_value_counts(tags, "natural"@);
    law_the_last_value_counts(tags, "leisure"@);
    law_the_last_value_counts(tags, "water"@);
}

/// **A line keeps each tag under its own name**: its name, and what kind of road or
/// waterway it is, and nothing else.
pub proof fn law_a_line_keeps_its_tags(tags: Seq<(Seq<char>, Seq<char>)>)
    ensures
        forall|v: Seq<char>| #[trigger] is_last(tags, "name"@, v) <==> line_texts(tags, tags.len()).name == Some(v),
        no_tag(tags, "name"@) <==> line_texts(tags, tags.len()).name is None,
        forall|v: Seq<char>| #[trigger] is_last(tags, "highway"@, v) <==> line_texts(tags, tags.len()).highway == Some(v),
        no_tag(tags, "highway"@) <==> line_texts(tags, tags.len()).highway is None,
        forall|v: Seq<char>| #[trigger] is_last(tags, "waterway"@, v) <==> line_texts(tags, tags.len()).waterway == Some(v),
        no_tag(tags, "waterway"@) <==> line_texts(tags, tags.len()).waterway is None,
        line_texts(tags, tags.len()).building is None,
        line_texts(tags, tags.len()).landuse is None,
        line_texts(tags, tags.len()).natural is None,
        line_texts(tags, tags.len()).leisure is None,
        line_texts(tags, tags.len()).water is None,
{
    law_the_last_value_counts(tags, "name"@);
    law_the_last_value_counts(tags, "highway"@);
    law_the_last_value_counts(tags, "waterway"@);
}

/// Whether one of the tags makes an area of its object.
pub open spec fn names_an_area(tags: Seq<(Seq<char>, Seq<char>)>) -> bool {
    !(no_tag(tags, "building"@) && no_tag(tags, "landuse"@) && no_tag(tags, "natural"@) && no_tag(tags, "leisure"@)
        && no_tag(tags, "water"@) && no_tag(tags, "waterway"@))
}

proof fn lemma_area_key(tags: Seq<(Seq<char>, Seq<char>)>, n: nat)
    requires
        n <= tags.len(),
    ensures
        has_area_key(tags, n) <==> exists|i: int| 0 <= i < n && is_area_key(#[trigger] tags[i].0),
    decreases n,
{
    if n > 0 {
        lemma_area_key(tags, (n - 1) as nat);
        if is_area_key(tags[n - 1].0) {
            assert(is_area_key(tags[n - 1].0));
        }
    }
}

/// A key makes an area wherever it stands among the tags.
pub proof fn law_a_key_makes_an_area(tags: Seq<(Seq<char>, Seq<char>)>)
    ensures
        has_area_key(tags, tags.len()) <==> names_an_area(tags),
{
    lemma_area_key(tags, tags.len());
    if has_area_key(tags, tags.len()) {
        let i = choose|i: int| 0 <= i < tags.len() && is_area_key(#[trigger] tags[i].0);
        assert(tags[i].0 == tags[i].0);
    }
    if names_an_area(tags) {
        assert(exists|i: int| 0 <= i < tags.len() && is_area_key(#[trigger] tags[i].0)) by {
            if !no_tag(tags, "building"@) {
                let i = choose|i: int| 0 <= i < tags.len() && (#[trigger] tags[i]).0 == "building"@;
                assert(is_area_key(tags[i].0));
            } else if !no_tag(tags, "landuse"@) {
                let i = choose|i: int| 0 <= i < tags.len() && (#[trigger] tags[i]).0 == "landuse"@;
                assert(is_area_key(tags[i].0));
            } else if !no_tag(tags, "natural"@) {
                let i = choose|i: int| 0 <= i < tags.len() && (#[trigger] tags[i]).0 == "natural"@;
                assert(is_area_key(tags[i].0));
            } else if !no_tag(tags, "leisure"@) {
                let i = choose|i: int| 0 <= i < tags.len() && (#[trigger] tags[i]).0 == "leisure"@;
                assert(is_area_key(tags[i].0));
            } else if !no_tag(tags, "water"@) {
                let i = choose|i: int| 0 <= i < tags.len() && (#[trigger] tags[i]).0 == "water"@;
                assert(is_area_key(tags[i].0));
            } else {
                let i = choose|i: int| 0 <= i < tags.len() && (#[trigger] tags[i]).0 == "waterway"@;
                assert(is_area_key(tags[i].0));
            }
        }
    }
}

/// **Which ways are drawn.** A line is a road of any kind, or a river, canal, stream,
/// ditch or drain. An area is a closed way of four nodes at least with a tag that makes
/// it one, unless its last word on `area` is `no`. A way can be both.
pub proof fn law_which_ways_are_drawn(tags: Seq<(Seq<char>, Seq<char>)>, refs: Seq<i64>)
    ensures
        is_line(tags) <==> !no_tag(tags, "highway"@) || is_last(tags, "waterway"@, "river"@) || is_last(
            tags,
            "waterway"@,
            "canal"@,
        ) || is_last(tags, "waterway"@, "stream"@) || is_last(tags, "waterway"@, "ditch"@) || is_last(
            tags,
            "waterway"@,
            "drain"@,
        ),
        is_area(tags, refs) <==> names_an_area(tags) && !is_last(tags, "area"@, "no"@) && refs.len() >= 4 && refs[0]
            == refs[refs.len() - 1],
{
    law_the_last_value_counts(tags, "highway"@);
    law_the_last_value_counts(tags, "waterway"@);
    law_the_last_value_counts(tags, "area"@);
    law_a_key_makes_an_area(tags);
    let v = value(tags, "waterway"@);
    assert(v == Some("river"@) <==> is_last(tags, "waterway"@, "river"@));
    assert(v == Some("canal"@) <==> is_last(tags, "waterway"@, "canal"@));
    assert(v == Some("stream"@) <==> is_last(tags, "waterway"@, "stream"@));
    assert(v == Some("ditch"@) <==> is_last(tags, "waterway"@, "ditch"@));
    assert(v == Some("drain"@) <==> is_last(tags, "waterway"@, "drain"@));
    assert(value(tags, "area"@) == Some("no"@) <==> is_last(tags, "area"@, "no"@));
}

proof fn lemma_ways_of(members: Seq<Member>, n: nat)
    requires
        n <= members.len(),
    ensures
        ways_of(members, n) == members.take(n as int).filter(|m: Member| m is Way).map_values(
            |m: Member| m->Way_0,
        ),
        is_nested(members, n) <==> exists|i: int| 0 <= i < n && (#[trigger] members[i]) is Relation,
        ways_of(members, n).len() > 0 <==> exists|i: int| 0 <= i < n && (#[trigger] members[i]) is Way,
    decreases n,
{
    reveal(Seq::filter);
    let is_way = |m: Member| m is Way;
    let id = |m: Member| m->Way_0;
    if n == 0 {
        assert(members.take(0).filter(is_way) =~= Seq::empty());
        assert(ways_of(members, 0) =~= members.take(0).filter(is_way).map_values(id));
    } else {
        lemma_ways_of(members, (n - 1) as nat);
        let front = members.take(n - 1);
        let all = members.take(n as int);
        assert(all.drop_last() =~= front);
        assert(all.last() == members[n - 1]);
        assert(ways_of(members, n) =~= all.filter(is_way).map_values(id));
    }
}

/// **Which relations are drawn**: multipolygons and boundaries with a tag that makes an
/// area, built from one way at least and from no relation. They are built from the ways
/// among their members, in order.
pub proof fn law_which_relations_are_drawn(tags: Seq<(Seq<char>, Seq<char>)>, members: Seq<Member>)
    ensures
        is_wanted_relation(tags, members) <==> {
            &&& names_an_area(tags)
            &&& is_last(tags, "type"@, "multipolygon"@) || is_last(tags, "type"@, "boundary"@)
            &&& forall|i: int| 0 <= i < members.len() ==> !((#[trigger] members[i]) is Relation)
            &&& exists|i: int| 0 <= i < members.len() && (#[trigger] members[i]) is Way
        },
        ways_of(members, members.len()) == members.filter(|m: Member| m is Way).map_values(|m: Member| m->Way_0),
{
    law_the_last_value_counts(tags, "type"@);
    law_a_key_makes_an_area(tags);
    lemma_ways_of(members, members.len());
    assert(members.take(members.len() as int) =~= members);
    assert(value(tags, "type"@) == Some("multipolygon"@) <==> is_last(tags, "type"@, "multipolygon"@));
    assert(value(tags, "type"@) == Some("boundary"@) <==> is_last(tags, "type"@, "boundary"@));
}

/// A way is wanted exactly where some relation has it among its members.
pub proof fn law_a_member_is_wanted(relations: Seq<RelArea>, way: i64)
    ensures
        needs_way(relations, relations.len(), way) <==> exists|i: int|
            0 <= i < relations.len() && (#[trigger] relations[i]).members@.contains(way),
{
    lemma_needs_way(relations, relations.len(), way);
}

proof fn lemma_needs_way(relations: Seq<RelArea>, n: nat, way: i64)
    requires
        n <= relations.len(),
    ensures
        needs_way(relations, n, way) <==> exists|i: int|
            0 <= i < n && (#[trigger] relations[i]).members@.contains(way),
    decreases n,
{
    if n > 0 {
        lemma_needs_way(relations, (n - 1) as nat, way);
        if relations[n - 1].members@.contains(way) {
            assert(relations[n - 1].members@.contains(way));
        }
    }
}

/// Whether a tag makes its node a settlement worth a label.
pub open spec fn says_settlement(tag: (Seq<char>, Seq<char>)) -> bool {
    tag == ("place"@, "city"@) || tag == ("place"@, "town"@)
}

proof fn lemma_last_kind(tags: Seq<(Seq<char>, Seq<char>)>, n: nat)
    requires
        n <= tags.len(),
    ensures
        match last_kind(tags, n) {
            Some(k) => exists|i: int|
                0 <= i < n && says_settlement(#[trigger] tags[i]) && tags[i].1 == k && forall|j: int|
                    i < j < n ==> !says_settlement(#[trigger] tags[j]),
            None => forall|i: int| 0 <= i < n ==> !says_settlement(#[trigger] tags[i]),
        },
    decreases n,
{
    if n > 0 {
        let t = tags[n - 1];
        assert(t == (t.0, t.1));
        if !(t.0 == "place"@ && is_place_kind(t.1)) {
            lemma_last_kind(tags, (n - 1) as nat);
        } else {
            assert(says_settlement(tags[n - 1]));
        }
    }
}

/// **Only cities and towns get a label.** The kind of a settlement is that of the last
/// tag that calls it a city or a town; where none does, it has none.
pub proof fn law_cities_and_towns_get_a_label(tags: Seq<(Seq<char>, Seq<char>)>)
    ensures
        match last_kind(tags, tags.len()) {
            Some(k) => exists|i: int|
                0 <= i < tags.len() && says_settlement(#[trigger] tags[i]) && tags[i].1 == k && forall|j: int|
                    i < j < tags.len() ==> !says_settlement(#[trigger] tags[j]),
            None => forall|i: int| 0 <= i < tags.len() ==> !says_settlement(#[trigger] tags[i]),
        },
{
    lemma_last_kind(tags, tags.len());
}

/// Whether `out` goes along the positions of some nodes: `place` says where each node
/// comes to stand, one after the other, and only neighbours share a place.
pub open spec fn goes_along(ids: Seq<i64>, locations: Locations, out: Seq<u64>, place: Seq<int>) -> bool {
    &&& place.len() == ids.len()
    &&& forall|i: int|
        0 <= i < ids.len() ==> 0 <= #[trigger] place[i] < out.len() && locations.at(ids[i]) == Some(out[place[i]])
    &&& forall|i: int, j: int| 0 <= i && j == i + 1 && j < ids.len() ==> (#[trigger] place[j]) - (#[trigger] place[i])
        == (if out[place[i]] == out[place[j]] {
        0int
    } else {
        1int
    })
    &&& ids.len() > 0 ==> place[0] == 0 && place[ids.len() - 1] == out.len() - 1
    &&& ids.len() == 0 ==> out.len() == 0
}

proof fn lemma_resolved(ids: Seq<i64>, locations: Locations, n: nat)
    requires
        n <= ids.len(),
    ensures
        match resolved(ids, locations, n) {
            Some(out) => {
                &&& exists|place: Seq<int>| goes_along(ids.take(n as int), locations, out, place)
                &&& forall|i: int, j: int| 0 <= i && j == i + 1 && j < out.len() ==> #[trigger] out[i] != #[trigger] out[j]
            },
            None => exists|i: int| 0 <= i < n && locations.at(#[trigger] ids[i]) is None,
        },
    decreases n,
{
    if n == 0 {
        assert(goes_along(ids.take(0), locations, Seq::empty(), Seq::empty()));
    } else {
        lemma_resolved(ids, locations, (n - 1) as nat);
        let before = ids.take(n - 1);
        let all = ids.take(n as int);
        if let Some(earlier) = resolved(ids, locations, (n - 1) as nat) {
            let place = choose|place: Seq<int>| goes_along(before, locations, earlier, place);
            match locations.at(ids[n - 1]) {
                None => {
                    assert(locations.at(ids[n - 1]) is None);
                },
                Some(p) => {
                    let out = resolved(ids, locations, n)->0;
                    let longer = place.push(out.len() - 1);
                    assert forall|i: int| 0 <= i < all.len() implies 0 <= #[trigger] longer[i] < out.len()
                        && locations.at(all[i]) == Some(out[longer[i]]) by {
                        if i < n - 1 {
                            assert(all[i] == before[i]);
                            assert(longer[i] == place[i]);
                            assert(out[place[i]] == earlier[place[i]]);
                        }
                    }
                    assert forall|i: int, j: int| 0 <= i && j == i + 1 && j < all.len() implies (#[trigger] longer[j])
                        - (#[trigger] longer[i]) == (if out[longer[i]] == out[longer[j]] {
                        0int
                    } else {
                        1int
                    }) by {
                        assert(longer[i] == place[i]);
                        assert(out[place[i]] == earlier[place[i]]);
                        if j < n - 1 {
                            assert(longer[j] == place[j]);
                            assert(out[place[j]] == earlier[place[j]]);
                        }
                    }
                    assert(goes_along(all, locations, out, longer));
                    assert forall|i: int, j: int| 0 <= i && j == i + 1 && j < out.len() implies #[trigger] out[i]
                        != #[trigger] out[j] by {
                        if j < earlier.len() {
                            assert(earlier[i] != earlier[j]);
                        }
                    }
                },
            }
        } else {
            let i = choose|i: int| 0 <= i < n - 1 && locations.at(#[trigger] ids[i]) is None;
            assert(locations.at(ids[i]) is None);
        }
    }
}

/// **A way goes along its nodes.** It resolves exactly where every node has a position.
/// The positions then come in the order of the nodes; of equal neighbours one is kept,
/// and nothing else is left out, so the ends of a way stay where they are and a closed
/// way stays closed.
pub proof fn law_a_way_goes_along_its_nodes(ids: Seq<i64>, locations: Locations)
    ensures
        resolved(ids, locations, ids.len()) is None <==> exists|i: int|
            0 <= i < ids.len() && locations.at(#[trigger] ids[i]) is None,
        resolved(ids, locations, ids.len()) matches Some(out) ==> {
            &&& exists|place: Seq<int>| goes_along(ids, locations, out, place)
            &&& forall|i: int, j: int| 0 <= i && j == i + 1 && j < out.len() ==> #[trigger] out[i] != #[trigger] out[j]
            &&& ids.len() > 0 ==> out.len() > 0 && locations.at(ids[0]) == Some(out[0]) && locations.at(
                ids[ids.len() - 1],
            ) == Some(out[out.len() - 1])
            &&& ids.len() > 0 && ids[0] == ids[ids.len() - 1] ==> out[0] == out[out.len() - 1]
            &&& forall|i: int| 0 <= i < ids.len() ==> out.contains(locations.at(#[trigger] ids[i])->0)
        },
{
    let n = ids.len();
    lemma_resolved(ids, locations, n);
    assert(ids.take(n as int) =~= ids);
    if let Some(out) = resolved(ids, locations, n) {
        let place = choose|place: Seq<int>| goes_along(ids, locations, out, place);
        assert forall|i: int| 0 <= i < ids.len() implies out.contains(locations.at(#[trigger] ids[i])->0) by {
            assert(0 <= place[i] < out.len());
            assert(out[place[i]] == locations.at(ids[i])->0);
        }
        if n > 0 {
            assert(place[0] == 0 && place[n - 1] == out.len() - 1);
        }
        assert(forall|i: int| 0 <= i < n ==> locations.at(#[trigger] ids[i]) is Some) by {
            assert forall|i: int| 0 <= i < n implies locations.at(#[trigger] ids[i]) is Some by {
                assert(0 <= place[i] < out.len());
            }
        }
    }
}

/// Where no two neighbours among the nodes share a position, a way is the positions of
/// its nodes, one for one.
pub proof fn law_distinct_nodes_are_all_kept(ids: Seq<i64>, locations: Locations)
    requires
        forall|i: int| 0 <= i < ids.len() ==> locations.at(#[trigger] ids[i]) is Some,
        forall|i: int, j: int|
            0 <= i && j == i + 1 && j < ids.len() ==> locations.at(#[trigger] ids[i]) != locations.at(#[trigger] ids[j]),
    ensures
        resolved(ids, locations, ids.len()) == Some(Seq::new(ids.len(), |i: int| locations.at(ids[i])->0)),
{
    lemma_distinct(ids, locations, ids.len());
}

proof fn lemma_distinct(ids: Seq<i64>, locations: Locations, n: nat)
    requires
        n <= ids.len(),
        forall|i: int| 0 <= i < ids.len() ==> locations.at(#[trigger] ids[i]) is Some,
        forall|i: int, j: int|
            0 <= i && j == i + 1 && j < ids.len() ==> locations.at(#[trigger] ids[i]) != locations.at(#[trigger] ids[j]),
    ensures
        resolved(ids, locations, n) == Some(Seq::new(n, |i: int| locations.at(ids[i])->0)),
    decreases n,
{
    let all = Seq::new(n, |i: int| locations.at(ids[i])->0);
    if n == 0 {
        assert(all =~= Seq::empty());
    } else {
        lemma_distinct(ids, locations, (n - 1) as nat);
        let before = Seq::new((n - 1) as nat, |i: int| locations.at(ids[i])->0);
        assert(locations.at(ids[n - 1]) is Some);
        if n > 1 {
            assert(locations.at(ids[n - 2]) is Some);
            assert(locations.at(ids[n - 2]) != locations.at(ids[n - 1]));
            assert(before.last() == locations.at(ids[n - 2])->0);
        }
        assert(all =~= before.push(locations.at(ids[n - 1])->0));
    }
}

/// The parts of a relation are those of its members, one for one and in order, and there
/// are none where one of them is missing.
pub proof fn law_a_relation_needs_all_its_parts(parts: Seq<Option<Seq<u64>>>)
    ensures
        member_parts(parts, parts.len()) is None <==> exists|i: int| 0 <= i < parts.len() && (#[trigger] parts[i]) is None,
        member_parts(parts, parts.len()) matches Some(out) ==> out.len() == parts.len() && forall|i: int|
            0 <= i < parts.len() ==> #[trigger] parts[i] == Some(out[i]),
{
    lemma_parts(parts, parts.len());
}

proof fn lemma_parts(parts: Seq<Option<Seq<u64>>>, n: nat)
    requires
        n <= parts.len(),
    ensures
        member_parts(parts, n) is None <==> exists|i: int| 0 <= i < n && (#[trigger] parts[i]) is None,
        member_parts(parts, n) matches Some(out) ==> out.len() == n && forall|i: int|
            0 <= i < n ==> #[trigger] parts[i] == Some(out[i]),
    decreases n,
{
    if n > 0 {
        lemma_parts(parts, (n - 1) as nat);
        if parts[n - 1] is None {
            assert(parts[n - 1] is None);
        }
    }
}

/// Of the rings of a shape those of four points at least are kept, in order.
pub proof fn law_collapsed_rings_are_dropped(rings: Seq<Seq<u64>>)
    ensures
        proper(rings, rings.len()) == rings.filter(|r: Seq<u64>| r.len() >= 4),
{
    lemma_proper(rings, rings.len());
    assert(rings.take(rings.len() as int) =~= rings);
}

proof fn lemma_proper(rings: Seq<Seq<u64>>, n: nat)
    requires
        n <= rings.len(),
    ensures
        proper(rings, n) == rings.take(n as int).filter(|r: Seq<u64>| r.len() >= 4),
    decreases n,
{
    reveal(Seq::filter);
    if n == 0 {
        assert(rings.take(0).filter(|r: Seq<u64>| r.len() >= 4) =~= Seq::empty());
    } else {
        lemma_proper(rings, (n - 1) as nat);
        assert(rings.take(n as int).drop_last() =~= rings.take(n - 1));
    }
}

proof fn lemma_digits_spell(s: Seq<char>, n: nat)
    requires
        n <= s.len(),
    ensures
        digits(s, n).0 == text::spelled(s.take(n as int).filter(|c: char| text::is_digit(c))),
    decreases n,
{
    reveal(Seq::filter);
    let counts = |c: char| text::is_digit(c);
    let front = s.take(n as int);
    if n == 0 {
        assert(front.filter(counts) =~= Seq::empty());
    } else {
        lemma_digits_spell(s, (n - 1) as nat);
        let earlier = s.take(n - 1);
        assert(front.drop_last() =~= earlier);
        assert(front.last() == s[n - 1]);
        if text::is_digit(s[n - 1]) {
            let grown = front.filter(counts);
            assert(grown == earlier.filter(counts).push(s[n - 1]));
            assert(grown.drop_last() =~= earlier.filter(counts));
        } else {
            assert(front.filter(counts) == earlier.filter(counts));
        }
    }
}

/// **A population is what its digits spell**, whatever stands between them; a number
/// that is too large to hold counts as none.
pub proof fn law_a_population_is_what_its_digits_spell(s: Seq<char>)
    ensures
        ({
            let people = text::spelled(s.filter(|c: char| text::is_digit(c)));
            population_of(s) == if people <= i64::MAX { people as int } else { 0 }
        }),
{
    lemma_digits_spell(s, s.len());
    assert(s.take(s.len() as int) =~= s);
}

/// **A population written down in digits is read as it is meant.**
pub proof fn law_a_population_reads_back(n: nat)
    requires
        n <= i64::MAX,
    ensures
        population_of(text::decimal(n)) == n,
{
    let s = text::decimal(n);
    text::law_numbers_are_digits(n);
    text::law_numbers_read_back(n, n);
    lemma_digits_spell(s, s.len());
    assert(s.take(s.len() as int) =~= s);
    lemma_all_digits(s);
    assert(text::is_digit(s[0]));
    assert(text::unsigned_part(s) == s);
}

proof fn lemma_all_digits(s: Seq<char>)
    requires
        forall|i: int| 0 <= i < s.len() ==> text::is_digit(#[trigger] s[i]),
    ensures
        s.filter(|c: char| text::is_digit(c)) == s,
    decreases s.len(),
{
    reveal(Seq::filter);
    if s.len() > 0 {
        lemma_all_digits(s.drop_last());
        assert(text::is_digit(s[s.len() - 1]));
        assert(s =~= s.drop_last().push(s.last()));
    }
}

} // verus!
