//! Extracted rows, and the vocabulary their tags are drawn from.
//!
//! A row carries the tags its kind can use and nothing elsewhere: a line never
//! carries `building`, an area never carries `highway`. Between extraction and
//! emission tags are held as ids into one vocabulary, because the values repeat
//! by the million.

use crate::text;
use std::collections::HashMap;
use vstd::prelude::*;

verus! {

broadcast use vstd::std_specs::hash::group_hash_axioms;

/// Rows per batch. Bounds memory regardless of extract size.
pub const BATCH: usize = 100000;

/// An absent tag.
pub const NO_TAG: u32 = 0xffff_ffff;

/// Every tag the classification looks at. Anything else is dropped during
/// extraction.
#[derive(Debug)]
pub struct Tags {
    pub name: Option<String>,
    pub highway: Option<String>,
    pub waterway: Option<String>,
    pub building: Option<String>,
    pub landuse: Option<String>,
    pub natural: Option<String>,
    pub leisure: Option<String>,
    pub water: Option<String>,
}

/// A drawable object: its id, its tags, and its geometry as well-known binary.
pub struct Row {
    pub osm_id: i64,
    pub tags: Tags,
    pub wkb: Vec<u8>,
}

/// Where extracted rows go. A trait so the extractor does not need to know
/// whether it is feeding a database or a test.
pub trait Sink {
    fn write(&mut self, kind: &str, rows: &[Row]) -> Result<(), String>;
}

/// [`Tags`] as ids into an [`Interner`].
#[derive(Clone, Copy, Debug, PartialEq, Eq, Structural)]
pub struct TagSet {
    pub name: u32,
    pub highway: u32,
    pub waterway: u32,
    pub building: u32,
    pub landuse: u32,
    pub natural: u32,
    pub leisure: u32,
    pub water: u32,
}

impl Default for TagSet {
    fn default() -> (t: TagSet)
        ensures
            t == no_tags(),
    {
        TagSet {
            name: NO_TAG,
            highway: NO_TAG,
            waterway: NO_TAG,
            building: NO_TAG,
            landuse: NO_TAG,
            natural: NO_TAG,
            leisure: NO_TAG,
            water: NO_TAG,
        }
    }
}

/// No tag at all.
pub open spec fn no_tags() -> TagSet {
    TagSet {
        name: NO_TAG,
        highway: NO_TAG,
        waterway: NO_TAG,
        building: NO_TAG,
        landuse: NO_TAG,
        natural: NO_TAG,
        leisure: NO_TAG,
        water: NO_TAG,
    }
}

/// Eight tags as plain text.
pub struct Texts {
    pub name: Option<Seq<char>>,
    pub highway: Option<Seq<char>>,
    pub waterway: Option<Seq<char>>,
    pub building: Option<Seq<char>>,
    pub landuse: Option<Seq<char>>,
    pub natural: Option<Seq<char>>,
    pub leisure: Option<Seq<char>>,
    pub water: Option<Seq<char>>,
}

impl View for Tags {
    type V = Texts;

    open spec fn view(&self) -> Texts {
        Texts {
            name: text::text_of(self.name),
            highway: text::text_of(self.highway),
            waterway: text::text_of(self.waterway),
            building: text::text_of(self.building),
            landuse: text::text_of(self.landuse),
            natural: text::text_of(self.natural),
            leisure: text::text_of(self.leisure),
            water: text::text_of(self.water),
        }
    }
}

/// Whether an id stands for a word of a vocabulary, or for none.
pub open spec fn known(words: Seq<Seq<char>>, id: u32) -> bool {
    id == NO_TAG || id < words.len()
}

/// The word an id stands for.
pub open spec fn word(words: Seq<Seq<char>>, id: u32) -> Option<Seq<char>> {
    if id == NO_TAG {
        None
    } else {
        Some(words[id as int])
    }
}

/// Whether a vocabulary still says what an earlier one did.
pub open spec fn extends(words: Seq<Seq<char>>, earlier: Seq<Seq<char>>) -> bool {
    &&& earlier.len() <= words.len()
    &&& forall|i: int| 0 <= i < earlier.len() ==> #[trigger] words[i] == earlier[i]
}

/// An id of one vocabulary as an id of another one, by a table of the ids that the
/// words of the first have in the second.
pub open spec fn renamed(id: u32, table: Seq<u32>) -> u32 {
    if id == NO_TAG {
        NO_TAG
    } else {
        table[id as int]
    }
}

/// Whether a table gives every word of one vocabulary its id in another one.
pub open spec fn is_table(table: Seq<u32>, theirs: Seq<Seq<char>>, words: Seq<Seq<char>>) -> bool {
    &&& table.len() == theirs.len()
    &&& forall|i: int|
        0 <= i < theirs.len() ==> (#[trigger] table[i]) < words.len() && table[i] != NO_TAG && words[table[i] as int]
            == theirs[i]
}

impl TagSet {
    /// The set with every id replaced by the one that a table gives for it.
    pub open spec fn by_table(self, table: Seq<u32>) -> TagSet {
        TagSet {
            name: renamed(self.name, table),
            highway: renamed(self.highway, table),
            waterway: renamed(self.waterway, table),
            building: renamed(self.building, table),
            landuse: renamed(self.landuse, table),
            natural: renamed(self.natural, table),
            leisure: renamed(self.leisure, table),
            water: renamed(self.water, table),
        }
    }

    /// Whether a table has an id for each one of the set.
    pub open spec fn in_table(self, table: Seq<u32>) -> bool {
        let has = |id: u32| id == NO_TAG || id < table.len();
        &&& has(self.name)
        &&& has(self.highway)
        &&& has(self.waterway)
        &&& has(self.building)
        &&& has(self.landuse)
        &&& has(self.natural)
        &&& has(self.leisure)
        &&& has(self.water)
    }

    /// The set in another vocabulary, by a table of ids.
    pub fn rename(&self, table: &Vec<u32>) -> (set: TagSet)
        requires
            self.in_table(table@),
        ensures
            set == self.by_table(table@),
    {
        TagSet {
            name: rename_id(self.name, table),
            highway: rename_id(self.highway, table),
            waterway: rename_id(self.waterway, table),
            building: rename_id(self.building, table),
            landuse: rename_id(self.landuse, table),
            natural: rename_id(self.natural, table),
            leisure: rename_id(self.leisure, table),
            water: rename_id(self.water, table),
        }
    }

    /// Whether every id stands for a word of the vocabulary.
    pub open spec fn wf(self, words: Seq<Seq<char>>) -> bool {
        &&& known(words, self.name)
        &&& known(words, self.highway)
        &&& known(words, self.waterway)
        &&& known(words, self.building)
        &&& known(words, self.landuse)
        &&& known(words, self.natural)
        &&& known(words, self.leisure)
        &&& known(words, self.water)
    }

    /// The text the ids stand for.
    pub open spec fn texts(self, words: Seq<Seq<char>>) -> Texts {
        Texts {
            name: word(words, self.name),
            highway: word(words, self.highway),
            waterway: word(words, self.waterway),
            building: word(words, self.building),
            landuse: word(words, self.landuse),
            natural: word(words, self.natural),
            leisure: word(words, self.leisure),
            water: word(words, self.water),
        }
    }

    /// Back to owned strings, at emission.
    pub fn resolve(&self, words: &Interner) -> (tags: Tags)
        requires
            words.wf(),
            self.wf(words@),
        ensures
            tags@ == self.texts(words@),
    {
        Tags {
            name: words.get(self.name),
            highway: words.get(self.highway),
            waterway: words.get(self.waterway),
            building: words.get(self.building),
            landuse: words.get(self.landuse),
            natural: words.get(self.natural),
            leisure: words.get(self.leisure),
            water: words.get(self.water),
        }
    }
}

fn rename_id(id: u32, table: &Vec<u32>) -> (r: u32)
    requires
        id == NO_TAG || id < table@.len(),
    ensures
        r == renamed(id, table@),
{
    if id == NO_TAG {
        NO_TAG
    } else {
        table[id as usize]
    }
}

/// A number that goes with a text, for finding it again quickly.
spec fn hash_of(bytes: Seq<u8>, n: nat) -> int
    decreases n,
{
    if n == 0 {
        0
    } else {
        (hash_of(bytes, (n - 1) as nat) * 31 + bytes[n - 1]) % 0x1_0000_0000_0000_0000
    }
}

spec fn text_hash(s: Seq<char>) -> u64 {
    let bytes = vstd::utf8::encode_utf8(s);
    hash_of(bytes, bytes.len()) as u64
}

fn hash(s: &str) -> (h: u64)
    ensures
        h == text_hash(s@),
{
    let bytes: &[u8] = s.as_bytes();
    let mut h: u64 = 0;
    let mut i: usize = 0;
    while i < bytes.len()
        invariant
            i <= bytes@.len(),
            h == hash_of(bytes@, i as nat),
        decreases bytes@.len() - i,
    {
        h = ((h as u128 * 31 + bytes[i] as u128) % 0x1_0000_0000_0000_0000) as u64;
        i = i + 1;
    }
    h
}

/// The distinct tag values of one extract.
pub struct Interner {
    values: Vec<String>,
    /// The ids of the values with a given hash.
    buckets: HashMap<u64, Vec<u32>>,
}

impl View for Interner {
    type V = Seq<Seq<char>>;

    closed spec fn view(&self) -> Seq<Seq<char>> {
        self.values@.map_values(|s: String| s@)
    }
}

impl Default for Interner {
    fn default() -> (words: Interner)
        ensures
            words.wf(),
            words@ == Seq::<Seq<char>>::empty(),
            words@.no_duplicates(),
    {
        Interner::new()
    }
}

impl Interner {
    /// No value occurs twice, and each can be found by its hash.
    pub closed spec fn wf(self) -> bool {
        &&& self@.no_duplicates()
        &&& self.values@.len() <= NO_TAG
        &&& forall|h: u64, j: int|
            self.buckets@.contains_key(h) && 0 <= j < self.buckets@[h]@.len() ==> (
            #[trigger] self.buckets@[h]@[j]) < self.values@.len()
        &&& forall|id: int|
            0 <= id < self.values@.len() ==> {
                let h = text_hash((#[trigger] self.values@[id])@);
                &&& self.buckets@.contains_key(h)
                &&& self.buckets@[h]@.contains(id as u32)
            }
    }

    /// A vocabulary without words.
    pub fn new() -> (words: Interner)
        ensures
            words.wf(),
            words@ == Seq::<Seq<char>>::empty(),
            words@.no_duplicates(),
    {
        let words = Interner { values: Vec::new(), buckets: HashMap::new() };
        assert(words@ =~= Seq::<Seq<char>>::empty());
        words
    }

    /// The id of `value`, adding it the first time it is seen. Ids are given in order,
    /// from 0 on.
    pub fn intern(&mut self, value: &str) -> (id: u32)
        requires
            old(self).wf(),
            old(self)@.len() < NO_TAG,
        ensures
            final(self).wf(),
            final(self)@.no_duplicates(),
            id < final(self)@.len(),
            id != NO_TAG,
            final(self)@[id as int] == value@,
            old(self)@.contains(value@) ==> final(self)@ == old(self)@,
            !old(self)@.contains(value@) ==> final(self)@ == old(self)@.push(value@) && id == old(self)@.len(),
            extends(final(self)@, old(self)@),
    {
        let h: u64 = hash(value);
        let ghost before = *self;
        match self.buckets.get(&h) {
            Some(list) => {
                let mut i: usize = 0;
                while i < list.len()
                    invariant
                        i <= list@.len(),
                        self.wf(),
                        *self == before,
                        before == *old(self),
                        h == text_hash(value@),
                        self.buckets@.contains_key(h),
                        *list == self.buckets@[h],
                        self@.len() < NO_TAG,
                        forall|j: int|
                            0 <= j < i ==> self.values@[(#[trigger] list@[j]) as int]@ != value@,
                    decreases list@.len() - i,
                {
                    let id: u32 = list[i];
                    assert(self.buckets@[h]@[i as int] < self.values@.len());
                    if text::same(self.values[id as usize].as_str(), value) {
                        assert(self@[id as int] == value@);
                        assert(self@.contains(value@));
                        return id;
                    }
                    i = i + 1;
                }
            },
            None => {},
        }
        proof {
            if self@.contains(value@) {
                let id = choose|id: int| 0 <= id < self@.len() && self@[id] == value@;
                assert(self.values@[id]@ == value@);
                assert(self.buckets@.contains_key(h));
                assert(self.buckets@[h]@.contains(id as u32));
                let j = choose|j: int|
                    0 <= j < self.buckets@[h]@.len() && self.buckets@[h]@[j] == id as u32;
                assert(self.values@[self.buckets@[h]@[j] as int]@ != value@);
            }
        }
        let id: u32 = self.values.len() as u32;
        let mut list: Vec<u32> = match self.buckets.remove(&h) {
            Some(list) => list,
            None => Vec::new(),
        };
        let ghost held = list@;
        list.push(id);
        self.buckets.insert(h, list);
        self.values.push(value.to_owned());
        proof {
            assert(self@ =~= before@.push(value@));
            assert(self@.no_duplicates()) by {
                assert forall|i: int, j: int|
                    0 <= i < self@.len() && 0 <= j < self@.len() && i != j implies self@[i]
                    != self@[j] by {
                    if i < before@.len() && j < before@.len() {
                        assert(before@[i] != before@[j]);
                    } else if i < before@.len() {
                        assert(before@.contains(before@[i]));
                    } else if j < before@.len() {
                        assert(before@.contains(before@[j]));
                    }
                }
            }
            let now = self.buckets@;
            assert forall|g: u64, j: int|
                now.contains_key(g) && 0 <= j < now[g]@.len() implies (#[trigger] now[g]@[j])
                < self.values@.len() by {
                if g == h {
                    if j < held.len() {
                        assert(before.buckets@[h]@[j] < before.values@.len());
                    }
                } else {
                    assert(now[g] == before.buckets@[g]);
                    assert(before.buckets@[g]@[j] < before.values@.len());
                }
            }
            assert forall|k: int| 0 <= k < self.values@.len() implies {
                let g = text_hash((#[trigger] self.values@[k])@);
                &&& now.contains_key(g)
                &&& now[g]@.contains(k as u32)
            } by {
                let g = text_hash(self.values@[k]@);
                if k < before.values@.len() {
                    assert(self.values@[k] == before.values@[k]);
                    assert(before.buckets@[g]@.contains(k as u32));
                    if g == h {
                        let j = choose|j: int| 0 <= j < held.len() && held[j] == k as u32;
                        assert(now[g]@[j] == k as u32);
                    }
                } else {
                    assert(now[g]@.last() == id);
                }
            }
        }
        id
    }

    /// Takes in every word of another vocabulary, and gives the ids they have here.
    pub fn absorb(&mut self, theirs: &Interner) -> (table: Vec<u32>)
        requires
            old(self).wf(),
            theirs.wf(),
            old(self)@.len() + theirs@.len() < NO_TAG,
        ensures
            final(self).wf(),
            final(self)@.no_duplicates(),
            final(self)@.len() <= old(self)@.len() + theirs@.len(),
            extends(final(self)@, old(self)@),
            is_table(table@, theirs@, final(self)@),
            forall|w: Seq<char>|
                #[trigger] final(self)@.contains(w) <==> old(self)@.contains(w) || theirs@.contains(w),
    {
        let mut table: Vec<u32> = Vec::new();
        let mut i: usize = 0;
        proof {
            law_no_word_occurs_twice(*self);
        }
        while i < theirs.values.len()
            invariant
                i <= theirs.values@.len(),
                theirs.values@.len() == theirs@.len(),
                self.wf(),
                self@.no_duplicates(),
                old(self)@.len() + theirs@.len() < NO_TAG,
                self@.len() <= old(self)@.len() + i,
                extends(self@, old(self)@),
                is_table(table@, theirs@.take(i as int), self@),
                forall|w: Seq<char>|
                    #[trigger] self@.contains(w) <==> old(self)@.contains(w) || theirs@.take(i as int).contains(w),
            decreases theirs.values@.len() - i,
        {
            let ghost before = self@;
            let ghost value = theirs@[i as int];
            let ghost held = table@;
            let id: u32 = self.intern(theirs.values[i].as_str());
            table.push(id);
            proof {
                let front = theirs@.take(i as int);
                let next = theirs@.take(i + 1);
                assert(next =~= front.push(value));
                assert forall|k: int| 0 <= k < next.len() implies (#[trigger] table@[k]) < self@.len() && table@[k]
                    != NO_TAG && self@[table@[k] as int] == next[k] by {
                    if k < i {
                        assert(table@[k] == held[k]);
                        assert(before[held[k] as int] == front[k]);
                        assert(self@[held[k] as int] == before[held[k] as int]);
                    }
                }
                assert forall|w: Seq<char>| #[trigger]
                    self@.contains(w) <==> old(self)@.contains(w) || next.contains(w) by {
                    assert(next.contains(w) <==> front.contains(w) || w == value) by {
                        if front.contains(w) {
                            let k = choose|k: int| 0 <= k < front.len() && front[k] == w;
                            assert(next[k] == w);
                        }
                        assert(next[i as int] == value);
                        if next.contains(w) && w != value {
                            let k = choose|k: int| 0 <= k < next.len() && next[k] == w;
                            assert(front[k] == w);
                        }
                    }
                    assert(self@.contains(w) <==> before.contains(w) || w == value) by {
                        assert(self@[id as int] == value);
                        if before.contains(w) {
                            let k = choose|k: int| 0 <= k < before.len() && before[k] == w;
                            assert(self@[k] == w);
                        }
                        if self@.contains(w) && w != value {
                            let k = choose|k: int| 0 <= k < self@.len() && self@[k] == w;
                            assert(before[k] == w);
                        }
                    }
                }
            }
            i = i + 1;
        }
        assert(theirs@.take(i as int) =~= theirs@);
        table
    }

    /// `None` for [`NO_TAG`], the value otherwise.
    pub fn get(&self, id: u32) -> (r: Option<String>)
        requires
            known(self@, id),
        ensures
            text::text_of(r) == word(self@, id),
    {
        if id == NO_TAG {
            return None;
        }
        Some(self.values[id as usize].clone())
    }

    /// How many words there are.
    pub fn len(&self) -> (n: usize)
        ensures
            n == self@.len(),
    {
        self.values.len()
    }
}

/// No word of a vocabulary occurs twice.
pub proof fn law_no_word_occurs_twice(words: Interner)
    requires
        words.wf(),
    ensures
        words@.no_duplicates(),
{
}

/// Equal values have equal ids and different values different ones, however much later
/// the second is asked for: `u` got `a` when the vocabulary was `earlier`, and `v` got
/// `b` when it had grown to `words`.
pub proof fn law_a_word_has_one_id(
    earlier: Seq<Seq<char>>,
    words: Seq<Seq<char>>,
    u: Seq<char>,
    v: Seq<char>,
    a: u32,
    b: u32,
)
    requires
        words.no_duplicates(),
        extends(words, earlier),
        a < earlier.len() && earlier[a as int] == u,
        b < words.len() && words[b as int] == v,
    ensures
        a == b <==> u == v,
{
    assert(words[a as int] == earlier[a as int]);
}

/// A tag set says the same in another vocabulary, once its ids are those of the other.
pub proof fn law_renaming_keeps_the_text(set: TagSet, table: Seq<u32>, theirs: Seq<Seq<char>>, words: Seq<Seq<char>>)
    requires
        set.wf(theirs),
        is_table(table, theirs, words),
    ensures
        set.in_table(table),
        set.by_table(table).wf(words),
        set.by_table(table).texts(words) == set.texts(theirs),
{
}

/// **Every tag keeps its own word**: what a set says under a key is the word of the id
/// that stands there, and nothing where there is none.
pub proof fn law_a_tag_set_says_its_words(set: TagSet, words: Seq<Seq<char>>)
    ensures
        set.texts(words).name == if set.name == NO_TAG { None } else { Some(words[set.name as int]) },
        set.texts(words).highway == if set.highway == NO_TAG { None } else { Some(words[set.highway as int]) },
        set.texts(words).waterway == if set.waterway == NO_TAG { None } else { Some(words[set.waterway as int]) },
        set.texts(words).building == if set.building == NO_TAG { None } else { Some(words[set.building as int]) },
        set.texts(words).landuse == if set.landuse == NO_TAG { None } else { Some(words[set.landuse as int]) },
        set.texts(words).natural == if set.natural == NO_TAG { None } else { Some(words[set.natural as int]) },
        set.texts(words).leisure == if set.leisure == NO_TAG { None } else { Some(words[set.leisure as int]) },
        set.texts(words).water == if set.water == NO_TAG { None } else { Some(words[set.water as int]) },
{
}

/// **A row's tags are read under the keys they stand at.**
pub proof fn law_tags_are_read_under_their_keys(tags: Tags)
    ensures
        tags@.name == match tags.name { Some(v) => Some(v@), None => None },
        tags@.highway == match tags.highway { Some(v) => Some(v@), None => None },
        tags@.waterway == match tags.waterway { Some(v) => Some(v@), None => None },
        tags@.building == match tags.building { Some(v) => Some(v@), None => None },
        tags@.landuse == match tags.landuse { Some(v) => Some(v@), None => None },
        tags@.natural == match tags.natural { Some(v) => Some(v@), None => None },
        tags@.leisure == match tags.leisure { Some(v) => Some(v@), None => None },
        tags@.water == match tags.water { Some(v) => Some(v@), None => None },
{
}

} // verus!
