//! Reading the ways of an extract: from the bytes of a block to the ways that are kept.

use crate::extract;
use crate::extract::{appended, is_area, is_line, set_rows, Ways};
use crate::rows;
use crate::rows::{extends, Interner, TagSet, Texts};
use std::collections::HashSet;
use vstd::prelude::*;

verus! {

/// A way as a block holds it: its id, its tags, and how far each of its node ids lies
/// past the one before.
#[derive(Debug)]
pub struct RawWay {
    pub id: i64,
    pub tags: Vec<(String, String)>,
    pub deltas: Vec<i64>,
}

/// A way as plain values.
pub struct WayData {
    pub id: i64,
    pub tags: Seq<(Seq<char>, Seq<char>)>,
    pub deltas: Seq<i64>,
}

/// Tags as texts.
pub open spec fn tag_texts(tags: Seq<(String, String)>) -> Seq<(Seq<char>, Seq<char>)> {
    tags.map_values(|t: (String, String)| (t.0@, t.1@))
}

impl View for RawWay {
    type V = WayData;

    open spec fn view(&self) -> WayData {
        WayData { id: self.id, tags: tag_texts(self.tags@), deltas: self.deltas@ }
    }
}

/// Ways as plain values.
pub open spec fn way_data(ways: Seq<RawWay>) -> Seq<WayData> {
    ways.map_values(|w: RawWay| w@)
}

/// The ways that `osmpbf` finds in the first block of some bytes, in order: none where
/// the block is no data, and nothing at all where there is no block to decode.
pub uninterp spec fn ways_in(blob: Seq<u8>) -> Option<Seq<WayData>>;

/// `osmpbf::BlobReader` on bytes, `osmpbf::Blob::decode` on the first block it finds
/// there, and of each way in it `osmpbf::Way::id`, `osmpbf::Way::tags` and
/// `osmpbf::Way::raw_refs`. A block that is no data has no ways. Claimed: the outcome is
/// a function of the bytes alone, nothing where a block is missing or broken. What is
/// in a block is left unsaid.
#[verifier::external_body]
fn decode_ways(blob: &[u8]) -> (r: Option<Vec<RawWay>>)
    ensures
        match r {
            Some(ways) => ways_in(blob@) == Some(way_data(ways@)),
            None => ways_in(blob@) is None,
        },
{
    let tag = |t: (&str, &str)| (t.0.to_string(), t.1.to_string());
    let way = |w: osmpbf::Way<'_>| RawWay {
        id: w.id(),
        tags: w.tags().map(tag).collect(),
        deltas: w.raw_refs().to_vec(),
    };
    let first = osmpbf::BlobReader::new(blob).next()?.ok()?;
    match first.decode().ok()? {
        osmpbf::BlobDecode::OsmData(block) => Some(block.groups().flat_map(|g| g.ways()).map(way).collect()),
        osmpbf::BlobDecode::OsmHeader(_) => Some(Vec::new()),
        osmpbf::BlobDecode::Unknown(_) => Some(Vec::new()),
    }
}

/// The sum of the first `n` numbers.
pub open spec fn id_at(deltas: Seq<i64>, n: nat) -> int
    decreases n,
{
    if n == 0 {
        0
    } else {
        id_at(deltas, (n - 1) as nat) + deltas[n - 1]
    }
}

/// Whether every node id is one that can be held.
pub open spec fn ids_fit(deltas: Seq<i64>) -> bool {
    forall|i: int| 0 <= i < deltas.len() ==> i64::MIN <= #[trigger] id_at(deltas, (i + 1) as nat) <= i64::MAX
}

/// The node ids of a way.
pub open spec fn ids_of(deltas: Seq<i64>) -> Seq<i64> {
    Seq::new(deltas.len(), |i: int| id_at(deltas, (i + 1) as nat) as i64)
}

/// Adds up the node ids of a way.
pub fn node_ids(deltas: &Vec<i64>) -> (r: Option<Vec<i64>>)
    ensures
        match r {
            Some(ids) => ids_fit(deltas@) && ids@ == ids_of(deltas@),
            None => !ids_fit(deltas@),
        },
{
    let mut ids: Vec<i64> = Vec::new();
    let mut id: i64 = 0;
    let mut i: usize = 0;
    while i < deltas.len()
        invariant
            i <= deltas@.len(),
            id == id_at(deltas@, i as nat),
            ids@ =~= ids_of(deltas@).take(i as int),
            forall|k: int|
                0 <= k < i ==> i64::MIN <= #[trigger] id_at(deltas@, (k + 1) as nat) <= i64::MAX,
        decreases deltas@.len() - i,
    {
        let next: i128 = id as i128 + deltas[i] as i128;
        assert(next == id_at(deltas@, (i + 1) as nat));
        if next < i64::MIN as i128 || next > i64::MAX as i128 {
            assert(!ids_fit(deltas@));
            return None;
        }
        id = next as i64;
        ids.push(id);
        i = i + 1;
    }
    assert(ids_of(deltas@).take(i as int) =~= ids_of(deltas@));
    Some(ids)
}

/// The lines among the first `n` ways.
pub open spec fn line_rows(ways: Seq<WayData>, n: nat) -> Seq<(i64, Texts)>
    decreases n,
{
    if n == 0 {
        Seq::empty()
    } else {
        let w = ways[n - 1];
        let earlier = line_rows(ways, (n - 1) as nat);
        if is_line(w.tags) {
            earlier.push((w.id, extract::line_texts(w.tags, w.tags.len())))
        } else {
            earlier
        }
    }
}

/// The areas among the first `n` ways.
pub open spec fn area_rows(ways: Seq<WayData>, n: nat) -> Seq<(i64, Texts)>
    decreases n,
{
    if n == 0 {
        Seq::empty()
    } else {
        let w = ways[n - 1];
        let earlier = area_rows(ways, (n - 1) as nat);
        if is_area(w.tags, ids_of(w.deltas)) {
            earlier.push((w.id, extract::area_texts(w.tags, w.tags.len())))
        } else {
            earlier
        }
    }
}

/// The node ids of those among the first `n` ways that are drawn, or that a wanted
/// relation is built from.
pub open spec fn ref_rows(ways: Seq<WayData>, wanted: Set<i64>, n: nat) -> Seq<(i64, Seq<i64>)>
    decreases n,
{
    if n == 0 {
        Seq::empty()
    } else {
        let w = ways[n - 1];
        let earlier = ref_rows(ways, wanted, (n - 1) as nat);
        if is_line(w.tags) || is_area(w.tags, ids_of(w.deltas)) || wanted.contains(w.id) {
            earlier.push((w.id, ids_of(w.deltas)))
        } else {
            earlier
        }
    }
}

/// The tags of the first `n` ways.
pub open spec fn tag_total(ways: Seq<WayData>, n: nat) -> nat
    decreases n,
{
    if n == 0 {
        0
    } else {
        tag_total(ways, (n - 1) as nat) + ways[n - 1].tags.len()
    }
}

/// Why a block is not taken in.
#[derive(Clone, Copy, Debug, PartialEq, Eq, Structural)]
pub enum ScanError {
    /// There is no block to decode.
    Corrupt,
    /// A way refers to a node id that cannot be held.
    Refs,
    /// The vocabulary may have no room for the words of the block.
    Full,
}

/// What keeps ways from being taken in by a vocabulary of so many words.
pub open spec fn fault(ways: Seq<WayData>, words: nat) -> Option<ScanError> {
    if exists|i: int| 0 <= i < ways.len() && !ids_fit((#[trigger] ways[i]).deltas) {
        Some(ScanError::Refs)
    } else if words + 2 * tag_total(ways, ways.len()) >= rows::NO_TAG {
        Some(ScanError::Full)
    } else {
        None
    }
}

/// Whether `after` is `before` with every way visited in order.
pub open spec fn visited(
    ways: Seq<WayData>,
    wanted: Set<i64>,
    n: nat,
    words: Seq<Seq<char>>,
    before: Ways,
    after: Ways,
) -> bool {
    &&& after.refs.wf()
    &&& after.refs@ == before.refs@ + ref_rows(ways, wanted, n)
    &&& appended(before.lines@, after.lines@, words, line_rows(ways, n))
    &&& appended(before.areas@, after.areas@, words, area_rows(ways, n))
}

proof fn lemma_appended_keeps(
    before: Seq<(i64, TagSet)>,
    after: Seq<(i64, TagSet)>,
    earlier: Seq<Seq<char>>,
    words: Seq<Seq<char>>,
    rows: Seq<(i64, Texts)>,
)
    requires
        appended(before, after, earlier, rows),
        extends(words, earlier),
    ensures
        appended(before, after, words, rows),
{
    let part = after.skip(before.len() as int);
    assert forall|i: int| 0 <= i < part.len() implies (#[trigger] part[i]).1.wf(words) && part[i].1.texts(words)
        == part[i].1.texts(earlier) by {
        assert(part[i].1.wf(earlier));
        extract::law_words_keep_their_meaning(part[i].1, earlier, words);
    }
    assert(set_rows(part, words) =~= set_rows(part, earlier));
}

proof fn lemma_appended_more(
    before: Seq<(i64, TagSet)>,
    after: Seq<(i64, TagSet)>,
    next: Seq<(i64, TagSet)>,
    words: Seq<Seq<char>>,
    rows: Seq<(i64, Texts)>,
)
    requires
        appended(before, after, words, rows),
        next.len() == after.len() + 1,
        next.drop_last() == after,
        next.last().1.wf(words),
    ensures
        appended(before, next, words, rows.push((next.last().0, next.last().1.texts(words)))),
{
    let n = before.len() as int;
    assert(next =~= after.push(next.last()));
    assert(next.take(n) =~= after.take(n));
    assert(next.skip(n) =~= after.skip(n).push(next.last()));
    assert(extract::all_known(next.skip(n), words));
    assert(set_rows(next.skip(n), words) =~= set_rows(after.skip(n), words).push(
        (next.last().0, next.last().1.texts(words)),
    ));
}

/// The tags of a way as string slices.
fn tag_refs(tags: &Vec<(String, String)>) -> (out: Vec<(&str, &str)>)
    ensures
        extract::pairs(out@) == tag_texts(tags@),
{
    let mut out: Vec<(&str, &str)> = Vec::new();
    let mut i: usize = 0;
    while i < tags.len()
        invariant
            i <= tags@.len(),
            extract::pairs(out@) =~= tag_texts(tags@).take(i as int),
        decreases tags@.len() - i,
    {
        let ghost before = out@;
        out.push((tags[i].0.as_str(), tags[i].1.as_str()));
        assert(extract::pairs(out@) =~= extract::pairs(before).push((tags@[i as int].0@, tags@[i as int].1@)));
        i = i + 1;
    }
    assert(tag_texts(tags@).take(i as int) =~= tag_texts(tags@));
    out
}

/// Takes ways in, in order: all of them, or none where one refers to a node id that
/// cannot be held or the vocabulary may have no room.
pub fn keep_ways(
    ways: &Vec<RawWay>,
    wanted: &HashSet<i64>,
    words: &mut Interner,
    out: &mut Ways,
) -> (r: Result<(), ScanError>)
    requires
        old(out).refs.wf(),
        old(words).wf(),
    ensures
        final(words).wf(),
        match fault(way_data(ways@), old(words)@.len()) {
            Some(e) => {
                &&& r == Err::<(), ScanError>(e)
                &&& *final(out) == *old(out)
                &&& *final(words) == *old(words)
            },
            None => {
                &&& r is Ok
                &&& extends(final(words)@, old(words)@)
                &&& visited(way_data(ways@), wanted@, ways@.len(), final(words)@, *old(out), *final(out))
            },
        },
{
    let ghost data = way_data(ways@);
    let mut ids: Vec<Vec<i64>> = Vec::new();
    let mut i: usize = 0;
    while i < ways.len()
        invariant
            i <= ways@.len(),
            data == way_data(ways@),
            *words == *old(words),
            *out == *old(out),
            words.wf(),
            ids@.len() == i,
            forall|k: int|
                0 <= k < i ==> ids_fit((#[trigger] data[k]).deltas) && ids@[k]@ == ids_of(data[k].deltas),
        decreases ways@.len() - i,
    {
        assert(data[i as int] == ways@[i as int]@);
        match node_ids(&ways[i].deltas) {
            Some(list) => {
                ids.push(list);
            },
            None => {
                assert(!ids_fit(data[i as int].deltas));
                return Err(ScanError::Refs);
            },
        }
        i = i + 1;
    }
    if words.len() >= rows::NO_TAG as usize {
        return Err(ScanError::Full);
    }
    let mut left: u64 = rows::NO_TAG as u64 - 1 - words.len() as u64;
    let mut n: usize = 0;
    while n < ways.len()
        invariant
            n <= ways@.len(),
            data == way_data(ways@),
            forall|k: int| 0 <= k < data.len() ==> ids_fit((#[trigger] data[k]).deltas),
            *words == *old(words),
            *out == *old(out),
            words.wf(),
            left == rows::NO_TAG - 1 - words@.len() - 2 * tag_total(data, n as nat),
        decreases ways@.len() - n,
    {
        let count: u64 = ways[n].tags.len() as u64;
        assert(data[n as int].tags.len() == count);
        if count > left / 2 {
            proof {
                lemma_tags_grow(data, (n + 1) as nat, data.len());
            }
            return Err(ScanError::Full);
        }
        left = left - 2 * count;
        n = n + 1;
    }
    assert(fault(data, old(words)@.len()) is None);
    let mut i: usize = 0;
    proof {
        assert(out.lines@.take(out.lines@.len() as int) =~= out.lines@);
        assert(out.areas@.take(out.areas@.len() as int) =~= out.areas@);
        assert(set_rows(out.lines@.skip(out.lines@.len() as int), words@) =~= line_rows(data, 0));
        assert(set_rows(out.areas@.skip(out.areas@.len() as int), words@) =~= area_rows(data, 0));
        assert(out.refs@ =~= out.refs@ + ref_rows(data, wanted@, 0));
    }
    while i < ways.len()
        invariant
            i <= ways@.len(),
            data == way_data(ways@),
            fault(data, old(words)@.len()) is None,
            ids@.len() == ways@.len(),
            forall|k: int| 0 <= k < data.len() ==> ids@[k]@ == ids_of((#[trigger] data[k]).deltas),
            words.wf(),
            words@.len() <= old(words)@.len() + 2 * tag_total(data, i as nat),
            extends(words@, old(words)@),
            visited(data, wanted@, i as nat, words@, *old(out), *out),
        decreases ways@.len() - i,
    {
        let ghost before = *out;
        let ghost earlier = words@;
        let ghost w = data[i as int];
        proof {
            lemma_tags_grow(data, (i + 1) as nat, data.len());
            assert(w == ways@[i as int]@);
        }
        let tags: Vec<(&str, &str)> = tag_refs(&ways[i].tags);
        assert(extract::pairs(tags@).len() == tags@.len());
        out.visit(ways[i].id, tags.as_slice(), ids[i].as_slice(), wanted, words);
        proof {
            assert(extract::pairs(tags@) == w.tags);
            assert(ids@[i as int]@ == ids_of(w.deltas));
            lemma_appended_keeps(old(out).lines@, before.lines@, earlier, words@, line_rows(data, i as nat));
            lemma_appended_keeps(old(out).areas@, before.areas@, earlier, words@, area_rows(data, i as nat));
            if is_line(w.tags) {
                lemma_appended_more(old(out).lines@, before.lines@, out.lines@, words@, line_rows(data, i as nat));
            }
            if is_area(w.tags, ids_of(w.deltas)) {
                lemma_appended_more(old(out).areas@, before.areas@, out.areas@, words@, area_rows(data, i as nat));
            }
            assert(out.refs@ =~= old(out).refs@ + ref_rows(data, wanted@, (i + 1) as nat));
            assert(visited(data, wanted@, (i + 1) as nat, words@, *old(out), *out));
        }
        i = i + 1;
    }
    Ok(())
}

proof fn lemma_tags_grow(ways: Seq<WayData>, m: nat, n: nat)
    requires
        m <= n,
    ensures
        tag_total(ways, m) <= tag_total(ways, n),
    decreases n,
{
    if m < n {
        lemma_tags_grow(ways, m, (n - 1) as nat);
    }
}

/// Takes in the ways of a block: decodes it, and keeps each way that is drawn as a line
/// or an area, or that a wanted relation is built from. On a fault nothing is kept.
pub fn scan_ways(
    blob: &[u8],
    wanted: &HashSet<i64>,
    words: &mut Interner,
    out: &mut Ways,
) -> (r: Result<(), ScanError>)
    requires
        old(out).refs.wf(),
        old(words).wf(),
    ensures
        final(words).wf(),
        match ways_in(blob@) {
            None => {
                &&& r == Err::<(), ScanError>(ScanError::Corrupt)
                &&& *final(out) == *old(out)
                &&& *final(words) == *old(words)
            },
            Some(ways) => match fault(ways, old(words)@.len()) {
                Some(e) => {
                    &&& r == Err::<(), ScanError>(e)
                    &&& *final(out) == *old(out)
                    &&& *final(words) == *old(words)
                },
                None => {
                    &&& r is Ok
                    &&& extends(final(words)@, old(words)@)
                    &&& visited(ways, wanted@, ways.len(), final(words)@, *old(out), *final(out))
                },
            },
        },
{
    match decode_ways(blob) {
        Some(ways) => keep_ways(&ways, wanted, words, out),
        None => Err(ScanError::Corrupt),
    }
}

proof fn lemma_rows_join(first: Seq<WayData>, second: Seq<WayData>, wanted: Set<i64>, n: nat)
    requires
        n <= second.len(),
    ensures
        line_rows(first + second, first.len() + n) == line_rows(first, first.len()) + line_rows(second, n),
        area_rows(first + second, first.len() + n) == area_rows(first, first.len()) + area_rows(second, n),
        ref_rows(first + second, wanted, first.len() + n) == ref_rows(first, wanted, first.len()) + ref_rows(
            second,
            wanted,
            n,
        ),
    decreases n,
{
    let all = first + second;
    if n == 0 {
        lemma_rows_of_a_prefix(first, second, wanted, first.len());
        assert(line_rows(first, first.len()) + line_rows(second, 0) =~= line_rows(first, first.len()));
        assert(area_rows(first, first.len()) + area_rows(second, 0) =~= area_rows(first, first.len()));
        assert(ref_rows(first, wanted, first.len()) + ref_rows(second, wanted, 0) =~= ref_rows(
            first,
            wanted,
            first.len(),
        ));
    } else {
        let m = (n - 1) as nat;
        lemma_rows_join(first, second, wanted, m);
        assert(all[(first.len() + m) as int] == second[m as int]);
        assert((first.len() + n - 1) as nat == first.len() + m);
        assert(line_rows(all, first.len() + n) =~= line_rows(first, first.len()) + line_rows(second, n));
        assert(area_rows(all, first.len() + n) =~= area_rows(first, first.len()) + area_rows(second, n));
        assert(ref_rows(all, wanted, first.len() + n) =~= ref_rows(first, wanted, first.len()) + ref_rows(
            second,
            wanted,
            n,
        ));
    }
}

proof fn lemma_rows_of_a_prefix(first: Seq<WayData>, second: Seq<WayData>, wanted: Set<i64>, n: nat)
    requires
        n <= first.len(),
    ensures
        line_rows(first + second, n) == line_rows(first, n),
        area_rows(first + second, n) == area_rows(first, n),
        ref_rows(first + second, wanted, n) == ref_rows(first, wanted, n),
    decreases n,
{
    if n > 0 {
        lemma_rows_of_a_prefix(first, second, wanted, (n - 1) as nat);
        assert((first + second)[n - 1] == first[n - 1]);
    }
}

/// **However the blocks are shared out, the same is kept.** Where two workers take in
/// ways, each with a vocabulary of its own, and what the second one kept is merged into
/// what the first one did, the outcome is what a single worker keeps of the ways of
/// both.
pub proof fn law_workers_agree(
    first: Seq<WayData>,
    second: Seq<WayData>,
    wanted: Set<i64>,
    nothing: Ways,
    ours: Ways,
    our_words: Seq<Seq<char>>,
    theirs: Ways,
    their_words: Seq<Seq<char>>,
    merged: Ways,
    words: Seq<Seq<char>>,
)
    requires
        nothing.refs@.len() == 0,
        nothing.lines@.len() == 0,
        nothing.areas@.len() == 0,
        visited(first, wanted, first.len(), our_words, nothing, ours),
        visited(second, wanted, second.len(), their_words, nothing, theirs),
        extends(words, our_words),
        merged.refs.wf(),
        merged.refs@ == ours.refs@ + theirs.refs@,
        appended(ours.lines@, merged.lines@, words, set_rows(theirs.lines@, their_words)),
        appended(ours.areas@, merged.areas@, words, set_rows(theirs.areas@, their_words)),
    ensures
        visited(first + second, wanted, first.len() + second.len(), words, nothing, merged),
{
    lemma_rows_join(first, second, wanted, second.len());
    lemma_appended_keeps(nothing.lines@, ours.lines@, our_words, words, line_rows(first, first.len()));
    lemma_appended_keeps(nothing.areas@, ours.areas@, our_words, words, area_rows(first, first.len()));
    assert(theirs.lines@.skip(0) =~= theirs.lines@);
    assert(theirs.areas@.skip(0) =~= theirs.areas@);
    lemma_appended_twice(
        nothing.lines@,
        ours.lines@,
        merged.lines@,
        words,
        line_rows(first, first.len()),
        line_rows(second, second.len()),
    );
    lemma_appended_twice(
        nothing.areas@,
        ours.areas@,
        merged.areas@,
        words,
        area_rows(first, first.len()),
        area_rows(second, second.len()),
    );
    assert(merged.refs@ =~= nothing.refs@ + ref_rows(first + second, wanted, first.len() + second.len()));
}

proof fn lemma_appended_twice(
    before: Seq<(i64, TagSet)>,
    middle: Seq<(i64, TagSet)>,
    after: Seq<(i64, TagSet)>,
    words: Seq<Seq<char>>,
    some: Seq<(i64, Texts)>,
    more: Seq<(i64, Texts)>,
)
    requires
        appended(before, middle, words, some),
        appended(middle, after, words, more),
    ensures
        appended(before, after, words, some + more),
{
    let n = before.len() as int;
    let m = middle.len() as int;
    let part = after.skip(n);
    assert(after.take(m) =~= middle);
    assert(after.take(n) =~= middle.take(n));
    assert(part =~= middle.skip(n) + after.skip(m)) by {
        assert forall|i: int| 0 <= i < part.len() implies part[i] == (middle.skip(n) + after.skip(m))[i] by {
            if i + n < m {
                assert(after.take(m)[i + n] == middle[i + n]);
            }
        }
    }
    assert(extract::all_known(part, words)) by {
        assert forall|i: int| 0 <= i < part.len() implies (#[trigger] part[i]).1.wf(words) by {
            if i + n < m {
                assert(part[i] == middle.skip(n)[i]);
            } else {
                assert(part[i] == after.skip(m)[i + n - m]);
            }
        }
    }
    assert(set_rows(part, words) =~= some + more);
}

proof fn lemma_line_rows(ways: Seq<WayData>, n: nat)
    requires
        n <= ways.len(),
    ensures
        line_rows(ways, n) == ways.take(n as int).filter(|w: WayData| is_line(w.tags)).map_values(|w: WayData| (w.id, extract::line_texts(w.tags, w.tags.len()))),
    decreases n,
{
    reveal(Seq::filter);
    let picks = |w: WayData| is_line(w.tags);
    let gives = |w: WayData| (w.id, extract::line_texts(w.tags, w.tags.len()));
    let front = ways.take(n as int);
    if n == 0 {
        assert(line_rows(ways, n) =~= front.filter(picks).map_values(gives));
    } else {
        lemma_line_rows(ways, (n - 1) as nat);
        let earlier = ways.take(n - 1);
        assert(front.drop_last() =~= earlier);
        assert(front.last() == ways[n - 1]);
        if picks(ways[n - 1]) {
            assert(front.filter(picks) == earlier.filter(picks).push(ways[n - 1]));
            assert(front.filter(picks).map_values(gives) =~= earlier.filter(picks).map_values(gives).push(
                gives(ways[n - 1]),
            ));
        } else {
            assert(front.filter(picks) == earlier.filter(picks));
        }
    }
}

/// **Every way that is drawn as a line is kept as one**, in order, under its own id and
/// with its own tags, and no other is.
pub proof fn law_every_line_is_kept(ways: Seq<WayData>)
    ensures
        line_rows(ways, ways.len()) == ways.filter(|w: WayData| is_line(w.tags)).map_values(|w: WayData| (w.id, extract::line_texts(w.tags, w.tags.len()))),
{
    lemma_line_rows(ways, ways.len());
    assert(ways.take(ways.len() as int) =~= ways);
}

proof fn lemma_area_rows(ways: Seq<WayData>, n: nat)
    requires
        n <= ways.len(),
    ensures
        area_rows(ways, n) == ways.take(n as int).filter(|w: WayData| is_area(w.tags, ids_of(w.deltas))).map_values(|w: WayData| (w.id, extract::area_texts(w.tags, w.tags.len()))),
    decreases n,
{
    reveal(Seq::filter);
    let picks = |w: WayData| is_area(w.tags, ids_of(w.deltas));
    let gives = |w: WayData| (w.id, extract::area_texts(w.tags, w.tags.len()));
    let front = ways.take(n as int);
    if n == 0 {
        assert(area_rows(ways, n) =~= front.filter(picks).map_values(gives));
    } else {
        lemma_area_rows(ways, (n - 1) as nat);
        let earlier = ways.take(n - 1);
        assert(front.drop_last() =~= earlier);
        assert(front.last() == ways[n - 1]);
        if picks(ways[n - 1]) {
            assert(front.filter(picks) == earlier.filter(picks).push(ways[n - 1]));
            assert(front.filter(picks).map_values(gives) =~= earlier.filter(picks).map_values(gives).push(
                gives(ways[n - 1]),
            ));
        } else {
            assert(front.filter(picks) == earlier.filter(picks));
        }
    }
}

/// **Every way that is drawn as an area is kept as one**, in order, under its own id and
/// with its own tags, and no other is.
pub proof fn law_every_area_is_kept(ways: Seq<WayData>)
    ensures
        area_rows(ways, ways.len()) == ways.filter(|w: WayData| is_area(w.tags, ids_of(w.deltas))).map_values(|w: WayData| (w.id, extract::area_texts(w.tags, w.tags.len()))),
{
    lemma_area_rows(ways, ways.len());
    assert(ways.take(ways.len() as int) =~= ways);
}

proof fn lemma_ref_rows(ways: Seq<WayData>, wanted: Set<i64>, n: nat)
    requires
        n <= ways.len(),
    ensures
        ref_rows(ways, wanted, n) == ways.take(n as int).filter(|w: WayData| is_line(w.tags) || is_area(w.tags, ids_of(w.deltas)) || wanted.contains(w.id)).map_values(|w: WayData| (w.id, ids_of(w.deltas))),
    decreases n,
{
    reveal(Seq::filter);
    let picks = |w: WayData| is_line(w.tags) || is_area(w.tags, ids_of(w.deltas)) || wanted.contains(w.id);
    let gives = |w: WayData| (w.id, ids_of(w.deltas));
    let front = ways.take(n as int);
    if n == 0 {
        assert(ref_rows(ways, wanted, n) =~= front.filter(picks).map_values(gives));
    } else {
        lemma_ref_rows(ways, wanted, (n - 1) as nat);
        let earlier = ways.take(n - 1);
        assert(front.drop_last() =~= earlier);
        assert(front.last() == ways[n - 1]);
        if picks(ways[n - 1]) {
            assert(front.filter(picks) == earlier.filter(picks).push(ways[n - 1]));
            assert(front.filter(picks).map_values(gives) =~= earlier.filter(picks).map_values(gives).push(
                gives(ways[n - 1]),
            ));
        } else {
            assert(front.filter(picks) == earlier.filter(picks));
        }
    }
}

/// **The node ids of a way are kept where it is drawn or a wanted relation has it for a
/// member**, and nowhere else.
pub proof fn law_node_ids_are_kept_where_they_are_needed(ways: Seq<WayData>, wanted: Set<i64>)
    ensures
        ref_rows(ways, wanted, ways.len()) == ways.filter(|w: WayData| is_line(w.tags) || is_area(w.tags, ids_of(w.deltas)) || wanted.contains(w.id)).map_values(|w: WayData| (w.id, ids_of(w.deltas))),
{
    lemma_ref_rows(ways, wanted, ways.len());
    assert(ways.take(ways.len() as int) =~= ways);
}

/// **A way's first node id stands as it is, and each further one is the one before it
/// moved on by what stands for it.**
pub proof fn law_node_ids_add_up(deltas: Seq<i64>, i: int)
    requires
        ids_fit(deltas),
        0 <= i < deltas.len(),
    ensures
        ids_of(deltas).len() == deltas.len(),
        ids_of(deltas)[0] == deltas[0],
        i > 0 ==> ids_of(deltas)[i] == ids_of(deltas)[i - 1] + deltas[i],
{
    assert(id_at(deltas, 0) == 0);
    assert(i64::MIN <= id_at(deltas, (0 + 1) as nat) <= i64::MAX);
    assert(i64::MIN <= id_at(deltas, (i + 1) as nat) <= i64::MAX);
    if i > 0 {
        assert(i64::MIN <= id_at(deltas, (i - 1 + 1) as nat) <= i64::MAX);
    }
}

/// The words a block may need are two to each of its tags.
pub proof fn law_tags_add_up(ways: Seq<WayData>, more: WayData)
    ensures
        tag_total(ways, 0) == 0,
        tag_total(ways.push(more), ways.len() + 1) == tag_total(ways, ways.len()) + more.tags.len(),
{
    lemma_tag_prefix(ways, more, ways.len());
}

proof fn lemma_tag_prefix(ways: Seq<WayData>, more: WayData, n: nat)
    requires
        n <= ways.len(),
    ensures
        tag_total(ways.push(more), n) == tag_total(ways, n),
    decreases n,
{
    if n > 0 {
        lemma_tag_prefix(ways, more, (n - 1) as nat);
    }
}

} // verus!
