//! Tile ids and the directories that map them to byte ranges.
//!
//! A directory is a count and four columns of varints: how far each tile id lies
//! past the one before, how many ids share the entry's blob, how long the blob
//! is, and where it is. Reading one never panics: whatever is truncated or
//! self-contradictory is `None`.

use crate::bytes;
use crate::hilbert;
use vstd::prelude::*;

verus! {

/// One line of a directory: a blob, and the tiles it is the content of. A run
/// length of 0 marks a pointer to a leaf directory instead.
#[derive(Clone, Copy, Debug, PartialEq, Eq, Structural)]
pub struct Entry {
    pub tile_id: u64,
    pub offset: u64,
    pub length: u32,
    pub run_length: u32,
}

/// Tiles in all the rungs above rung `z`.
pub open spec fn tiles_above(z: nat) -> int
    decreases z,
{
    if z == 0 {
        0
    } else {
        tiles_above((z - 1) as nat) + hilbert::cells((z - 1) as nat)
    }
}

/// The id of a tile: tiles are counted in Hilbert order, rung by rung.
pub open spec fn id_of(z: nat, x: int, y: int) -> int {
    tiles_above(z) + hilbert::key(z, x, y)
}

/// The ids of a rung follow those of the rungs above without a gap.
proof fn lemma_rungs(z: nat)
    ensures
        tiles_above(z) * 3 + 1 == hilbert::cells(z),
        0 <= tiles_above(z),
    decreases z,
{
    if z > 0 {
        lemma_rungs((z - 1) as nat);
    }
}

proof fn lemma_rungs_ordered(a: nat, b: nat)
    requires
        a < b,
    ensures
        tiles_above(a) + hilbert::cells(a) <= tiles_above(b),
    decreases b,
{
    hilbert::lemma_cells_square((b - 1) as nat);
    if a + 1 < b {
        lemma_rungs_ordered(a, (b - 1) as nat);
    }
}

/// Ids fill each rung's range without gaps: the first is the number of tiles
/// above, a third of one less than the rung's tiles, and the last comes right
/// before the next rung's first.
pub proof fn law_rungs_are_contiguous(z: nat, x: int, y: int)
    requires
        hilbert::on_grid(z, x, y),
    ensures
        tiles_above(z) == (hilbert::cells(z) - 1) / 3,
        tiles_above(z) <= id_of(z, x, y) < tiles_above(z + 1),
{
    lemma_rungs(z);
    hilbert::law_curve_stays_on_the_grid(z, x, y, 0);
}

/// No two tiles share an id.
pub proof fn law_ids_are_unique(z: nat, x: int, y: int, w: nat, u: int, v: int)
    requires
        hilbert::on_grid(z, x, y),
        hilbert::on_grid(w, u, v),
        id_of(z, x, y) == id_of(w, u, v),
    ensures
        z == w,
        x == u,
        y == v,
{
    hilbert::law_curve_stays_on_the_grid(z, x, y, 0);
    hilbert::law_curve_stays_on_the_grid(w, u, v, 0);
    if z < w {
        lemma_rungs_ordered(z, w);
    } else if w < z {
        lemma_rungs_ordered(w, z);
    } else {
        hilbert::law_key_and_cell_are_inverse(z, x, y, 0);
        hilbert::law_key_and_cell_are_inverse(w, u, v, 0);
    }
}

/// Tiles with consecutive ids on one rung share an edge.
pub proof fn law_ids_walk_the_rung(z: nat, x: int, y: int, u: int, v: int)
    requires
        hilbert::on_grid(z, x, y),
        hilbert::on_grid(z, u, v),
        id_of(z, u, v) == id_of(z, x, y) + 1,
    ensures
        hilbert::adjacent((x, y), (u, v)),
{
    hilbert::law_curve_stays_on_the_grid(z, x, y, 0);
    hilbert::law_curve_stays_on_the_grid(z, u, v, 0);
    hilbert::law_key_and_cell_are_inverse(z, x, y, 0);
    hilbert::law_key_and_cell_are_inverse(z, u, v, 0);
    hilbert::law_curve_walks(z, hilbert::key(z, x, y));
}

/// z/x/y to the archive's Hilbert-curve tile id. `None` for a tile that is not
/// on its rung, or a rung past the format's depth.
pub fn tile_id(z: u8, x: u32, y: u32) -> (id: Option<u64>)
    ensures
        match id {
            Some(id) => {
                &&& z <= 31
                &&& hilbert::on_grid(z as nat, x as int, y as int)
                &&& id == id_of(z as nat, x as int, y as int)
            },
            None => z > 31 || !hilbert::on_grid(z as nat, x as int, y as int),
        },
{
    if z > 31 {
        return None;
    }
    let n: u64 = hilbert::edge_of(z as u32);
    if x as u64 >= n || y as u64 >= n {
        return None;
    }
    proof {
        lemma_rungs(z as nat);
        hilbert::law_curve_stays_on_the_grid(z as nat, x as int, y as int, 0);
        hilbert::lemma_grows(z as nat, 31);
        hilbert::lemma_widths();
        hilbert::lemma_cells_square(31);
    }
    if z == 0 {
        return Some(0);
    }
    let above: u64 = (hilbert::cells_of(z as u32) - 1) / 3;
    proof {
        vstd::arithmetic::div_mod::lemma_small_mod(x as nat, n as nat);
        vstd::arithmetic::div_mod::lemma_small_mod(y as nat, n as nat);
    }
    Some(above + hilbert::hilbert(z as u32, x, y))
}

/// `n` tile ids from `at`, each stored as how far it lies past the one before,
/// and where the next column starts.
pub open spec fn id_column(b: Seq<u8>, at: int, n: nat) -> Option<(Seq<int>, int)>
    decreases n,
{
    if n == 0 {
        Some((Seq::empty(), at))
    } else {
        match id_column(b, at, (n - 1) as nat) {
            None => None,
            Some((ids, at)) => match bytes::varint_at(b, at, 0) {
                None => None,
                Some((delta, at)) => {
                    let id = delta + if n == 1 {
                        0
                    } else {
                        ids[n - 2]
                    };
                    if id > u64::MAX {
                        None
                    } else {
                        Some((ids.push(id), at))
                    }
                },
            },
        }
    }
}

/// `n` numbers of at most 32 bits from `at`, and where the next column starts.
pub open spec fn small_column(b: Seq<u8>, at: int, n: nat) -> Option<(Seq<int>, int)>
    decreases n,
{
    if n == 0 {
        Some((Seq::empty(), at))
    } else {
        match small_column(b, at, (n - 1) as nat) {
            None => None,
            Some((values, at)) => match bytes::varint_at(b, at, 0) {
                None => None,
                Some((v, at)) => if v > u32::MAX {
                    None
                } else {
                    Some((values.push(v), at))
                },
            },
        }
    }
}

/// `n` offsets from `at`, each stored plus one. On any but the first entry a 0
/// means "right behind the previous entry's blob".
pub open spec fn offset_column(b: Seq<u8>, at: int, lengths: Seq<int>, n: nat) -> Option<
    (Seq<int>, int),
>
    decreases n,
{
    if n == 0 {
        Some((Seq::empty(), at))
    } else {
        match offset_column(b, at, lengths, (n - 1) as nat) {
            None => None,
            Some((offsets, at)) => match bytes::varint_at(b, at, 0) {
                None => None,
                Some((raw, at)) => if raw > 0 {
                    Some((offsets.push(raw - 1), at))
                } else if n == 1 || offsets[n - 2] + lengths[n - 2] > u64::MAX {
                    None
                } else {
                    Some((offsets.push(offsets[n - 2] + lengths[n - 2]), at))
                },
            },
        }
    }
}

/// The directory a buffer holds.
pub open spec fn directory(b: Seq<u8>) -> Option<Seq<Entry>> {
    match bytes::varint_at(b, 0, 0) {
        None => None,
        Some((n, at)) => if n > b.len() {
            None
        } else {
            match id_column(b, at, n as nat) {
                None => None,
                Some((ids, at)) => match small_column(b, at, n as nat) {
                    None => None,
                    Some((runs, at)) => match small_column(b, at, n as nat) {
                        None => None,
                        Some((lengths, at)) => match offset_column(b, at, lengths, n as nat) {
                            None => None,
                            Some((offsets, at)) => Some(zipped(n as nat, ids, runs, lengths, offsets)),
                        },
                    },
                },
            }
        },
    }
}

/// Four columns as one list of entries.
pub open spec fn zipped(
    n: nat,
    ids: Seq<int>,
    runs: Seq<int>,
    lengths: Seq<int>,
    offsets: Seq<int>,
) -> Seq<Entry> {
    Seq::new(
        n,
        |i: int|
            Entry {
                tile_id: ids[i] as u64,
                offset: offsets[i] as u64,
                length: lengths[i] as u32,
                run_length: runs[i] as u32,
            },
    )
}

/// Whether no entry's id is below the one before it.
pub open spec fn ordered(entries: Seq<Entry>) -> bool {
    forall|i: int, j: int| 0 <= i < j < entries.len() ==> entries[i].tile_id <= entries[j].tile_id
}

proof fn lemma_id_column_stops(b: Seq<u8>, at: int, m: nat, n: nat)
    requires
        m <= n,
        id_column(b, at, m) is None,
    ensures
        id_column(b, at, n) is None,
    decreases n,
{
    if m < n {
        lemma_id_column_stops(b, at, m, (n - 1) as nat);
    }
}

proof fn lemma_small_column_stops(b: Seq<u8>, at: int, m: nat, n: nat)
    requires
        m <= n,
        small_column(b, at, m) is None,
    ensures
        small_column(b, at, n) is None,
    decreases n,
{
    if m < n {
        lemma_small_column_stops(b, at, m, (n - 1) as nat);
    }
}

proof fn lemma_offset_column_stops(b: Seq<u8>, at: int, lengths: Seq<int>, m: nat, n: nat)
    requires
        m <= n,
        offset_column(b, at, lengths, m) is None,
    ensures
        offset_column(b, at, lengths, n) is None,
    decreases n,
{
    if m < n {
        lemma_offset_column_stops(b, at, lengths, m, (n - 1) as nat);
    }
}

proof fn lemma_id_column_ordered(b: Seq<u8>, at: int, n: nat)
    ensures
        id_column(b, at, n) matches Some((ids, next)) ==> {
            &&& ids.len() == n
            &&& forall|i: int| 0 <= i < n ==> 0 <= #[trigger] ids[i] <= u64::MAX
            &&& forall|i: int, j: int| 0 <= i < j < n ==> ids[i] <= ids[j]
        },
    decreases n,
{
    if n > 0 {
        lemma_id_column_ordered(b, at, (n - 1) as nat);
        if let Some((ids, next)) = id_column(b, at, (n - 1) as nat) {
            bytes::lemma_varint_bounds(b, next, 0);
        }
    }
}

/// A directory that can be read is in order.
pub proof fn law_directories_are_ordered(b: Seq<u8>)
    ensures
        directory(b) matches Some(entries) ==> ordered(entries),
{
    if let Some((n, at)) = bytes::varint_at(b, 0, 0) {
        lemma_id_column_ordered(b, at, n as nat);
        if let Some(entries) = directory(b) {
            let ids = id_column(b, at, n as nat).unwrap().0;
            bytes::lemma_varint_bounds(b, 0, 0);
            assert forall|i: int, j: int| 0 <= i < j < entries.len() implies entries[i].tile_id
                <= entries[j].tile_id by {
                assert(ids[i] <= ids[j]);
            }
        }
    }
}

fn read_ids(b: &[u8], at: &mut usize, n: usize) -> (r: Option<Vec<u64>>)
    ensures
        match id_column(b@, *old(at) as int, n as nat) {
            Some((ids, next)) => {
                &&& r is Some
                &&& *final(at) == next
                &&& r.unwrap()@.map_values(|v: u64| v as int) == ids
            },
            None => r is None,
        },
{
    let ghost start = *at as int;
    let mut ids: Vec<u64> = Vec::new();
    let mut last: u64 = 0;
    let mut i: usize = 0;
    assert(ids@.map_values(|v: u64| v as int) =~= Seq::<int>::empty());
    while i < n
        invariant
            i <= n,
            start == *old(at),
            ids@.len() == i,
            id_column(b@, start, i as nat) == Some(
                (ids@.map_values(|v: u64| v as int), *at as int),
            ),
            last == (if i == 0 {
                0
            } else {
                ids@[i - 1]
            }),
        decreases n - i,
    {
        let delta: u64 = match bytes::varint(b, at) {
            Some(v) => v,
            None => {
                proof {
                    lemma_id_column_stops(b@, start, (i + 1) as nat, n as nat);
                }
                return None;
            },
        };
        if delta > u64::MAX - last {
            proof {
                lemma_id_column_stops(b@, start, (i + 1) as nat, n as nat);
            }
            return None;
        }
        last = last + delta;
        let ghost before = ids@;
        ids.push(last);
        i = i + 1;
        assert(ids@.map_values(|v: u64| v as int) =~= before.map_values(|v: u64| v as int).push(
            last as int,
        ));
    }
    Some(ids)
}

fn read_small(b: &[u8], at: &mut usize, n: usize) -> (r: Option<Vec<u32>>)
    ensures
        match small_column(b@, *old(at) as int, n as nat) {
            Some((values, next)) => {
                &&& r is Some
                &&& *final(at) == next
                &&& r.unwrap()@.map_values(|v: u32| v as int) == values
            },
            None => r is None,
        },
{
    let ghost start = *at as int;
    let mut values: Vec<u32> = Vec::new();
    let mut i: usize = 0;
    assert(values@.map_values(|v: u32| v as int) =~= Seq::<int>::empty());
    while i < n
        invariant
            i <= n,
            start == *old(at),
            values@.len() == i,
            small_column(b@, start, i as nat) == Some(
                (values@.map_values(|v: u32| v as int), *at as int),
            ),
        decreases n - i,
    {
        let v: u64 = match bytes::varint(b, at) {
            Some(v) => v,
            None => {
                proof {
                    lemma_small_column_stops(b@, start, (i + 1) as nat, n as nat);
                }
                return None;
            },
        };
        if v > u32::MAX as u64 {
            proof {
                lemma_small_column_stops(b@, start, (i + 1) as nat, n as nat);
            }
            return None;
        }
        let ghost before = values@;
        values.push(v as u32);
        i = i + 1;
        assert(values@.map_values(|v: u32| v as int) =~= before.map_values(
            |v: u32| v as int,
        ).push(v as int));
    }
    Some(values)
}

fn read_offsets(b: &[u8], at: &mut usize, lengths: &Vec<u32>) -> (r: Option<Vec<u64>>)
    ensures
        match offset_column(
            b@,
            *old(at) as int,
            lengths@.map_values(|v: u32| v as int),
            lengths@.len(),
        ) {
            Some((offsets, next)) => {
                &&& r is Some
                &&& *final(at) == next
                &&& r.unwrap()@.map_values(|v: u64| v as int) == offsets
            },
            None => r is None,
        },
{
    let ghost start = *at as int;
    let ghost sizes = lengths@.map_values(|v: u32| v as int);
    let n: usize = lengths.len();
    let mut offsets: Vec<u64> = Vec::new();
    let mut i: usize = 0;
    assert(offsets@.map_values(|v: u64| v as int) =~= Seq::<int>::empty());
    while i < n
        invariant
            i <= n,
            n == lengths@.len(),
            start == *old(at),
            sizes == lengths@.map_values(|v: u32| v as int),
            offsets@.len() == i,
            offset_column(b@, start, sizes, i as nat) == Some(
                (offsets@.map_values(|v: u64| v as int), *at as int),
            ),
        decreases n - i,
    {
        let raw: u64 = match bytes::varint(b, at) {
            Some(v) => v,
            None => {
                proof {
                    lemma_offset_column_stops(b@, start, sizes, (i + 1) as nat, n as nat);
                }
                return None;
            },
        };
        let offset: u64 = if raw > 0 {
            raw - 1
        } else if i == 0 || offsets[i - 1] > u64::MAX - lengths[i - 1] as u64 {
            proof {
                lemma_offset_column_stops(b@, start, sizes, (i + 1) as nat, n as nat);
            }
            return None;
        } else {
            offsets[i - 1] + lengths[i - 1] as u64
        };
        let ghost before = offsets@;
        offsets.push(offset);
        i = i + 1;
        assert(offsets@.map_values(|v: u64| v as int) =~= before.map_values(
            |v: u64| v as int,
        ).push(offset as int));
    }
    Some(offsets)
}

/// Reads a directory. `None` for anything truncated or self-contradictory.
pub fn parse_directory(buf: &[u8]) -> (r: Option<Vec<Entry>>)
    ensures
        match directory(buf@) {
            Some(entries) => r is Some && r.unwrap()@ == entries && ordered(entries),
            None => r is None,
        },
{
    proof {
        law_directories_are_ordered(buf@);
    }
    let mut at: usize = 0;
    let n: u64 = match bytes::varint(buf, &mut at) {
        Some(v) => v,
        None => {
            return None;
        },
    };
    // Four varints per entry at one byte minimum: a count the buffer cannot
    // possibly hold is refused before anything is read for it.
    if n > buf.len() as u64 {
        return None;
    }
    let ids: Vec<u64> = match read_ids(buf, &mut at, n as usize) {
        Some(v) => v,
        None => {
            return None;
        },
    };
    let ghost id_values = ids@.map_values(|v: u64| v as int);
    let runs: Vec<u32> = match read_small(buf, &mut at, n as usize) {
        Some(v) => v,
        None => {
            return None;
        },
    };
    let ghost run_values = runs@.map_values(|v: u32| v as int);
    let lengths: Vec<u32> = match read_small(buf, &mut at, n as usize) {
        Some(v) => v,
        None => {
            return None;
        },
    };
    let ghost length_values = lengths@.map_values(|v: u32| v as int);
    proof {
        lemma_column_lengths(buf@, n as nat);
    }
    let offsets: Vec<u64> = match read_offsets(buf, &mut at, &lengths) {
        Some(v) => v,
        None => {
            return None;
        },
    };
    let ghost offset_values = offsets@.map_values(|v: u64| v as int);
    proof {
        lemma_offset_column_len(
            buf@,
            small_column(
                buf@,
                small_column(
                    buf@,
                    id_column(buf@, bytes::varint_at(buf@, 0, 0).unwrap().1, n as nat).unwrap().1,
                    n as nat,
                ).unwrap().1,
                n as nat,
            ).unwrap().1,
            length_values,
            n as nat,
        );
    }
    let mut entries: Vec<Entry> = Vec::new();
    let mut i: usize = 0;
    while i < n as usize
        invariant
            i <= n,
            n <= buf.len(),
            entries@.len() == i,
            ids@.len() == n,
            runs@.len() == n,
            lengths@.len() == n,
            offsets@.len() == n,
            id_values == ids@.map_values(|v: u64| v as int),
            run_values == runs@.map_values(|v: u32| v as int),
            length_values == lengths@.map_values(|v: u32| v as int),
            offset_values == offsets@.map_values(|v: u64| v as int),
            entries@ == zipped(i as nat, id_values, run_values, length_values, offset_values),
        decreases n - i,
    {
        entries.push(
            Entry {
                tile_id: ids[i],
                offset: offsets[i],
                length: lengths[i],
                run_length: runs[i],
            },
        );
        i = i + 1;
        assert(entries@ =~= zipped(i as nat, id_values, run_values, length_values, offset_values));
    }
    Some(entries)
}

proof fn lemma_small_column_len(b: Seq<u8>, at: int, n: nat)
    ensures
        small_column(b, at, n) matches Some((values, next)) ==> values.len() == n,
    decreases n,
{
    if n > 0 {
        lemma_small_column_len(b, at, (n - 1) as nat);
    }
}

proof fn lemma_offset_column_len(b: Seq<u8>, at: int, lengths: Seq<int>, n: nat)
    ensures
        offset_column(b, at, lengths, n) matches Some((values, next)) ==> values.len() == n,
    decreases n,
{
    if n > 0 {
        lemma_offset_column_len(b, at, lengths, (n - 1) as nat);
    }
}

proof fn lemma_column_lengths(b: Seq<u8>, n: nat)
    ensures
        forall|at: int| #![trigger id_column(b, at, n)]
            id_column(b, at, n) matches Some((values, next)) ==> values.len() == n,
        forall|at: int| #![trigger small_column(b, at, n)]
            small_column(b, at, n) matches Some((values, next)) ==> values.len() == n,
{
    assert forall|at: int| #![trigger id_column(b, at, n)] id_column(b, at, n) matches Some(
        (values, next),
    ) ==> values.len() == n by {
        lemma_id_column_ordered(b, at, n);
    }
    assert forall|at: int| #![trigger small_column(b, at, n)] small_column(b, at, n) matches Some(
        (values, next),
    ) ==> values.len() == n by {
        lemma_small_column_len(b, at, n);
    }
}

/// Whether `entries[i]` is the last entry at or below `target`.
pub open spec fn last_at_or_below(entries: Seq<Entry>, target: u64, i: int) -> bool {
    &&& 0 <= i < entries.len()
    &&& entries[i].tile_id <= target
    &&& i + 1 < entries.len() ==> entries[i + 1].tile_id > target
}

/// The last entry whose id is at or below `target`, looked for among the first
/// `n`.
pub open spec fn found(entries: Seq<Entry>, target: u64, n: nat) -> Option<Entry>
    decreases n,
{
    if n == 0 {
        None
    } else if entries[n - 1].tile_id <= target {
        Some(entries[n - 1])
    } else {
        found(entries, target, (n - 1) as nat)
    }
}

proof fn lemma_found(entries: Seq<Entry>, target: u64, m: nat, n: nat)
    requires
        m <= n <= entries.len(),
        forall|i: int| m <= i < n ==> (#[trigger] entries[i]).tile_id > target,
    ensures
        found(entries, target, n) == found(entries, target, m),
    decreases n,
{
    if m < n {
        assert(entries[n - 1].tile_id > target);
        lemma_found(entries, target, m, (n - 1) as nat);
    }
}

/// The last entry whose id is at or below `target`. Entries are sorted by id.
pub fn find(entries: &[Entry], target: u64) -> (r: Option<Entry>)
    requires
        ordered(entries@),
    ensures
        r == found(entries@, target, entries@.len()),
        r matches Some(e) ==> e.tile_id <= target && exists|i: int|
            #[trigger] last_at_or_below(entries@, target, i) && entries@[i] == e,
        r is None ==> forall|i: int|
            0 <= i < entries@.len() ==> (#[trigger] entries@[i]).tile_id > target,
{
    let mut lo: usize = 0;
    let mut hi: usize = entries.len();
    while lo < hi
        invariant
            ordered(entries@),
            lo <= hi <= entries@.len(),
            forall|i: int| 0 <= i < lo ==> (#[trigger] entries@[i]).tile_id <= target,
            forall|i: int| hi <= i < entries@.len() ==> (#[trigger] entries@[i]).tile_id > target,
        decreases hi - lo,
    {
        let mid: usize = lo + (hi - lo) / 2;
        if entries[mid].tile_id <= target {
            lo = mid + 1;
        } else {
            hi = mid;
        }
    }
    proof {
        lemma_found(entries@, target, lo as nat, entries@.len());
    }
    if lo == 0 {
        None
    } else {
        assert(last_at_or_below(entries@, target, lo - 1));
        Some(entries[lo - 1])
    }
}

/// The first `n` ids of a directory as a column.
pub open spec fn id_bytes(entries: Seq<Entry>, n: nat) -> Seq<u8>
    decreases n,
{
    if n == 0 {
        Seq::empty()
    } else {
        id_bytes(entries, (n - 1) as nat) + bytes::varint_bytes(
            (entries[n - 1].tile_id - if n == 1 {
                0
            } else {
                entries[n - 2].tile_id as int
            }) as nat,
        )
    }
}

/// The first `n` run lengths of a directory as a column.
pub open spec fn run_bytes(entries: Seq<Entry>, n: nat) -> Seq<u8>
    decreases n,
{
    if n == 0 {
        Seq::empty()
    } else {
        run_bytes(entries, (n - 1) as nat) + bytes::varint_bytes(entries[n - 1].run_length as nat)
    }
}

/// The first `n` lengths of a directory as a column.
pub open spec fn length_bytes(entries: Seq<Entry>, n: nat) -> Seq<u8>
    decreases n,
{
    if n == 0 {
        Seq::empty()
    } else {
        length_bytes(entries, (n - 1) as nat) + bytes::varint_bytes(entries[n - 1].length as nat)
    }
}

/// The number the `i`-th offset is stored as. A blob right behind the previous one may
/// take the shorthand, unless `explicit` says of it that its offset is spelled out.
pub open spec fn stored_offset(entries: Seq<Entry>, explicit: Seq<bool>, i: int) -> int {
    if !explicit[i] && i > 0 && entries[i - 1].offset + entries[i - 1].length == entries[i].offset {
        0
    } else {
        entries[i].offset + 1
    }
}

/// The first `n` offsets of a directory as a column.
pub open spec fn offset_bytes(entries: Seq<Entry>, explicit: Seq<bool>, n: nat) -> Seq<u8>
    decreases n,
{
    if n == 0 {
        Seq::empty()
    } else {
        offset_bytes(entries, explicit, (n - 1) as nat) + bytes::varint_bytes(
            stored_offset(entries, explicit, n - 1) as nat,
        )
    }
}

/// A directory laid out as the format has it.
pub open spec fn directory_bytes(entries: Seq<Entry>, explicit: Seq<bool>) -> Seq<u8> {
    let n = entries.len();
    bytes::varint_bytes(n) + id_bytes(entries, n) + run_bytes(entries, n) + length_bytes(entries, n)
        + offset_bytes(entries, explicit, n)
}

/// Whether `part` stands at `at` in `b`.
spec fn stands(b: Seq<u8>, at: int, part: Seq<u8>) -> bool {
    &&& 0 <= at
    &&& at + part.len() <= b.len()
    &&& b.subrange(at, at + part.len()) == part
}

proof fn lemma_stands_split(b: Seq<u8>, at: int, p: Seq<u8>, q: Seq<u8>)
    requires
        stands(b, at, p + q),
    ensures
        stands(b, at, p),
        stands(b, at + p.len(), q),
{
    let whole = b.subrange(at, at + (p + q).len());
    assert(b.subrange(at, at + p.len()) =~= p) by {
        assert(b.subrange(at, at + p.len()) =~= whole.subrange(0, p.len() as int));
    }
    assert(b.subrange(at + p.len(), at + p.len() + q.len()) =~= q) by {
        assert(b.subrange(at + p.len(), at + p.len() + q.len()) =~= whole.subrange(
            p.len() as int,
            (p + q).len() as int,
        ));
    }
}

proof fn lemma_ids_read(b: Seq<u8>, at: int, entries: Seq<Entry>, n: nat)
    requires
        n <= entries.len(),
        ordered(entries),
        stands(b, at, id_bytes(entries, n)),
    ensures
        id_column(b, at, n) == Some(
            (
                Seq::new(n, |i: int| entries[i].tile_id as int),
                at + id_bytes(entries, n).len(),
            ),
        ),
    decreases n,
{
    if n == 0 {
        assert(Seq::new(0, |i: int| entries[i].tile_id as int) =~= Seq::<int>::empty());
    } else {
        let m = (n - 1) as nat;
        let previous = if n == 1 {
            0
        } else {
            entries[n - 2].tile_id as int
        };
        let delta = (entries[n - 1].tile_id - previous) as nat;
        lemma_stands_split(b, at, id_bytes(entries, m), bytes::varint_bytes(delta));
        lemma_ids_read(b, at, entries, m);
        assert(n >= 2 ==> entries[n - 2].tile_id <= entries[n - 1].tile_id);
        bytes::law_varint_survives(b, at + id_bytes(entries, m).len(), delta as u64);
        assert(Seq::new(n, |i: int| entries[i].tile_id as int) =~= Seq::new(
            m,
            |i: int| entries[i].tile_id as int,
        ).push(entries[n - 1].tile_id as int));
    }
}

proof fn lemma_runs_read(b: Seq<u8>, at: int, entries: Seq<Entry>, n: nat)
    requires
        n <= entries.len(),
        stands(b, at, run_bytes(entries, n)),
    ensures
        small_column(b, at, n) == Some(
            (
                Seq::new(n, |i: int| entries[i].run_length as int),
                at + run_bytes(entries, n).len(),
            ),
        ),
    decreases n,
{
    if n == 0 {
        assert(Seq::new(0, |i: int| entries[i].run_length as int) =~= Seq::<int>::empty());
    } else {
        let m = (n - 1) as nat;
        let v = entries[n - 1].run_length;
        lemma_stands_split(b, at, run_bytes(entries, m), bytes::varint_bytes(v as nat));
        lemma_runs_read(b, at, entries, m);
        bytes::law_varint_survives(b, at + run_bytes(entries, m).len(), v as u64);
        assert(Seq::new(n, |i: int| entries[i].run_length as int) =~= Seq::new(
            m,
            |i: int| entries[i].run_length as int,
        ).push(v as int));
    }
}

proof fn lemma_lengths_read(b: Seq<u8>, at: int, entries: Seq<Entry>, n: nat)
    requires
        n <= entries.len(),
        stands(b, at, length_bytes(entries, n)),
    ensures
        small_column(b, at, n) == Some(
            (
                Seq::new(n, |i: int| entries[i].length as int),
                at + length_bytes(entries, n).len(),
            ),
        ),
    decreases n,
{
    if n == 0 {
        assert(Seq::new(0, |i: int| entries[i].length as int) =~= Seq::<int>::empty());
    } else {
        let m = (n - 1) as nat;
        let v = entries[n - 1].length;
        lemma_stands_split(b, at, length_bytes(entries, m), bytes::varint_bytes(v as nat));
        lemma_lengths_read(b, at, entries, m);
        bytes::law_varint_survives(b, at + length_bytes(entries, m).len(), v as u64);
        assert(Seq::new(n, |i: int| entries[i].length as int) =~= Seq::new(
            m,
            |i: int| entries[i].length as int,
        ).push(v as int));
    }
}

proof fn lemma_offsets_read(
    b: Seq<u8>,
    at: int,
    entries: Seq<Entry>,
    explicit: Seq<bool>,
    lengths: Seq<int>,
    n: nat,
)
    requires
        n <= entries.len(),
        lengths == Seq::new(entries.len(), |i: int| entries[i].length as int),
        forall|i: int| 0 <= i < entries.len() ==> (#[trigger] entries[i]).offset < u64::MAX,
        stands(b, at, offset_bytes(entries, explicit, n)),
    ensures
        offset_column(b, at, lengths, n) == Some(
            (
                Seq::new(n, |i: int| entries[i].offset as int),
                at + offset_bytes(entries, explicit, n).len(),
            ),
        ),
    decreases n,
{
    if n == 0 {
        assert(Seq::new(0, |i: int| entries[i].offset as int) =~= Seq::<int>::empty());
    } else {
        let m = (n - 1) as nat;
        let v = stored_offset(entries, explicit, n - 1);
        assert(entries[n - 1].offset < u64::MAX);
        lemma_stands_split(
            b,
            at,
            offset_bytes(entries, explicit, m),
            bytes::varint_bytes(v as nat),
        );
        lemma_offsets_read(b, at, entries, explicit, lengths, m);
        bytes::law_varint_survives(b, at + offset_bytes(entries, explicit, m).len(), v as u64);
        assert(Seq::new(n, |i: int| entries[i].offset as int) =~= Seq::new(
            m,
            |i: int| entries[i].offset as int,
        ).push(entries[n - 1].offset as int));
    }
}

proof fn lemma_ids_take_room(entries: Seq<Entry>, n: nat)
    ensures
        id_bytes(entries, n).len() >= n,
    decreases n,
{
    if n > 0 {
        lemma_ids_take_room(entries, (n - 1) as nat);
    }
}

proof fn lemma_id_column_prefix(b: Seq<u8>, m: int, at: int, n: nat)
    requires
        0 <= m <= b.len(),
        id_column(b, at, n) is Some,
    ensures
        at <= id_column(b, at, n).unwrap().1,
        id_column(b, at, n).unwrap().1 <= m ==> id_column(b.take(m), at, n) == id_column(b, at, n),
        n > 0 && id_column(b, at, n).unwrap().1 > m ==> id_column(b.take(m), at, n) is None,
    decreases n,
{
    if n > 0 {
        lemma_id_column_prefix(b, m, at, (n - 1) as nat);
        let next = id_column(b, at, (n - 1) as nat).unwrap().1;
        bytes::lemma_varint_prefix(b, m, next, 0);
        bytes::lemma_varint_bounds(b, next, 0);
    }
}

proof fn lemma_small_column_prefix(b: Seq<u8>, m: int, at: int, n: nat)
    requires
        0 <= m <= b.len(),
        small_column(b, at, n) is Some,
    ensures
        at <= small_column(b, at, n).unwrap().1,
        small_column(b, at, n).unwrap().1 <= m ==> small_column(b.take(m), at, n) == small_column(b, at, n),
        n > 0 && small_column(b, at, n).unwrap().1 > m ==> small_column(b.take(m), at, n) is None,
    decreases n,
{
    if n > 0 {
        lemma_small_column_prefix(b, m, at, (n - 1) as nat);
        let next = small_column(b, at, (n - 1) as nat).unwrap().1;
        bytes::lemma_varint_prefix(b, m, next, 0);
        bytes::lemma_varint_bounds(b, next, 0);
    }
}

proof fn lemma_offset_column_prefix(b: Seq<u8>, m: int, at: int, lengths: Seq<int>, n: nat)
    requires
        0 <= m <= b.len(),
        offset_column(b, at, lengths, n) is Some,
    ensures
        at <= offset_column(b, at, lengths, n).unwrap().1,
        offset_column(b, at, lengths, n).unwrap().1 <= m ==> offset_column(b.take(m), at, lengths, n)
            == offset_column(b, at, lengths, n),
        n > 0 && offset_column(b, at, lengths, n).unwrap().1 > m ==> offset_column(b.take(m), at, lengths, n) is None,
    decreases n,
{
    if n > 0 {
        lemma_offset_column_prefix(b, m, at, lengths, (n - 1) as nat);
        let next = offset_column(b, at, lengths, (n - 1) as nat).unwrap().1;
        bytes::lemma_varint_prefix(b, m, next, 0);
        bytes::lemma_varint_bounds(b, next, 0);
    }
}

/// Where a directory that can be read ends.
pub open spec fn directory_end(b: Seq<u8>) -> int {
    let (n, at) = bytes::varint_at(b, 0, 0).unwrap();
    let at = id_column(b, at, n as nat).unwrap().1;
    let at = small_column(b, at, n as nat).unwrap().1;
    let (lengths, at) = small_column(b, at, n as nat).unwrap();
    offset_column(b, at, lengths, n as nat).unwrap().1
}

/// A directory that is cut short anywhere is refused.
pub proof fn law_truncated_directories_are_refused(b: Seq<u8>, m: int)
    requires
        directory(b) is Some,
        0 <= m < directory_end(b) <= b.len(),
    ensures
        directory(b.take(m)) is None,
{
    let p = b.take(m);
    let (n, at) = bytes::varint_at(b, 0, 0).unwrap();
    bytes::lemma_varint_bounds(b, 0, 0);
    bytes::lemma_varint_prefix(b, m, 0, 0);
    if at <= m && n <= m {
        let count = n as nat;
        lemma_id_column_prefix(b, m, at, count);
        let at1 = id_column(b, at, count).unwrap().1;
        lemma_small_column_prefix(b, m, at1, count);
        let at2 = small_column(b, at1, count).unwrap().1;
        lemma_small_column_prefix(b, m, at2, count);
        let (lengths, at3) = small_column(b, at2, count).unwrap();
        lemma_offset_column_prefix(b, m, at3, lengths, count);
    }
}

/// A directory reads back entry for entry, whichever of its offsets are spelled out, and
/// nothing that is cut short of it reads at all.
pub proof fn law_directories_round_trip(entries: Seq<Entry>, explicit: Seq<bool>)
    requires
        ordered(entries),
        explicit.len() == entries.len(),
        entries.len() <= u64::MAX,
        forall|i: int| 0 <= i < entries.len() ==> (#[trigger] entries[i]).offset < u64::MAX,
    ensures
        directory(directory_bytes(entries, explicit)) == Some(entries),
        forall|m: int|
            0 <= m < directory_bytes(entries, explicit).len() ==> directory(
                #[trigger] directory_bytes(entries, explicit).take(m),
            ) is None,
{
    let n = entries.len();
    let b = directory_bytes(entries, explicit);
    let count = bytes::varint_bytes(n);
    let ids = id_bytes(entries, n);
    let runs = run_bytes(entries, n);
    let sizes = length_bytes(entries, n);
    let offsets = offset_bytes(entries, explicit, n);
    assert(b.subrange(0, b.len() as int) =~= b);
    lemma_stands_split(b, 0, count + ids + runs + sizes, offsets);
    lemma_stands_split(b, 0, count + ids + runs, sizes);
    lemma_stands_split(b, 0, count + ids, runs);
    lemma_stands_split(b, 0, count, ids);
    bytes::law_varint_survives(b, 0, n as u64);
    lemma_ids_take_room(entries, n);
    let lengths = Seq::new(n, |i: int| entries[i].length as int);
    lemma_ids_read(b, count.len() as int, entries, n);
    lemma_runs_read(b, (count + ids).len() as int, entries, n);
    lemma_lengths_read(b, (count + ids + runs).len() as int, entries, n);
    lemma_offsets_read(
        b,
        (count + ids + runs + sizes).len() as int,
        entries,
        explicit,
        lengths,
        n,
    );
    assert(directory(b).unwrap() =~= entries);
    assert(directory_end(b) == b.len());
    assert forall|m: int| 0 <= m < b.len() implies directory(#[trigger] b.take(m)) is None by {
        law_truncated_directories_are_refused(b, m);
    }
}

} // verus!
