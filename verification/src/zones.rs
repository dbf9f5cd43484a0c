//! The zone index: a grid cell in, a zone out.
//!
//! A *zone* is an interval of the Hilbert curve that holds at least `k`
//! buildings, and a *tier* is a complete partition of the curve into such
//! zones. The index stores where each zone starts, delta coded in blocks behind
//! a sampled skip table, so a lookup is a binary search and a scan of one block.
//!
//! Three things are promised of an encoded index, and proved at the end of this
//! file: every cell is answered, the answer is the zone the cell lies in and
//! nothing else about the cell, and that zone holds at least `k` buildings. Of an index
//! from elsewhere one thing is: as long as its blocks come in order, zones of one id are
//! the same zone.

use crate::bytes;
use crate::hilbert;
use crate::hilbert::{Extent, Quad};
use vstd::prelude::*;

verus! {

/// Bump on any change to the layout.
pub const VERSION: u32 = 3;

/// Magic, version, level, block, tier count, then the data bounds.
pub const HEADER_LEN: usize = 56;

/// k, zone count, offset of the skip table, offset of the stream.
pub const TIER_LEN: usize = 24;

/// First breakpoint of a block, and where the block starts in the stream.
pub const SKIP_LEN: usize = 12;

/// The eight bytes every index starts with, `ANONZONE`.
pub open spec fn magic() -> Seq<u8> {
    seq![65u8, 78u8, 79u8, 78u8, 90u8, 79u8, 78u8, 69u8]
}

/// One privacy level: a complete partition of the plane into zones of at least
/// `k` buildings. Several live in one file so that changing k is a config change
/// rather than a re-bake.
#[derive(Clone, Copy, Debug, PartialEq, Eq, Structural)]
pub struct Tier {
    pub k: u32,
    pub zones: u32,
    /// Where the skip table starts in the file.
    pub skips: u64,
    /// Where the byte stream starts in the file.
    pub stream: u64,
}

/// How many blocks of `block` zones it takes to hold `zones` of them.
pub open spec fn block_count(zones: int, block: int) -> int {
    zones / block + if zones % block > 0 {
        1int
    } else {
        0
    }
}

impl Tier {
    pub fn blocks(&self, block: u32) -> (n: u32)
        requires
            block > 0,
        ensures
            n == block_count(self.zones as int, block as int),
            self.zones > 0 ==> n > 0,
    {
        proof {
            lemma_block_count(self.zones as int, block as int);
        }
        self.zones / block + if self.zones % block > 0 { 1u32 } else { 0u32 }
    }
}

proof fn lemma_block_count(zones: int, block: int)
    requires
        zones >= 0,
        block > 0,
    ensures
        0 <= block_count(zones, block) <= zones,
        zones > 0 ==> block_count(zones, block) > 0,
        forall|j: int|
            0 <= j < block_count(zones, block) ==> 0 <= #[trigger] (j * block) < zones,
        zones <= block_count(zones, block) * block,
{
    let q = zones / block;
    let r = zones % block;
    vstd::arithmetic::div_mod::lemma_fundamental_div_mod(zones, block);
    vstd::arithmetic::div_mod::lemma_mod_bound(zones, block);
    assert(block * q == q * block) by (nonlinear_arith);
    assert(0 <= q <= q * block) by (nonlinear_arith)
        requires
            q * block + r == zones,
            0 <= r < block,
            zones >= 0,
            block >= 1,
    ;
    assert((q + 1) * block == q * block + block) by (nonlinear_arith);
    assert(q == 0 ==> q * block == 0) by (nonlinear_arith);
    assert forall|j: int| 0 <= j < block_count(zones, block) implies 0 <= #[trigger] (j * block)
        < zones by {
        assert(0 <= j * block) by (nonlinear_arith)
            requires
                0 <= j,
                block > 0,
        ;
        if r > 0 {
            assert(j * block <= q * block) by (nonlinear_arith)
                requires
                    j <= q,
                    block > 0,
            ;
        } else {
            assert(j * block + block <= q * block) by (nonlinear_arith)
                requires
                    j + 1 <= q,
                    block > 0,
            ;
        }
    }
}

/// Why a file is not an index that can be read.
#[derive(Clone, Copy, Debug, PartialEq, Eq, Structural)]
pub enum IndexError {
    /// Too short for a header, or not starting with the magic bytes.
    NotAnIndex,
    /// Written under another version of the layout.
    Version(u32),
    /// The grid level is not one a key fits in.
    Level(u32),
    /// Zero zones to a block.
    Block,
    /// The file ends inside the tier table.
    TierTable,
    /// The tier for this `k` holds no zone.
    NoZones(u32),
    /// The tier for this `k` runs past the end of the file.
    Truncated(u32),
    /// The file holds no tier at all.
    NoTiers,
}

/// What an index says of itself: everything but the zones.
pub struct Layout {
    pub level: u32,
    pub block: u32,
    pub tiers: Seq<Tier>,
    pub bounds: Seq<u64>,
}

/// The `i`-th entry of the tier table.
pub open spec fn tier_at(b: Seq<u8>, i: int) -> Tier {
    let at = HEADER_LEN + TIER_LEN * i;
    Tier {
        k: bytes::le_u32(b, at) as u32,
        zones: bytes::le_u32(b, at + 4) as u32,
        skips: bytes::le_u64(b, at + 8) as u64,
        stream: bytes::le_u64(b, at + 16) as u64,
    }
}

/// Whether a tier's skip table and the start of its stream lie inside a file of
/// `len` bytes.
pub open spec fn tier_fits(t: Tier, block: int, len: int) -> bool {
    &&& t.skips + SKIP_LEN * block_count(t.zones as int, block) <= len
    &&& t.stream <= len
}

/// The first `n` tiers of the table, or what is wrong with the first bad one.
pub open spec fn tiers_upto(b: Seq<u8>, block: int, n: nat) -> Result<Seq<Tier>, IndexError>
    decreases n,
{
    if n == 0 {
        Ok(Seq::empty())
    } else {
        match tiers_upto(b, block, (n - 1) as nat) {
            Err(e) => Err(e),
            Ok(tiers) => {
                let t = tier_at(b, n - 1);
                if t.zones == 0 {
                    Err(IndexError::NoZones(t.k))
                } else if !tier_fits(t, block, b.len() as int) {
                    Err(IndexError::Truncated(t.k))
                } else {
                    Ok(tiers.push(t))
                }
            },
        }
    }
}

/// What reading a file as an index gives.
pub open spec fn parsed(b: Seq<u8>) -> Result<Layout, IndexError> {
    if b.len() < HEADER_LEN || b.subrange(0, 8) != magic() {
        Err(IndexError::NotAnIndex)
    } else {
        let version = bytes::le_u32(b, 8) as u32;
        let level = bytes::le_u32(b, 12) as u32;
        let block = bytes::le_u32(b, 16) as u32;
        let n = bytes::le_u32(b, 20);
        if version != VERSION {
            Err(IndexError::Version(version))
        } else if !(1 <= level <= 24) {
            Err(IndexError::Level(level))
        } else if block == 0 {
            Err(IndexError::Block)
        } else if b.len() < HEADER_LEN + TIER_LEN * n {
            Err(IndexError::TierTable)
        } else {
            match tiers_upto(b, block as int, n as nat) {
                Err(e) => Err(e),
                Ok(tiers) => if n == 0 {
                    Err(IndexError::NoTiers)
                } else {
                    Ok(
                        Layout {
                            level,
                            block,
                            tiers,
                            bounds: seq![
                                bytes::le_u64(b, 24) as u64,
                                bytes::le_u64(b, 32) as u64,
                                bytes::le_u64(b, 40) as u64,
                                bytes::le_u64(b, 48) as u64,
                            ],
                        },
                    )
                },
            }
        }
    }
}

/// A parsed index. Holds no borrow of the mapping: the caller owns the bytes and
/// passes them back in.
#[derive(Clone, Debug)]
pub struct Index {
    /// Grid level the zones are cut on: cells are `2^level` to a world side.
    pub level: u32,
    /// Zones per delta-coded block. A lookup scans at most one block.
    pub block: u32,
    pub tiers: Vec<Tier>,
    /// Bounding box of the baked data, `[w, s, e, n]`, as the bits of the
    /// floating-point degrees the file holds.
    pub bounds: [u64; 4],
}

impl View for Index {
    type V = Layout;

    open spec fn view(&self) -> Layout {
        Layout {
            level: self.level,
            block: self.block,
            tiers: self.tiers@,
            bounds: self.bounds@,
        }
    }
}

impl Layout {
    /// A grid with a curve, at least one zone to a block and in every tier.
    pub open spec fn wf(self) -> bool {
        &&& 1 <= self.level <= 24
        &&& self.block > 0
        &&& self.tiers.len() > 0
        &&& forall|i: int| 0 <= i < self.tiers.len() ==> (#[trigger] self.tiers[i]).zones > 0
    }

    /// Whether every tier's skip table lies inside `b`.
    pub open spec fn fits(self, b: Seq<u8>) -> bool {
        forall|i: int|
            0 <= i < self.tiers.len() ==> tier_fits(
                #[trigger] self.tiers[i],
                self.block as int,
                b.len() as int,
            )
    }
}

proof fn lemma_tiers_upto(b: Seq<u8>, block: int, n: nat)
    ensures
        tiers_upto(b, block, n) matches Ok(tiers) ==> {
            &&& tiers.len() == n
            &&& forall|i: int|
                0 <= i < n ==> {
                    &&& (#[trigger] tiers[i]) == tier_at(b, i)
                    &&& tiers[i].zones > 0
                    &&& tier_fits(tiers[i], block, b.len() as int)
                }
        },
    decreases n,
{
    if n > 0 {
        lemma_tiers_upto(b, block, (n - 1) as nat);
    }
}

proof fn lemma_tiers_fail(b: Seq<u8>, block: int, m: nat, n: nat)
    requires
        m <= n,
        tiers_upto(b, block, m) is Err,
    ensures
        tiers_upto(b, block, n) == tiers_upto(b, block, m),
    decreases n,
{
    if m < n {
        lemma_tiers_fail(b, block, m, (n - 1) as nat);
    }
}

/// A parsed index is fit to be looked up in the file it was read from.
pub proof fn law_parsed_index_is_sound(b: Seq<u8>)
    ensures
        parsed(b) matches Ok(layout) ==> layout.wf() && layout.fits(b),
{
    let block = bytes::le_u32(b, 16) as u32;
    lemma_tiers_upto(b, block as int, bytes::le_u32(b, 20) as nat);
}

/// Whether a file starts with the magic bytes.
fn has_magic(b: &[u8]) -> (r: bool)
    requires
        b@.len() >= 8,
    ensures
        r == (b@.subrange(0, 8) == magic()),
{
    let r = b[0] == 65 && b[1] == 78 && b[2] == 79 && b[3] == 78 && b[4] == 90 && b[5] == 79 && b[6]
        == 78 && b[7] == 69;
    proof {
        let s = b@.subrange(0, 8);
        assert(s[0] == b@[0] && s[1] == b@[1] && s[2] == b@[2] && s[3] == b@[3]);
        assert(s[4] == b@[4] && s[5] == b@[5] && s[6] == b@[6] && s[7] == b@[7]);
        if r {
            assert(s =~= magic());
        }
    }
    r
}

impl Index {
    /// Reads the header and the tier table. The streams are not read here: every
    /// read from them is bounds-checked as it goes.
    pub fn parse(file: &[u8]) -> (r: Result<Index, IndexError>)
        ensures
            match parsed(file@) {
                Ok(layout) => r is Ok && r.unwrap()@ == layout && layout.wf() && layout.fits(file@),
                Err(e) => r == Err::<Index, IndexError>(e),
            },
    {
        if file.len() < HEADER_LEN || !has_magic(file) {
            return Err(IndexError::NotAnIndex);
        }
        let version: u32 = bytes::u32_at(file, 8);
        if version != VERSION {
            return Err(IndexError::Version(version));
        }
        let level: u32 = bytes::u32_at(file, 12);
        if level < 1 || level > 24 {
            return Err(IndexError::Level(level));
        }
        let block: u32 = bytes::u32_at(file, 16);
        if block == 0 {
            return Err(IndexError::Block);
        }
        let n: u32 = bytes::u32_at(file, 20);
        if (file.len() as u64) < HEADER_LEN as u64 + TIER_LEN as u64 * n as u64 {
            return Err(IndexError::TierTable);
        }
        let mut tiers: Vec<Tier> = Vec::new();
        let mut i: u32 = 0;
        while i < n
            invariant
                file@.len() == file.len(),
                i <= n,
                block > 0,
                HEADER_LEN + TIER_LEN * n <= file@.len(),
                tiers_upto(file@, block as int, i as nat) == Ok::<Seq<Tier>, IndexError>(tiers@),
                forall|e: IndexError|
                    tiers_upto(file@, block as int, n as nat) == Err::<Seq<Tier>, IndexError>(e)
                        ==> parsed(file@) == Err::<Layout, IndexError>(e),
            decreases n - i,
        {
            let at: usize = HEADER_LEN + TIER_LEN * i as usize;
            let tier = Tier {
                k: bytes::u32_at(file, at),
                zones: bytes::u32_at(file, at + 4),
                skips: bytes::u64_at(file, at + 8),
                stream: bytes::u64_at(file, at + 16),
            };
            assert(tier == tier_at(file@, i as int));
            if tier.zones == 0 {
                proof {
                    lemma_tiers_fail(file@, block as int, (i + 1) as nat, n as nat);
                }
                return Err(IndexError::NoZones(tier.k));
            }
            let len: u64 = file.len() as u64;
            let table: u64 = SKIP_LEN as u64 * tier.blocks(block) as u64;
            if table > len || tier.skips > len - table || tier.stream > len {
                proof {
                    lemma_tiers_fail(file@, block as int, (i + 1) as nat, n as nat);
                }
                return Err(IndexError::Truncated(tier.k));
            }
            tiers.push(tier);
            i = i + 1;
        }
        if n == 0 {
            return Err(IndexError::NoTiers);
        }
        let bounds: [u64; 4] = [
            bytes::u64_at(file, 24),
            bytes::u64_at(file, 32),
            bytes::u64_at(file, 40),
            bytes::u64_at(file, 48),
        ];
        let index = Index { level, block, tiers, bounds };
        proof {
            law_parsed_index_is_sound(file@);
            assert(index@.bounds =~= seq![
                bytes::le_u64(file@, 24) as u64,
                bytes::le_u64(file@, 32) as u64,
                bytes::le_u64(file@, 40) as u64,
                bytes::le_u64(file@, 48) as u64,
            ]);
        }
        Ok(index)
    }

    /// The tier for `k`, or the most private tier baked if `k` is `None`.
    ///
    /// Defaulting upward is on purpose: tiers nest, so two callers who compare
    /// notes about one position are left with the smallest k either was given.
    pub fn tier(&self, k: Option<u32>) -> (r: Option<usize>)
        ensures
            match k {
                Some(k) => match r {
                    Some(i) => {
                        &&& i < self.tiers@.len()
                        &&& self.tiers@[i as int].k == k
                        &&& forall|j: int| 0 <= j < i ==> (#[trigger] self.tiers@[j]).k != k
                    },
                    None => forall|j: int|
                        0 <= j < self.tiers@.len() ==> (#[trigger] self.tiers@[j]).k != k,
                },
                None => match r {
                    Some(i) => {
                        &&& i < self.tiers@.len()
                        &&& forall|j: int|
                            0 <= j < self.tiers@.len() ==> (#[trigger] self.tiers@[j]).k
                                <= self.tiers@[i as int].k
                        &&& forall|j: int|
                            i < j < self.tiers@.len() ==> (#[trigger] self.tiers@[j]).k
                                < self.tiers@[i as int].k
                    },
                    None => self.tiers@.len() == 0,
                },
            },
    {
        let mut best: Option<usize> = None;
        let mut i: usize = 0;
        while i < self.tiers.len()
            invariant
                i <= self.tiers@.len(),
                match k {
                    Some(k) => best is None && forall|j: int|
                        0 <= j < i ==> (#[trigger] self.tiers@[j]).k != k,
                    None => match best {
                        Some(b) => {
                            &&& b < i
                            &&& forall|j: int|
                                0 <= j < i ==> (#[trigger] self.tiers@[j]).k
                                    <= self.tiers@[b as int].k
                            &&& forall|j: int|
                                b < j < i ==> (#[trigger] self.tiers@[j]).k
                                    < self.tiers@[b as int].k
                        },
                        None => i == 0,
                    },
                },
            decreases self.tiers@.len() - i,
        {
            match k {
                Some(k) => {
                    if self.tiers[i].k == k {
                        return Some(i);
                    }
                },
                None => {
                    match best {
                        Some(b) => {
                            if self.tiers[i].k >= self.tiers[b].k {
                                best = Some(i);
                            }
                        },
                        None => {
                            best = Some(i);
                        },
                    }
                },
            }
            i = i + 1;
        }
        best
    }
}

/// One zone as the file holds it: where it starts, how many buildings it holds,
/// and what its buildings' surroundings look like, each quantised to a byte. It
/// runs to the next record's start.
#[derive(Clone, Copy, Debug, PartialEq, Eq, Structural)]
pub struct Record {
    /// First Hilbert key of the zone.
    pub start: u64,
    pub buildings: u32,
    /// Buildings per square kilometre, see [`crate::answer::unpack_density`].
    pub density: u8,
    /// How much building there is per unit of ground, see
    /// [`crate::answer::kind_of`].
    pub built: u8,
}

/// First key of a tier's `j`-th block.
pub open spec fn first_key(b: Seq<u8>, t: Tier, j: int) -> int {
    bytes::le_u64(b, t.skips + SKIP_LEN * j)
}

/// Where a tier's `j`-th block starts, counted from the start of the stream.
pub open spec fn block_offset(b: Seq<u8>, t: Tier, j: int) -> int {
    bytes::le_u32(b, t.skips + SKIP_LEN * j + 8)
}

/// The block a binary search between `lo` and `hi` settles on.
pub open spec fn search(b: Seq<u8>, t: Tier, key: int, lo: int, hi: int) -> int
    decreases hi - lo,
{
    if lo + 1 < hi {
        let mid = lo + (hi - lo) / 2;
        if first_key(b, t, mid) <= key {
            search(b, t, key, mid, hi)
        } else {
            search(b, t, key, lo, mid)
        }
    } else {
        lo
    }
}

/// The record at `at` and where the next one starts. The first record of a block
/// takes its start from the skip table, `previous`; the others store how far
/// past the previous start theirs lies.
pub open spec fn record_at(b: Seq<u8>, at: int, previous: int, first: bool) -> Option<
    (Record, int),
> {
    match (if first {
        Some((0int, at))
    } else {
        bytes::varint_at(b, at, 0)
    }) {
        None => None,
        Some((delta, at)) => match bytes::varint_at(b, at, 0) {
            None => None,
            Some((buildings, at)) => if previous + delta > u64::MAX || at + 2 > b.len() {
                None
            } else {
                Some(
                    (
                        Record {
                            start: (previous + delta) as u64,
                            buildings: (buildings % 0x1_0000_0000) as u32,
                            density: b[at],
                            built: b[at + 1],
                        },
                        at + 2,
                    ),
                )
            },
        },
    }
}

/// Scans `left` records from `at` for the last one that starts at or before
/// `key`, and with it where that zone ends: at the next record's start, or at
/// `end` where the scan runs out of records. `None` where a record cannot be
/// read.
pub open spec fn scan(
    b: Seq<u8>,
    at: int,
    previous: int,
    first: bool,
    left: nat,
    key: int,
    best: Option<Record>,
    end: int,
) -> Option<(Record, int)>
    decreases left,
{
    if left == 0 {
        match best {
            Some(r) => Some((r, end)),
            None => None,
        }
    } else {
        match record_at(b, at, previous, first) {
            None => None,
            Some((r, next)) => if r.start > key {
                match best {
                    Some(hit) => Some((hit, r.start as int)),
                    None => None,
                }
            } else {
                scan(b, next, r.start as int, false, (left - 1) as nat, key, Some(r), end)
            },
        }
    }
}

/// Zones in the `j`-th block of a tier.
pub open spec fn zones_in_block(zones: int, block: int, j: int) -> int {
    if zones - j * block < block {
        zones - j * block
    } else {
        block
    }
}

/// The zone of a tier that holds `key`, and where it ends, as the file has it.
/// An end past the end of the curve is not one.
pub open spec fn lookup(layout: Layout, b: Seq<u8>, tier: int, key: int) -> Option<(Record, int)> {
    let t = layout.tiers[tier];
    let block = layout.block as int;
    let blocks = block_count(t.zones as int, block);
    let j = search(b, t, key, 0, blocks);
    let end = if j + 1 < blocks {
        first_key(b, t, j + 1)
    } else {
        hilbert::cells(layout.level as nat)
    };
    match scan(
        b,
        t.stream + block_offset(b, t, j),
        first_key(b, t, j),
        true,
        zones_in_block(t.zones as int, block, j) as nat,
        key,
        None,
        end,
    ) {
        Some((r, end)) => if end <= hilbert::cells(layout.level as nat) {
            Some((r, end))
        } else {
            None
        },
        None => None,
    }
}

/// A zone. Every field is a function of the index and the zone's own two
/// breakpoints; none is a function of the cell that looked it up.
#[derive(Clone, Copy, Debug, PartialEq, Eq, Structural)]
pub struct Zone {
    /// The zone's first Hilbert key. Stable across queries and across processes,
    /// unique within its tier.
    pub id: u64,
    /// The first Hilbert key past the zone.
    pub end: u64,
    /// How many buildings a position in this zone could be at.
    pub buildings: u32,
    pub k: u32,
    /// Where the zone is and how big, all of it recovered from the breakpoints.
    pub extent: Extent,
    /// Buildings per square kilometre, as the byte the file holds.
    pub density: u8,
    /// How much building there is per unit of ground, as the byte the file holds.
    pub built: u8,
}

impl Zone {
    /// Whether this is what a record that ends at `end` says, and no more.
    pub open spec fn tells(self, level: nat, k: u32, r: Record, end: int) -> bool {
        &&& self.id == r.start
        &&& self.end == end
        &&& self.buildings == r.buildings
        &&& self.k == k
        &&& self.density == r.density
        &&& self.built == r.built
        &&& self.extent.spans(level, r.start as int, end)
    }
}

proof fn lemma_search(b: Seq<u8>, t: Tier, key: int, lo: int, hi: int)
    requires
        lo < hi,
    ensures
        lo <= search(b, t, key, lo, hi) < hi,
        search(b, t, key, lo, hi) + 1 < hi ==> first_key(b, t, search(b, t, key, lo, hi) + 1) > key,
        first_key(b, t, lo) <= key ==> first_key(b, t, search(b, t, key, lo, hi)) <= key,
    decreases hi - lo,
{
    if lo + 1 < hi {
        let mid = lo + (hi - lo) / 2;
        if first_key(b, t, mid) <= key {
            lemma_search(b, t, key, mid, hi);
        } else {
            lemma_search(b, t, key, lo, mid);
        }
    }
}

proof fn lemma_scan(
    b: Seq<u8>,
    at: int,
    previous: int,
    first: bool,
    left: nat,
    key: int,
    best: Option<Record>,
    end: int,
)
    requires
        end > key,
        best matches Some(r) ==> r.start <= key,
    ensures
        scan(b, at, previous, first, left, key, best, end) matches Some((r, e)) ==> r.start <= key
            < e,
    decreases left,
{
    if left > 0 {
        if let Some((r, next)) = record_at(b, at, previous, first) {
            if r.start <= key {
                lemma_scan(b, next, r.start as int, false, (left - 1) as nat, key, Some(r), end);
            }
        }
    }
}

/// Whatever a file holds, an answer is a zone the key lies in.
pub proof fn law_answers_hold_the_key(layout: Layout, b: Seq<u8>, tier: int, key: int)
    requires
        layout.wf(),
        0 <= tier < layout.tiers.len(),
        0 <= key < hilbert::cells(layout.level as nat),
    ensures
        lookup(layout, b, tier, key) matches Some((r, end)) ==> r.start <= key < end
            <= hilbert::cells(layout.level as nat),
{
    let t = layout.tiers[tier];
    let block = layout.block as int;
    let blocks = block_count(t.zones as int, block);
    lemma_block_count(t.zones as int, block);
    lemma_search(b, t, key, 0, blocks);
    let j = search(b, t, key, 0, blocks);
    let end = if j + 1 < blocks {
        first_key(b, t, j + 1)
    } else {
        hilbert::cells(layout.level as nat)
    };
    lemma_scan(
        b,
        t.stream + block_offset(b, t, j),
        first_key(b, t, j),
        true,
        zones_in_block(t.zones as int, block, j) as nat,
        key,
        None,
        end,
    );
}

/// Reads the record at `at`, moving past it.
fn read_record(b: &[u8], at: &mut usize, previous: u64, first: bool) -> (r: Option<Record>)
    ensures
        match record_at(b@, *old(at) as int, previous as int, first) {
            Some((record, next)) => r == Some(record) && *final(at) == next,
            None => r is None,
        },
{
    proof {
        bytes::lemma_varint_bounds(b@, *at as int, 0);
    }
    let delta: u64 = if first {
        0
    } else {
        match bytes::varint(b, at) {
            Some(v) => v,
            None => {
                return None;
            },
        }
    };
    proof {
        bytes::lemma_varint_bounds(b@, *at as int, 0);
    }
    let buildings: u64 = match bytes::varint(b, at) {
        Some(v) => v,
        None => {
            return None;
        },
    };
    if delta > u64::MAX - previous || b.len() - *at < 2 {
        return None;
    }
    let record = Record {
        start: previous + delta,
        buildings: (buildings % 0x1_0000_0000) as u32,
        density: b[*at],
        built: b[*at + 1],
    };
    *at = *at + 2;
    Some(record)
}

impl Index {
    /// One entry of a tier's skip table: the block's first key, and where it
    /// starts in the stream.
    fn skip(&self, b: &[u8], tier: &Tier, block: u32) -> (r: (u64, u32))
        requires
            tier.skips + SKIP_LEN * block + SKIP_LEN <= b.len(),
        ensures
            r.0 == first_key(b@, *tier, block as int),
            r.1 == block_offset(b@, *tier, block as int),
    {
        let at: usize = tier.skips as usize + block as usize * SKIP_LEN;
        (bytes::u64_at(b, at), bytes::u32_at(b, at + 8))
    }

    /// **The function.** A grid cell, and the compressed index it was baked into;
    /// out comes the zone that stands in for it.
    ///
    /// `b` is the file [`Index::parse`] read and nothing else is consulted.
    /// `None` if `tier` is not one of this index's, or if the stream is corrupt
    /// where it was read.
    pub fn zone(&self, b: &[u8], tier: usize, x: u32, y: u32) -> (r: Option<Zone>)
        requires
            self@.wf(),
            self@.fits(b@),
        ensures
            tier >= self.tiers@.len() ==> r is None,
            tier < self.tiers@.len() ==> match lookup(
                self@,
                b@,
                tier as int,
                hilbert::key(
                    self.level as nat,
                    x as int % hilbert::side(self.level as nat),
                    y as int % hilbert::side(self.level as nat),
                ),
            ) {
                Some((record, end)) => r is Some && r.unwrap().tells(
                    self.level as nat,
                    self.tiers@[tier as int].k,
                    record,
                    end,
                ),
                None => r is None,
            },
    {
        if tier >= self.tiers.len() {
            return None;
        }
        let t: Tier = self.tiers[tier];
        let key: u64 = hilbert::hilbert(self.level, x, y);
        let curve: u64 = hilbert::cells_of(self.level);
        let ghost block = self.block as int;
        let ghost n = block_count(t.zones as int, block);
        proof {
            let s = hilbert::side(self.level as nat);
            hilbert::lemma_side_positive(self.level as nat);
            hilbert::law_curve_stays_on_the_grid(
                self.level as nat,
                x as int % s,
                y as int % s,
                0,
            );
            law_answers_hold_the_key(self@, b@, tier as int, key as int);
            assert(tier_fits(self@.tiers[tier as int], block, b@.len() as int));
            lemma_block_count(t.zones as int, block);
            lemma_search(b@, t, key as int, 0, n);
        }
        let blocks: u32 = t.blocks(self.block);
        let mut lo: u32 = 0;
        let mut hi: u32 = blocks;
        while lo + 1 < hi
            invariant
                b@.len() == b.len(),
                0 <= lo < hi <= blocks,
                t.skips + SKIP_LEN * blocks <= b@.len(),
                search(b@, t, key as int, lo as int, hi as int) == search(
                    b@,
                    t,
                    key as int,
                    0,
                    blocks as int,
                ),
            decreases hi - lo,
        {
            let mid: u32 = lo + (hi - lo) / 2;
            if self.skip(b, &t, mid).0 <= key {
                lo = mid;
            } else {
                hi = mid;
            }
        }
        let (first, offset) = self.skip(b, &t, lo);
        let mut end: u64 = if lo + 1 < blocks { self.skip(b, &t, lo + 1).0 } else { curve };
        proof {
            assert(0 <= lo * block < t.zones);
        }
        let rest: u32 = t.zones - lo * self.block;
        let in_block: u32 = if rest < self.block { rest } else { self.block };
        let ghost goal = scan(
            b@,
            t.stream + offset,
            first as int,
            true,
            in_block as nat,
            key as int,
            None,
            end as int,
        );
        assert(goal is None ==> lookup(self@, b@, tier as int, key as int) is None);
        if offset as u64 >= b.len() as u64 - t.stream {
            return None;
        }
        let mut at: usize = t.stream as usize + offset as usize;
        let mut found: Option<Record> = None;
        let mut start: u64 = first;
        let mut i: u32 = 0;
        while i < in_block
            invariant_except_break
                goal == scan(
                    b@,
                    at as int,
                    start as int,
                    i == 0,
                    (in_block - i) as nat,
                    key as int,
                    found,
                    end as int,
                ),
            invariant
                i <= in_block,
                tier < self.tiers@.len(),
                goal is None ==> lookup(self@, b@, tier as int, key as int) is None,
                key == hilbert::key(
                    self.level as nat,
                    x as int % hilbert::side(self.level as nat),
                    y as int % hilbert::side(self.level as nat),
                ),
            ensures
                goal == match found {
                    Some(record) => Some((record, end as int)),
                    None => None,
                },
            decreases in_block - i,
        {
            let record: Record = match read_record(b, &mut at, start, i == 0) {
                Some(record) => record,
                None => {
                    return None;
                },
            };
            if record.start > key {
                end = record.start;
                break;
            }
            start = record.start;
            found = Some(record);
            i = i + 1;
        }
        let record: Record = match found {
            Some(record) => record,
            None => {
                return None;
            },
        };
        if end > curve {
            return None;
        }
        let extent: Extent = hilbert::extent_of(self.level, record.start, end);
        Some(
            Zone {
                id: record.start,
                end,
                buildings: record.buildings,
                k: t.k,
                extent,
                density: record.density,
                built: record.built,
            },
        )
    }

    /// The zone's cells, as the squares its interval of the curve is made of: its
    /// true shape, and still a function of the zone alone.
    pub fn quads(&self, zone: &Zone) -> (quads: Vec<Quad>)
        requires
            1 <= self.level <= 24,
            zone.end <= hilbert::cells(self.level as nat),
        ensures
            hilbert::quads_view(quads@) == hilbert::squares(
                self.level as nat,
                zone.id as int,
                zone.end as int,
            ),
    {
        hilbert::quads_of(self.level, zone.id, zone.end)
    }
}

/// Why a set of tiers cannot be written.
#[derive(Clone, Copy, Debug, PartialEq, Eq, Structural)]
pub enum EncodeError {
    /// The grid level is not one a key fits in.
    Level(u32),
    /// Zero zones to a block.
    Block,
    /// The tier for this `k` holds no zone.
    Empty(u32),
    /// The tier for this `k` does not start at 0, leaving a gap.
    Gap(u32),
    /// The tier for this `k` has a zone past the end of the curve.
    PastEnd(u32),
    /// The tier for this `k` is not sorted by start.
    Unsorted(u32),
    /// A zone holds too few buildings.
    Short { k: u32, buildings: u32, start: u64 },
    /// The stream of the tier for this `k` exceeds 4 GB.
    TooLong(u32),
}

/// Whether each zone starts past the one before it.
pub open spec fn sorted(zones: Seq<Record>) -> bool {
    forall|i: int, j: int| 0 <= i < j < zones.len() ==> zones[i].start < zones[j].start
}

/// The first zone, from index `from` on, that holds fewer than `k` buildings.
pub open spec fn first_short(k: u32, zones: Seq<Record>, from: int) -> Option<Record>
    decreases zones.len() - from,
{
    if 0 <= from < zones.len() {
        if zones[from].buildings < k {
            Some(zones[from])
        } else {
            first_short(k, zones, from + 1)
        }
    } else {
        None
    }
}

/// What keeps a tier from being a partition of the curve into zones of at least
/// `k` buildings. A single zone may fall short: with fewer than `k` buildings
/// baked there is nothing to merge it into.
pub open spec fn tier_fault(level: nat, k: u32, zones: Seq<Record>) -> Option<EncodeError> {
    if zones.len() == 0 {
        Some(EncodeError::Empty(k))
    } else if zones[0].start != 0 {
        Some(EncodeError::Gap(k))
    } else if zones.last().start >= hilbert::cells(level) {
        Some(EncodeError::PastEnd(k))
    } else if !sorted(zones) {
        Some(EncodeError::Unsorted(k))
    } else if zones.len() == 1 {
        None
    } else {
        match first_short(k, zones, 0) {
            Some(z) => Some(EncodeError::Short { k, buildings: z.buildings, start: z.start }),
            None => None,
        }
    }
}

/// What is wrong with the first bad tier among the first `n`.
pub open spec fn tiers_fault(level: nat, tiers: Seq<(u32, Vec<Record>)>, n: nat) -> Option<
    EncodeError,
>
    decreases n,
{
    if n == 0 {
        None
    } else {
        match tiers_fault(level, tiers, (n - 1) as nat) {
            Some(e) => Some(e),
            None => tier_fault(level, tiers[n - 1].0, tiers[n - 1].1@),
        }
    }
}

/// One zone in the stream: how far past the previous zone it starts, left out for
/// the first of a block, then its building count and its two measures.
pub open spec fn item_bytes(zones: Seq<Record>, block: int, i: int) -> Seq<u8> {
    (if i % block == 0 {
        Seq::<u8>::empty()
    } else {
        bytes::varint_bytes((zones[i].start - zones[i - 1].start) as nat)
    }) + bytes::varint_bytes(zones[i].buildings as nat) + seq![zones[i].density, zones[i].built]
}

/// The stream of a tier's first `n` zones.
pub open spec fn stream_bytes(zones: Seq<Record>, block: int, n: nat) -> Seq<u8>
    decreases n,
{
    if n == 0 {
        Seq::empty()
    } else {
        stream_bytes(zones, block, (n - 1) as nat) + item_bytes(zones, block, n - 1)
    }
}

/// The skip table over a tier's first `n` zones: for each block the start of its
/// first zone and where the block begins in the stream.
pub open spec fn skip_bytes(zones: Seq<Record>, block: int, n: nat) -> Seq<u8>
    decreases n,
{
    if n == 0 {
        Seq::empty()
    } else {
        let before = skip_bytes(zones, block, (n - 1) as nat);
        if (n - 1) % block == 0 {
            before + bytes::u64_bytes(zones[n - 1].start) + bytes::u32_bytes(
                stream_bytes(zones, block, (n - 1) as nat).len() as u32,
            )
        } else {
            before
        }
    }
}

/// Whether every block among the first `n` zones begins within 4 GB of the
/// stream's start.
pub open spec fn offsets_fit(zones: Seq<Record>, block: int, n: nat) -> bool
    decreases n,
{
    if n == 0 {
        true
    } else {
        &&& offsets_fit(zones, block, (n - 1) as nat)
        &&& (n - 1) % block == 0 ==> stream_bytes(zones, block, (n - 1) as nat).len() <= u32::MAX
    }
}

/// The first `n` tiers' skip tables and streams, one after another.
pub open spec fn payload(tiers: Seq<(u32, Vec<Record>)>, block: int, n: nat) -> Seq<u8>
    decreases n,
{
    if n == 0 {
        Seq::empty()
    } else {
        let zones = tiers[n - 1].1@;
        payload(tiers, block, (n - 1) as nat) + skip_bytes(zones, block, zones.len())
            + stream_bytes(zones, block, zones.len())
    }
}

/// Where the `i`-th tier's skip table stands in the file.
pub open spec fn skips_at(tiers: Seq<(u32, Vec<Record>)>, block: int, i: int) -> int {
    HEADER_LEN + TIER_LEN * tiers.len() + payload(tiers, block, i as nat).len()
}

/// Where the `i`-th tier's stream stands in the file.
pub open spec fn stream_at(tiers: Seq<(u32, Vec<Record>)>, block: int, i: int) -> int {
    skips_at(tiers, block, i) + skip_bytes(tiers[i].1@, block, tiers[i].1@.len()).len()
}

/// The first `n` entries of the tier table.
pub open spec fn table_bytes(tiers: Seq<(u32, Vec<Record>)>, block: int, n: nat) -> Seq<u8>
    decreases n,
{
    if n == 0 {
        Seq::empty()
    } else {
        table_bytes(tiers, block, (n - 1) as nat) + bytes::u32_bytes(tiers[n - 1].0)
            + bytes::u32_bytes(tiers[n - 1].1@.len() as u32) + bytes::u64_bytes(
            skips_at(tiers, block, n - 1) as u64,
        ) + bytes::u64_bytes(stream_at(tiers, block, n - 1) as u64)
    }
}

pub open spec fn header_bytes(level: u32, block: u32, count: u32, bounds: Seq<u64>) -> Seq<u8> {
    magic() + bytes::u32_bytes(VERSION) + bytes::u32_bytes(level) + bytes::u32_bytes(block)
        + bytes::u32_bytes(count) + bytes::u64_bytes(bounds[0]) + bytes::u64_bytes(bounds[1])
        + bytes::u64_bytes(bounds[2]) + bytes::u64_bytes(bounds[3])
}

/// A whole index as a file.
pub open spec fn file_bytes(
    level: u32,
    block: u32,
    bounds: Seq<u64>,
    tiers: Seq<(u32, Vec<Record>)>,
) -> Seq<u8> {
    header_bytes(level, block, tiers.len() as u32, bounds) + table_bytes(
        tiers,
        block as int,
        tiers.len(),
    ) + payload(tiers, block as int, tiers.len())
}

/// The first tier whose stream is too long for its skip table, among the first
/// `n`.
pub open spec fn length_fault(tiers: Seq<(u32, Vec<Record>)>, block: int, n: nat) -> Option<
    EncodeError,
>
    decreases n,
{
    if n == 0 {
        None
    } else {
        match length_fault(tiers, block, (n - 1) as nat) {
            Some(e) => Some(e),
            None => if offsets_fit(tiers[n - 1].1@, block, tiers[n - 1].1@.len()) {
                None
            } else {
                Some(EncodeError::TooLong(tiers[n - 1].0))
            },
        }
    }
}

/// What writing an index gives.
pub open spec fn encoded(
    level: u32,
    block: u32,
    bounds: Seq<u64>,
    tiers: Seq<(u32, Vec<Record>)>,
) -> Result<Seq<u8>, EncodeError> {
    if !(1 <= level <= 24) {
        Err(EncodeError::Level(level))
    } else if block == 0 {
        Err(EncodeError::Block)
    } else {
        match tiers_fault(level as nat, tiers, tiers.len()) {
            Some(e) => Err(e),
            None => match length_fault(tiers, block as int, tiers.len()) {
                Some(e) => Err(e),
                None => Ok(file_bytes(level, block, bounds, tiers)),
            },
        }
    }
}

pub(crate) proof fn lemma_first_short(k: u32, zones: Seq<Record>, from: int, to: int)
    requires
        0 <= from <= to <= zones.len(),
        forall|i: int| from <= i < to ==> (#[trigger] zones[i]).buildings >= k,
    ensures
        first_short(k, zones, from) == first_short(k, zones, to),
    decreases to - from,
{
    if from < to {
        assert(zones[from].buildings >= k);
        lemma_first_short(k, zones, from + 1, to);
    }
}

/// Holds a tier to being a partition.
fn check_tier(level: u32, k: u32, zones: &Vec<Record>) -> (r: Option<EncodeError>)
    requires
        level <= 31,
    ensures
        r == tier_fault(level as nat, k, zones@),
{
    let n: usize = zones.len();
    if n == 0 {
        return Some(EncodeError::Empty(k));
    }
    if zones[0].start != 0 {
        return Some(EncodeError::Gap(k));
    }
    if zones[n - 1].start >= hilbert::cells_of(level) {
        return Some(EncodeError::PastEnd(k));
    }
    let mut i: usize = 1;
    while i < n
        invariant
            n == zones@.len(),
            1 <= i <= n,
            zones@[0].start == 0,
            zones@.last().start < hilbert::cells(level as nat),
            sorted(zones@.subrange(0, i as int)),
        decreases n - i,
    {
        if zones[i].start <= zones[i - 1].start {
            assert(!sorted(zones@));
            return Some(EncodeError::Unsorted(k));
        }
        proof {
            let before = zones@.subrange(0, i as int);
            let upto = zones@.subrange(0, i + 1);
            assert forall|p: int, q: int| 0 <= p < q < upto.len() implies upto[p].start
                < upto[q].start by {
                assert(upto[p] == before[p]);
                if q < i {
                    assert(upto[q] == before[q]);
                } else if p < i - 1 {
                    assert(before[p].start < before[i - 1].start);
                }
            }
        }
        i = i + 1;
    }
    assert(zones@.subrange(0, n as int) =~= zones@);
    if n == 1 {
        return None;
    }
    let mut i: usize = 0;
    while i < n
        invariant
            n == zones@.len(),
            n > 1,
            i <= n,
            zones@[0].start == 0,
            zones@.last().start < hilbert::cells(level as nat),
            sorted(zones@),
            forall|j: int| 0 <= j < i ==> (#[trigger] zones@[j]).buildings >= k,
        decreases n - i,
    {
        if zones[i].buildings < k {
            proof {
                lemma_first_short(k, zones@, 0, i as int);
            }
            return Some(
                EncodeError::Short { k, buildings: zones[i].buildings, start: zones[i].start },
            );
        }
        i = i + 1;
    }
    proof {
        lemma_first_short(k, zones@, 0, n as int);
    }
    None
}

proof fn lemma_offsets_fail(zones: Seq<Record>, block: int, m: nat, n: nat)
    requires
        m <= n,
        !offsets_fit(zones, block, m),
    ensures
        !offsets_fit(zones, block, n),
    decreases n,
{
    if m < n {
        lemma_offsets_fail(zones, block, m, (n - 1) as nat);
    }
}

/// A tier's skip table and its stream.
fn tier_bytes(block: u32, zones: &Vec<Record>) -> (r: Option<(Vec<u8>, Vec<u8>)>)
    requires
        block > 0,
        sorted(zones@),
    ensures
        match r {
            Some((skip, stream)) => {
                &&& offsets_fit(zones@, block as int, zones@.len())
                &&& skip@ == skip_bytes(zones@, block as int, zones@.len())
                &&& stream@ == stream_bytes(zones@, block as int, zones@.len())
            },
            None => !offsets_fit(zones@, block as int, zones@.len()),
        },
{
    let mut skip: Vec<u8> = Vec::new();
    let mut stream: Vec<u8> = Vec::new();
    let mut i: usize = 0;
    while i < zones.len()
        invariant
            block > 0,
            sorted(zones@),
            i <= zones@.len(),
            offsets_fit(zones@, block as int, i as nat),
            skip@ == skip_bytes(zones@, block as int, i as nat),
            stream@ == stream_bytes(zones@, block as int, i as nat),
        decreases zones@.len() - i,
    {
        let ghost before = stream@;
        let z: Record = zones[i];
        if i % block as usize == 0 {
            if stream.len() as u64 > u32::MAX as u64 {
                proof {
                    assert(!offsets_fit(zones@, block as int, (i + 1) as nat));
                    lemma_offsets_fail(zones@, block as int, (i + 1) as nat, zones@.len());
                }
                return None;
            }
            bytes::put_u64(&mut skip, z.start);
            bytes::put_u32(&mut skip, stream.len() as u32);
        } else {
            assert(i > 0) by {
                vstd::arithmetic::div_mod::lemma_small_mod(0, block as nat);
            }
            bytes::put_varint(&mut stream, z.start - zones[i - 1].start);
        }
        bytes::put_varint(&mut stream, z.buildings as u64);
        stream.push(z.density);
        stream.push(z.built);
        assert(stream@ =~= before + item_bytes(zones@, block as int, i as int));
        i = i + 1;
    }
    Some((skip, stream))
}

proof fn lemma_tiers_fault(level: nat, tiers: Seq<(u32, Vec<Record>)>, m: nat, n: nat)
    requires
        m <= n,
        tiers_fault(level, tiers, m) is Some,
    ensures
        tiers_fault(level, tiers, n) == tiers_fault(level, tiers, m),
    decreases n,
{
    if m < n {
        lemma_tiers_fault(level, tiers, m, (n - 1) as nat);
    }
}

proof fn lemma_tiers_sound(level: nat, tiers: Seq<(u32, Vec<Record>)>, n: nat, i: int)
    requires
        0 <= i < n,
        tiers_fault(level, tiers, n) is None,
    ensures
        tier_fault(level, tiers[i].0, tiers[i].1@) is None,
    decreases n,
{
    if i < n - 1 {
        lemma_tiers_sound(level, tiers, (n - 1) as nat, i);
    }
}

proof fn lemma_length_fault(tiers: Seq<(u32, Vec<Record>)>, block: int, m: nat, n: nat)
    requires
        m <= n,
        length_fault(tiers, block, m) is Some,
    ensures
        length_fault(tiers, block, n) == length_fault(tiers, block, m),
    decreases n,
{
    if m < n {
        lemma_length_fault(tiers, block, m, (n - 1) as nat);
    }
}

proof fn lemma_table_len(tiers: Seq<(u32, Vec<Record>)>, block: int, n: nat)
    ensures
        table_bytes(tiers, block, n).len() == TIER_LEN * n,
    decreases n,
{
    if n > 0 {
        lemma_table_len(tiers, block, (n - 1) as nat);
    }
}

/// Holds every tier to being a partition, in order.
fn check_tiers(level: u32, tiers: &Vec<(u32, Vec<Record>)>) -> (r: Option<EncodeError>)
    requires
        level <= 31,
    ensures
        r == tiers_fault(level as nat, tiers@, tiers@.len()),
{
    let mut i: usize = 0;
    while i < tiers.len()
        invariant
            level <= 31,
            i <= tiers@.len(),
            tiers_fault(level as nat, tiers@, i as nat) is None,
        decreases tiers@.len() - i,
    {
        let fault: Option<EncodeError> = check_tier(level, tiers[i].0, &tiers[i].1);
        if fault.is_some() {
            proof {
                lemma_tiers_fault(level as nat, tiers@, (i + 1) as nat, tiers@.len());
            }
            return fault;
        }
        i = i + 1;
    }
    None
}

/// The header of an index.
fn put_header(level: u32, block: u32, count: u32, bounds: &[u64; 4]) -> (out: Vec<u8>)
    ensures
        out@ == header_bytes(level, block, count, bounds@),
        out@.len() == HEADER_LEN,
{
    let mut out: Vec<u8> = vec![65, 78, 79, 78, 90, 79, 78, 69];
    assert(out@ =~= magic());
    bytes::put_u32(&mut out, VERSION);
    bytes::put_u32(&mut out, level);
    bytes::put_u32(&mut out, block);
    bytes::put_u32(&mut out, count);
    bytes::put_u64(&mut out, bounds[0]);
    bytes::put_u64(&mut out, bounds[1]);
    bytes::put_u64(&mut out, bounds[2]);
    bytes::put_u64(&mut out, bounds[3]);
    out
}

/// Appends one tier's skip table and stream to a file, and its entry to the tier table.
fn put_tier(out: &mut Vec<u8>, table: &mut Vec<u8>, k: u32, zones: u32, skip: Vec<u8>, stream: Vec<u8>)
    ensures
        final(out)@ == old(out)@ + skip@ + stream@,
        final(table)@ == old(table)@ + bytes::u32_bytes(k) + bytes::u32_bytes(zones) + bytes::u64_bytes(
            old(out)@.len() as u64,
        ) + bytes::u64_bytes((old(out)@.len() + skip@.len()) as u64),
{
    let mut skip = skip;
    let mut stream = stream;
    bytes::put_u32(table, k);
    bytes::put_u32(table, zones);
    bytes::put_u64(table, out.len() as u64);
    out.append(&mut skip);
    bytes::put_u64(table, out.len() as u64);
    out.append(&mut stream);
}

/// A file that holds the first `i` tiers holds one more with the skip table and the
/// stream of the next one behind it, and its entry in the tier table says where.
proof fn lemma_next_tier(tiers: Seq<(u32, Vec<Record>)>, block: int, i: int, base: Seq<u8>)
    requires
        0 <= i < tiers.len(),
        base.len() == HEADER_LEN + TIER_LEN * tiers.len(),
    ensures
        base + payload(tiers, block, (i + 1) as nat) == base + payload(tiers, block, i as nat) + skip_bytes(
            tiers[i].1@,
            block,
            tiers[i].1@.len(),
        ) + stream_bytes(tiers[i].1@, block, tiers[i].1@.len()),
        table_bytes(tiers, block, (i + 1) as nat) == table_bytes(tiers, block, i as nat) + bytes::u32_bytes(
            tiers[i].0,
        ) + bytes::u32_bytes(tiers[i].1@.len() as u32) + bytes::u64_bytes(
            (base + payload(tiers, block, i as nat)).len() as u64,
        ) + bytes::u64_bytes(
            ((base + payload(tiers, block, i as nat)).len() + skip_bytes(
                tiers[i].1@,
                block,
                tiers[i].1@.len(),
            ).len()) as u64,
        ),
{
    let zones = tiers[i].1@;
    let before = payload(tiers, block, i as nat);
    let tables = skip_bytes(zones, block, zones.len());
    let streams = stream_bytes(zones, block, zones.len());
    assert(payload(tiers, block, (i + 1) as nat) == before + tables + streams);
    assert(base + (before + tables + streams) =~= base + before + tables + streams);
    assert((base + before).len() == skips_at(tiers, block, i));
}

/// Appends every tier's skip table and stream to a file that ends where its tier
/// table does, and returns that table.
fn put_tiers(out: &mut Vec<u8>, level: u32, block: u32, tiers: &Vec<(u32, Vec<Record>)>) -> (r:
    Result<Vec<u8>, EncodeError>)
    requires
        block > 0,
        forall|i: int| 0 <= i < tiers@.len() ==> (#[trigger] tiers@[i]).1@.len() <= u32::MAX,
        tiers_fault(level as nat, tiers@, tiers@.len()) is None,
        old(out)@.len() == HEADER_LEN + TIER_LEN * tiers@.len(),
    ensures
        match length_fault(tiers@, block as int, tiers@.len()) {
            Some(e) => r == Err::<Vec<u8>, EncodeError>(e),
            None => {
                &&& r is Ok
                &&& r.unwrap()@ == table_bytes(tiers@, block as int, tiers@.len())
                &&& final(out)@ == old(out)@ + payload(tiers@, block as int, tiers@.len())
            },
        },
{
    let ghost base = out@;
    let mut table: Vec<u8> = Vec::new();
    let mut i: usize = 0;
    assert(out@ =~= base + payload(tiers@, block as int, 0));
    while i < tiers.len()
        invariant
            block > 0,
            i <= tiers@.len(),
            forall|i: int| 0 <= i < tiers@.len() ==> (#[trigger] tiers@[i]).1@.len() <= u32::MAX,
            tiers_fault(level as nat, tiers@, tiers@.len()) is None,
            length_fault(tiers@, block as int, i as nat) is None,
            base.len() == HEADER_LEN + TIER_LEN * tiers@.len(),
            out@ == base + payload(tiers@, block as int, i as nat),
            table@ == table_bytes(tiers@, block as int, i as nat),
        decreases tiers@.len() - i,
    {
        let k: u32 = tiers[i].0;
        let zones: &Vec<Record> = &tiers[i].1;
        proof {
            lemma_tiers_sound(level as nat, tiers@, tiers@.len(), i as int);
            assert(tiers@[i as int].1@.len() <= u32::MAX);
        }
        match tier_bytes(block, zones) {
            None => {
                proof {
                    lemma_length_fault(tiers@, block as int, (i + 1) as nat, tiers@.len());
                }
                return Err(EncodeError::TooLong(k));
            },
            Some((skip, stream)) => {
                proof {
                    lemma_next_tier(tiers@, block as int, i as int, base);
                }
                put_tier(out, &mut table, k, zones.len() as u32, skip, stream);
            },
        }
        i = i + 1;
    }
    Ok(table)
}

/// Appends room for a tier table of `count` entries.
fn put_room(out: &mut Vec<u8>, count: usize)
    ensures
        final(out)@.len() == old(out)@.len() + TIER_LEN * count,
        final(out)@.subrange(0, old(out)@.len() as int) == old(out)@,
{
    let ghost base = out@;
    let mut i: usize = 0;
    assert(out@.subrange(0, base.len() as int) =~= base);
    while i < count
        invariant
            i <= count,
            out@.len() == base.len() + TIER_LEN * i,
            out@.subrange(0, base.len() as int) == base,
        decreases count - i,
    {
        let ghost before = out@;
        out.extend_from_slice(
            &[0, 0, 0, 0, 0, 0, 0, 0, 0, 0, 0, 0, 0, 0, 0, 0, 0, 0, 0, 0, 0, 0, 0, 0],
        );
        assert(out@.subrange(0, base.len() as int) =~= before.subrange(0, base.len() as int));
        i = i + 1;
    }
}

/// Writes `part` over the bytes of `out` that start at `at`.
fn overwrite(out: &mut Vec<u8>, at: usize, part: &Vec<u8>)
    requires
        at + part@.len() <= old(out)@.len(),
    ensures
        final(out)@ == old(out)@.subrange(0, at as int) + part@ + old(out)@.subrange(
            at + part@.len(),
            old(out)@.len() as int,
        ),
{
    let ghost base = out@;
    let mut i: usize = 0;
    while i < part.len()
        invariant
            i <= part@.len(),
            at + part@.len() <= base.len(),
            out@.len() == base.len(),
            forall|j: int|
                0 <= j < base.len() ==> #[trigger] out@[j] == if at <= j < at + i {
                    part@[j - at]
                } else {
                    base[j]
                },
        decreases part@.len() - i,
    {
        assert(at + i < out.len());
        out.set(at + i, part[i]);
        i = i + 1;
    }
    assert(out@ =~= base.subrange(0, at as int) + part@ + base.subrange(
        at + part@.len(),
        base.len() as int,
    ));
}

/// Serialise a whole index. `tiers` is `(k, zones)`, each zone list sorted by
/// `start` and each a complete partition -- which is checked here, because a
/// partition with a hole in it is a privacy bug and this is the last place it can
/// be caught cheaply. `bounds` are the bits of four floating-point degrees.
pub fn encode(level: u32, block: u32, bounds: [u64; 4], tiers: &Vec<(u32, Vec<Record>)>) -> (r:
    Result<Vec<u8>, EncodeError>)
    requires
        tiers@.len() <= u32::MAX,
        forall|i: int| 0 <= i < tiers@.len() ==> (#[trigger] tiers@[i]).1@.len() <= u32::MAX,
    ensures
        match encoded(level, block, bounds@, tiers@) {
            Ok(file) => r is Ok && r.unwrap()@ == file,
            Err(e) => r == Err::<Vec<u8>, EncodeError>(e),
        },
{
    if level < 1 || level > 24 {
        return Err(EncodeError::Level(level));
    }
    if block == 0 {
        return Err(EncodeError::Block);
    }
    match check_tiers(level, tiers) {
        Some(e) => {
            return Err(e);
        },
        None => {},
    }
    let mut out: Vec<u8> = put_header(level, block, tiers.len() as u32, &bounds);
    let ghost header = out@;
    put_room(&mut out, tiers.len());
    let ghost base = out@;
    match put_tiers(&mut out, level, block, tiers) {
        Err(e) => Err(e),
        Ok(table) => {
            let ghost body = payload(tiers@, block as int, tiers@.len());
            proof {
                lemma_table_len(tiers@, block as int, tiers@.len());
                assert(out@.subrange(0, HEADER_LEN as int) =~= base.subrange(0, HEADER_LEN as int));
                assert(out@.subrange(base.len() as int, out@.len() as int) =~= body);
            }
            overwrite(&mut out, HEADER_LEN, &table);
            Ok(out)
        },
    }
}

// What an encoded index promises.

/// Whether a file was written from these tiers, in a build where the counts fit
/// their fields.
pub open spec fn written(
    level: u32,
    block: u32,
    bounds: Seq<u64>,
    tiers: Seq<(u32, Vec<Record>)>,
    file: Seq<u8>,
) -> bool {
    &&& encoded(level, block, bounds, tiers) == Ok::<Seq<u8>, EncodeError>(file)
    &&& 1 <= tiers.len() <= u32::MAX
    &&& forall|i: int| 0 <= i < tiers.len() ==> (#[trigger] tiers[i]).1@.len() <= u32::MAX
    &&& bounds.len() == 4
    &&& file.len() <= u64::MAX
}

/// The tier table entry for the `i`-th of some tiers.
pub open spec fn placed_tier(tiers: Seq<(u32, Vec<Record>)>, block: int, i: int) -> Tier {
    Tier {
        k: tiers[i].0,
        zones: tiers[i].1@.len() as u32,
        skips: skips_at(tiers, block, i) as u64,
        stream: stream_at(tiers, block, i) as u64,
    }
}

/// The layout of the file written from these tiers.
pub open spec fn placed(
    level: u32,
    block: u32,
    bounds: Seq<u64>,
    tiers: Seq<(u32, Vec<Record>)>,
) -> Layout {
    Layout {
        level,
        block,
        tiers: Seq::new(tiers.len(), |i: int| placed_tier(tiers, block as int, i)),
        bounds,
    }
}

proof fn lemma_next_block(n: int, block: int)
    requires
        n >= 0,
        block > 0,
    ensures
        block_count(n + 1, block) == block_count(n, block) + if n % block == 0 {
            1int
        } else {
            0
        },
        n % block == 0 ==> block_count(n, block) * block == n,
        block_count(0, block) == 0,
{
    let q = n / block;
    let r = n % block;
    vstd::arithmetic::div_mod::lemma_fundamental_div_mod(n, block);
    vstd::arithmetic::div_mod::lemma_mod_bound(n, block);
    assert(block * q == q * block) by (nonlinear_arith);
    assert((q + 1) * block == q * block + block) by (nonlinear_arith);
    vstd::arithmetic::div_mod::lemma_small_mod(0, block as nat);
    vstd::arithmetic::div_mod::lemma_div_basics_1(block);
    if r + 1 < block {
        vstd::arithmetic::div_mod::lemma_fundamental_div_mod_converse(n + 1, block, q, r + 1);
    } else {
        assert(block * (q + 1) == (q + 1) * block) by (nonlinear_arith);
        vstd::arithmetic::div_mod::lemma_fundamental_div_mod_converse(n + 1, block, q + 1, 0);
    }
}

proof fn lemma_skip_len(zones: Seq<Record>, block: int, n: nat)
    requires
        block > 0,
    ensures
        skip_bytes(zones, block, n).len() == SKIP_LEN * block_count(n as int, block),
    decreases n,
{
    lemma_next_block(0, block);
    if n > 0 {
        lemma_next_block(n - 1, block);
        lemma_skip_len(zones, block, (n - 1) as nat);
    }
}

/// One entry of a skip table.
pub open spec fn skip_entry(zones: Seq<Record>, block: int, i: int) -> Seq<u8> {
    bytes::u64_bytes(zones[i].start) + bytes::u32_bytes(
        stream_bytes(zones, block, i as nat).len() as u32,
    )
}

proof fn lemma_skip_entry(zones: Seq<Record>, block: int, n: nat, j: int)
    requires
        block > 0,
        0 <= j,
        j * block < n,
    ensures
        SKIP_LEN * j + SKIP_LEN <= skip_bytes(zones, block, n).len(),
        skip_bytes(zones, block, n).subrange(SKIP_LEN * j, SKIP_LEN * j + SKIP_LEN) == skip_entry(
            zones,
            block,
            j * block,
        ),
    decreases n,
{
    let before = skip_bytes(zones, block, (n - 1) as nat);
    let whole = skip_bytes(zones, block, n);
    assert(0 <= j * block) by (nonlinear_arith)
        requires
            0 <= j,
            block > 0,
    ;
    lemma_next_block(n - 1, block);
    lemma_skip_len(zones, block, (n - 1) as nat);
    if j * block < n - 1 {
        lemma_skip_entry(zones, block, (n - 1) as nat, j);
        assert(whole.subrange(SKIP_LEN * j, SKIP_LEN * j + SKIP_LEN) =~= before.subrange(
            SKIP_LEN * j,
            SKIP_LEN * j + SKIP_LEN,
        ));
    } else {
        let q = block_count(n - 1, block);
        assert((n - 1) % block == 0) by {
            vstd::arithmetic::div_mod::lemma_mod_multiples_basic(j, block);
        }
        assert(j == q) by (nonlinear_arith)
            requires
                j * block == q * block,
                block > 0,
        ;
        assert(whole.subrange(SKIP_LEN * j, SKIP_LEN * j + SKIP_LEN) =~= skip_entry(
            zones,
            block,
            n - 1,
        ));
    }
}

proof fn lemma_offsets(zones: Seq<Record>, block: int, n: nat, i: int)
    requires
        offsets_fit(zones, block, n),
        0 <= i < n,
        i % block == 0,
    ensures
        stream_bytes(zones, block, i as nat).len() <= u32::MAX,
    decreases n,
{
    if i < n - 1 {
        lemma_offsets(zones, block, (n - 1) as nat, i);
    }
}

/// The bytes of the `i`-th zone in a stream.
proof fn lemma_stream_item(zones: Seq<Record>, block: int, n: nat, i: int)
    requires
        0 <= i < n,
    ensures
        stream_bytes(zones, block, i as nat).len() + item_bytes(zones, block, i).len()
            == stream_bytes(zones, block, (i + 1) as nat).len(),
        stream_bytes(zones, block, (i + 1) as nat).len() <= stream_bytes(zones, block, n).len(),
        stream_bytes(zones, block, n).subrange(
            stream_bytes(zones, block, i as nat).len() as int,
            stream_bytes(zones, block, (i + 1) as nat).len() as int,
        ) == item_bytes(zones, block, i),
    decreases n,
{
    let whole = stream_bytes(zones, block, n);
    let before = stream_bytes(zones, block, (n - 1) as nat);
    let a = stream_bytes(zones, block, i as nat).len() as int;
    let b = stream_bytes(zones, block, (i + 1) as nat).len() as int;
    if i < n - 1 {
        lemma_stream_item(zones, block, (n - 1) as nat, i);
        assert(whole.subrange(a, b) =~= before.subrange(a, b));
    } else {
        assert(whole.subrange(a, b) =~= item_bytes(zones, block, i));
    }
}

proof fn lemma_payload(tiers: Seq<(u32, Vec<Record>)>, block: int, n: nat, i: int)
    requires
        0 <= i < n,
    ensures
        ({
            let zones = tiers[i].1@;
            let skip = skip_bytes(zones, block, zones.len());
            let stream = stream_bytes(zones, block, zones.len());
            let at = payload(tiers, block, i as nat).len() as int;
            let whole = payload(tiers, block, n);
            &&& at + skip.len() + stream.len() <= whole.len()
            &&& whole.subrange(at, at + skip.len()) == skip
            &&& whole.subrange(at + skip.len(), at + skip.len() + stream.len()) == stream
        }),
    decreases n,
{
    let zones = tiers[i].1@;
    let skip = skip_bytes(zones, block, zones.len());
    let stream = stream_bytes(zones, block, zones.len());
    let at = payload(tiers, block, i as nat).len() as int;
    let mid = at + skip.len();
    let end = mid + stream.len();
    let whole = payload(tiers, block, n);
    if i < n - 1 {
        lemma_payload(tiers, block, (n - 1) as nat, i);
        let before = payload(tiers, block, (n - 1) as nat);
        assert(whole.subrange(at, mid) =~= before.subrange(at, mid));
        assert(whole.subrange(mid, end) =~= before.subrange(mid, end));
    } else {
        assert(whole.subrange(at, mid) =~= skip);
        assert(whole.subrange(mid, end) =~= stream);
    }
}

/// One entry of the tier table.
pub open spec fn entry_bytes(tiers: Seq<(u32, Vec<Record>)>, block: int, i: int) -> Seq<u8> {
    bytes::u32_bytes(tiers[i].0) + bytes::u32_bytes(tiers[i].1@.len() as u32) + bytes::u64_bytes(
        skips_at(tiers, block, i) as u64,
    ) + bytes::u64_bytes(stream_at(tiers, block, i) as u64)
}

proof fn lemma_table_entry(tiers: Seq<(u32, Vec<Record>)>, block: int, n: nat, i: int)
    requires
        0 <= i < n,
    ensures
        TIER_LEN * i + TIER_LEN <= table_bytes(tiers, block, n).len(),
        table_bytes(tiers, block, n).subrange(TIER_LEN * i, TIER_LEN * i + TIER_LEN) == entry_bytes(
            tiers,
            block,
            i,
        ),
    decreases n,
{
    lemma_table_len(tiers, block, n);
    lemma_table_len(tiers, block, (n - 1) as nat);
    let whole = table_bytes(tiers, block, n);
    let before = table_bytes(tiers, block, (n - 1) as nat);
    if i < n - 1 {
        lemma_table_entry(tiers, block, (n - 1) as nat, i);
        assert(whole.subrange(TIER_LEN * i, TIER_LEN * i + TIER_LEN) =~= before.subrange(
            TIER_LEN * i,
            TIER_LEN * i + TIER_LEN,
        ));
    } else {
        assert(whole.subrange(TIER_LEN * i, TIER_LEN * i + TIER_LEN) =~= entry_bytes(
            tiers,
            block,
            i,
        ));
    }
}

proof fn lemma_second_part(a: Seq<u8>, b: Seq<u8>, c: Seq<u8>, from: int, to: int)
    requires
        0 <= from <= to <= b.len(),
    ensures
        (a + b + c).subrange(a.len() + from, a.len() + to) == b.subrange(from, to),
{
    assert((a + b + c).subrange(a.len() + from, a.len() + to) =~= b.subrange(from, to));
}

proof fn lemma_third_part(a: Seq<u8>, b: Seq<u8>, c: Seq<u8>, from: int, to: int)
    requires
        0 <= from <= to <= c.len(),
    ensures
        (a + b + c).subrange(a.len() + b.len() + from, a.len() + b.len() + to) == c.subrange(
            from,
            to,
        ),
{
    assert((a + b + c).subrange(a.len() + b.len() + from, a.len() + b.len() + to) =~= c.subrange(
        from,
        to,
    ));
}

proof fn lemma_header_len(level: u32, block: u32, count: u32, bounds: Seq<u64>)
    ensures
        header_bytes(level, block, count, bounds).len() == HEADER_LEN,
{
}

/// Where the parts of a written file stand.
proof fn lemma_file_parts(
    level: u32,
    block: u32,
    bounds: Seq<u64>,
    tiers: Seq<(u32, Vec<Record>)>,
    i: int,
)
    requires
        0 <= i < tiers.len(),
    ensures
        ({
            let file = file_bytes(level, block, bounds, tiers);
            let zones = tiers[i].1@;
            let skip = skip_bytes(zones, block as int, zones.len());
            let stream = stream_bytes(zones, block as int, zones.len());
            let entry = HEADER_LEN + TIER_LEN * i;
            let at = skips_at(tiers, block as int, i);
            let mid = stream_at(tiers, block as int, i);
            &&& entry + TIER_LEN <= file.len()
            &&& file.subrange(entry, entry + TIER_LEN) == entry_bytes(tiers, block as int, i)
            &&& mid == at + skip.len()
            &&& mid + stream.len() <= file.len()
            &&& file.subrange(at, mid) == skip
            &&& file.subrange(mid, mid + stream.len()) == stream
        }),
{
    let b = block as int;
    let zones = tiers[i].1@;
    let skip = skip_bytes(zones, b, zones.len());
    let stream = stream_bytes(zones, b, zones.len());
    let header = header_bytes(level, block, tiers.len() as u32, bounds);
    let table = table_bytes(tiers, b, tiers.len());
    let body = payload(tiers, b, tiers.len());
    let from = payload(tiers, b, i as nat).len() as int;
    lemma_header_len(level, block, tiers.len() as u32, bounds);
    lemma_table_len(tiers, b, tiers.len());
    lemma_table_entry(tiers, b, tiers.len(), i);
    lemma_payload(tiers, b, tiers.len(), i);
    lemma_second_part(header, table, body, TIER_LEN * i, TIER_LEN * i + TIER_LEN);
    lemma_third_part(header, table, body, from, from + skip.len());
    lemma_third_part(
        header,
        table,
        body,
        from + skip.len(),
        from + skip.len() + stream.len(),
    );
}

/// A 32-bit field inside a known part of a file.
proof fn lemma_u32_field(file: Seq<u8>, from: int, part: Seq<u8>, at: int, v: u32)
    requires
        0 <= from,
        from + part.len() <= file.len(),
        file.subrange(from, from + part.len()) == part,
        0 <= at,
        at + 4 <= part.len(),
        part.subrange(at, at + 4) == bytes::u32_bytes(v),
    ensures
        bytes::le_u32(file, from + at) == v,
{
    assert(file.subrange(from + at, from + at + 4) =~= part.subrange(at, at + 4));
    bytes::law_u32_survives(file, from + at, v);
}

/// A 64-bit field inside a known part of a file.
proof fn lemma_u64_field(file: Seq<u8>, from: int, part: Seq<u8>, at: int, v: u64)
    requires
        0 <= from,
        from + part.len() <= file.len(),
        file.subrange(from, from + part.len()) == part,
        0 <= at,
        at + 8 <= part.len(),
        part.subrange(at, at + 8) == bytes::u64_bytes(v),
    ensures
        bytes::le_u64(file, from + at) == v,
{
    assert(file.subrange(from + at, from + at + 8) =~= part.subrange(at, at + 8));
    bytes::law_u64_survives(file, from + at, v);
}

proof fn lemma_entry_fields(a: Seq<u8>, b: Seq<u8>, c: Seq<u8>, d: Seq<u8>)
    requires
        a.len() == 4,
        b.len() == 4,
        c.len() == 8,
        d.len() == 8,
    ensures
        (a + b + c + d).len() == 24,
        (a + b + c + d).subrange(0, 4) == a,
        (a + b + c + d).subrange(4, 8) == b,
        (a + b + c + d).subrange(8, 16) == c,
        (a + b + c + d).subrange(16, 24) == d,
{
    let s = a + b + c + d;
    assert(s.subrange(0, 4) =~= a);
    assert(s.subrange(4, 8) =~= b);
    assert(s.subrange(8, 16) =~= c);
    assert(s.subrange(16, 24) =~= d);
}

/// A tier table entry reads back.
proof fn lemma_entry_reads(file: Seq<u8>, i: int, t: Tier)
    requires
        0 <= i,
        HEADER_LEN + TIER_LEN * i + TIER_LEN <= file.len(),
        file.subrange(HEADER_LEN + TIER_LEN * i, HEADER_LEN + TIER_LEN * i + TIER_LEN)
            == bytes::u32_bytes(t.k) + bytes::u32_bytes(t.zones) + bytes::u64_bytes(t.skips)
            + bytes::u64_bytes(t.stream),
    ensures
        tier_at(file, i) == t,
{
    let entry = HEADER_LEN + TIER_LEN * i;
    let part = file.subrange(entry, entry + TIER_LEN);
    lemma_entry_fields(
        bytes::u32_bytes(t.k),
        bytes::u32_bytes(t.zones),
        bytes::u64_bytes(t.skips),
        bytes::u64_bytes(t.stream),
    );
    lemma_u32_field(file, entry, part, 0, t.k);
    lemma_u32_field(file, entry, part, 4, t.zones);
    lemma_u64_field(file, entry, part, 8, t.skips);
    lemma_u64_field(file, entry, part, 16, t.stream);
}

proof fn lemma_tier_reads(
    level: u32,
    block: u32,
    bounds: Seq<u64>,
    tiers: Seq<(u32, Vec<Record>)>,
    file: Seq<u8>,
    i: int,
)
    requires
        written(level, block, bounds, tiers, file),
        0 <= i < tiers.len(),
    ensures
        tier_at(file, i) == placed_tier(tiers, block as int, i),
        placed_tier(tiers, block as int, i).skips == skips_at(tiers, block as int, i),
        placed_tier(tiers, block as int, i).stream == stream_at(tiers, block as int, i),
        placed_tier(tiers, block as int, i).zones == tiers[i].1@.len(),
        tier_at(file, i).zones > 0,
        tier_fits(tier_at(file, i), block as int, file.len() as int),
{
    let b = block as int;
    lemma_file_parts(level, block, bounds, tiers, i);
    lemma_tiers_sound(level as nat, tiers, tiers.len(), i);
    assert(tiers[i].1@.len() <= u32::MAX);
    lemma_skip_len(tiers[i].1@, b, tiers[i].1@.len());
    lemma_entry_reads(file, i, placed_tier(tiers, b, i));
}

proof fn lemma_tiers_read(
    level: u32,
    block: u32,
    bounds: Seq<u64>,
    tiers: Seq<(u32, Vec<Record>)>,
    file: Seq<u8>,
    n: nat,
)
    requires
        written(level, block, bounds, tiers, file),
        n <= tiers.len(),
    ensures
        tiers_upto(file, block as int, n) == Ok::<Seq<Tier>, IndexError>(
            Seq::new(n, |i: int| placed_tier(tiers, block as int, i)),
        ),
    decreases n,
{
    if n == 0 {
        assert(Seq::new(0, |i: int| placed_tier(tiers, block as int, i)) =~= Seq::<Tier>::empty());
    } else {
        lemma_tiers_read(level, block, bounds, tiers, file, (n - 1) as nat);
        lemma_tier_reads(level, block, bounds, tiers, file, n - 1);
        assert(Seq::new(n, |i: int| placed_tier(tiers, block as int, i)) =~= Seq::new(
            (n - 1) as nat,
            |i: int| placed_tier(tiers, block as int, i),
        ).push(tier_at(file, n - 1)));
    }
}

/// The fields of a header, wherever it was put together from.
proof fn lemma_header_reads(
    level: u32,
    block: u32,
    count: u32,
    bounds: Seq<u64>,
    file: Seq<u8>,
)
    requires
        file.len() >= HEADER_LEN,
        file.subrange(0, HEADER_LEN as int) == header_bytes(level, block, count, bounds),
    ensures
        file.subrange(0, 8) == magic(),
        bytes::le_u32(file, 8) == VERSION,
        bytes::le_u32(file, 12) == level,
        bytes::le_u32(file, 16) == block,
        bytes::le_u32(file, 20) == count,
        bytes::le_u64(file, 24) == bounds[0],
        bytes::le_u64(file, 32) == bounds[1],
        bytes::le_u64(file, 40) == bounds[2],
        bytes::le_u64(file, 48) == bounds[3],
{
    let numbers = bytes::u32_bytes(VERSION) + bytes::u32_bytes(level) + bytes::u32_bytes(block)
        + bytes::u32_bytes(count);
    let edges = bytes::u64_bytes(bounds[0]) + bytes::u64_bytes(bounds[1]) + bytes::u64_bytes(
        bounds[2],
    ) + bytes::u64_bytes(bounds[3]);
    let header = header_bytes(level, block, count, bounds);
    assert(header =~= magic() + numbers + edges);
    assert(file.subrange(0, 8) =~= magic()) by {
        assert(file.subrange(0, 8) =~= header.subrange(0, 8));
    }
    assert(file.subrange(8, 24) =~= numbers) by {
        assert(file.subrange(8, 24) =~= header.subrange(8, 24));
    }
    assert(file.subrange(24, 56) =~= edges) by {
        assert(file.subrange(24, 56) =~= header.subrange(24, 56));
    }
    assert(numbers.subrange(0, 4) =~= bytes::u32_bytes(VERSION));
    assert(numbers.subrange(4, 8) =~= bytes::u32_bytes(level));
    assert(numbers.subrange(8, 12) =~= bytes::u32_bytes(block));
    assert(numbers.subrange(12, 16) =~= bytes::u32_bytes(count));
    lemma_u32_field(file, 8, numbers, 0, VERSION);
    lemma_u32_field(file, 8, numbers, 4, level);
    lemma_u32_field(file, 8, numbers, 8, block);
    lemma_u32_field(file, 8, numbers, 12, count);
    lemma_edges_read(bounds, edges, file);
}

proof fn lemma_edges_read(bounds: Seq<u64>, edges: Seq<u8>, file: Seq<u8>)
    requires
        file.len() >= HEADER_LEN,
        edges == bytes::u64_bytes(bounds[0]) + bytes::u64_bytes(bounds[1]) + bytes::u64_bytes(
            bounds[2],
        ) + bytes::u64_bytes(bounds[3]),
        file.subrange(24, 56) == edges,
    ensures
        bytes::le_u64(file, 24) == bounds[0],
        bytes::le_u64(file, 32) == bounds[1],
        bytes::le_u64(file, 40) == bounds[2],
        bytes::le_u64(file, 48) == bounds[3],
{
    assert(edges.subrange(0, 8) =~= bytes::u64_bytes(bounds[0]));
    assert(edges.subrange(8, 16) =~= bytes::u64_bytes(bounds[1]));
    assert(edges.subrange(16, 24) =~= bytes::u64_bytes(bounds[2]));
    assert(edges.subrange(24, 32) =~= bytes::u64_bytes(bounds[3]));
    lemma_u64_field(file, 24, edges, 0, bounds[0]);
    lemma_u64_field(file, 24, edges, 8, bounds[1]);
    lemma_u64_field(file, 24, edges, 16, bounds[2]);
    lemma_u64_field(file, 24, edges, 24, bounds[3]);
}

/// A written file starts with its header, and its tier table fits.
proof fn lemma_file_header(
    level: u32,
    block: u32,
    bounds: Seq<u64>,
    tiers: Seq<(u32, Vec<Record>)>,
    file: Seq<u8>,
)
    requires
        written(level, block, bounds, tiers, file),
    ensures
        file.len() >= HEADER_LEN + TIER_LEN * tiers.len(),
        file.subrange(0, HEADER_LEN as int) == header_bytes(
            level,
            block,
            tiers.len() as u32,
            bounds,
        ),
{
    let header = header_bytes(level, block, tiers.len() as u32, bounds);
    assert(header.len() == HEADER_LEN);
    lemma_table_len(tiers, block as int, tiers.len());
    assert(file.subrange(0, HEADER_LEN as int) =~= header);
}

/// A file whose header and tier table are sound parses to what they say.
proof fn lemma_parses(file: Seq<u8>, layout: Layout)
    requires
        file.len() >= HEADER_LEN + TIER_LEN * layout.tiers.len(),
        layout.wf(),
        layout.bounds.len() == 4,
        file.subrange(0, 8) == magic(),
        bytes::le_u32(file, 8) == VERSION,
        bytes::le_u32(file, 12) == layout.level,
        bytes::le_u32(file, 16) == layout.block,
        bytes::le_u32(file, 20) == layout.tiers.len(),
        bytes::le_u64(file, 24) == layout.bounds[0],
        bytes::le_u64(file, 32) == layout.bounds[1],
        bytes::le_u64(file, 40) == layout.bounds[2],
        bytes::le_u64(file, 48) == layout.bounds[3],
        tiers_upto(file, layout.block as int, layout.tiers.len()) == Ok::<Seq<Tier>, IndexError>(
            layout.tiers,
        ),
    ensures
        parsed(file) == Ok::<Layout, IndexError>(layout),
{
    let edges = seq![
        bytes::le_u64(file, 24) as u64,
        bytes::le_u64(file, 32) as u64,
        bytes::le_u64(file, 40) as u64,
        bytes::le_u64(file, 48) as u64,
    ];
    assert(layout.bounds =~= edges);
}

/// A written index reads back: the level, the block size, the bounds and every
/// tier's `k` and zone count are those it was written from.
pub proof fn law_written_index_reads_back(
    level: u32,
    block: u32,
    bounds: Seq<u64>,
    tiers: Seq<(u32, Vec<Record>)>,
    file: Seq<u8>,
)
    requires
        written(level, block, bounds, tiers, file),
    ensures
        parsed(file) == Ok::<Layout, IndexError>(placed(level, block, bounds, tiers)),
        placed(level, block, bounds, tiers).wf(),
{
    let layout = placed(level, block, bounds, tiers);
    assert(layout.wf()) by {
        assert forall|i: int| 0 <= i < layout.tiers.len() implies (#[trigger] layout.tiers[i]).zones
            > 0 by {
            lemma_tier_reads(level, block, bounds, tiers, file, i);
        }
    }
    lemma_file_header(level, block, bounds, tiers, file);
    lemma_header_reads(level, block, tiers.len() as u32, bounds, file);
    lemma_tiers_read(level, block, bounds, tiers, file, tiers.len());
    lemma_parses(file, layout);
}

/// A record that starts its block, or one that follows another, read from its
/// three parts.
proof fn lemma_record_parts(file: Seq<u8>, at: int, previous: int, first: bool, z: Record)
    requires
        0 <= at,
        ({
            let gap = if first {
                Seq::<u8>::empty()
            } else {
                bytes::varint_bytes((z.start - previous) as nat)
            };
            let item = gap + bytes::varint_bytes(z.buildings as nat) + seq![z.density, z.built];
            &&& at + item.len() <= file.len()
            &&& file.subrange(at, at + item.len()) == item
        }),
        0 <= previous <= z.start,
        first ==> previous == z.start,
    ensures
        record_at(file, at, previous, first) == Some(
            (
                z,
                at + if first {
                    0
                } else {
                    bytes::varint_bytes((z.start - previous) as nat).len()
                } + bytes::varint_bytes(z.buildings as nat).len() + 2,
            ),
        ),
{
    let gap = if first {
        Seq::<u8>::empty()
    } else {
        bytes::varint_bytes((z.start - previous) as nat)
    };
    let count = bytes::varint_bytes(z.buildings as nat);
    let tail = seq![z.density, z.built];
    let item = gap + count + tail;
    let after = at + gap.len();
    let end = after + count.len();
    assert(file.subrange(at, after) =~= gap) by {
        assert(file.subrange(at, after) =~= item.subrange(0, gap.len() as int));
    }
    assert(file.subrange(after, end) =~= count) by {
        assert(file.subrange(after, end) =~= item.subrange(
            gap.len() as int,
            gap.len() + count.len() as int,
        ));
    }
    let t = gap.len() + count.len() as int;
    assert(file.subrange(at, at + item.len())[t] == file[end]);
    assert(file.subrange(at, at + item.len())[t + 1] == file[end + 1]);
    assert(item[t] == z.density && item[t + 1] == z.built);
    if !first {
        bytes::law_varint_survives(file, at, (z.start - previous) as u64);
    }
    bytes::law_varint_survives(file, after, z.buildings as u64);
}

/// The record at the `p`-th zone's place in a stream is that zone.
proof fn lemma_record_reads(file: Seq<u8>, mid: int, zones: Seq<Record>, block: int, p: int)
    requires
        block > 0,
        sorted(zones),
        0 <= p < zones.len(),
        0 <= mid,
        mid + stream_bytes(zones, block, zones.len()).len() <= file.len(),
        file.subrange(mid, mid + stream_bytes(zones, block, zones.len()).len()) == stream_bytes(
            zones,
            block,
            zones.len(),
        ),
    ensures
        record_at(
            file,
            mid + stream_bytes(zones, block, p as nat).len(),
            if p % block == 0 {
                zones[p].start as int
            } else {
                zones[p - 1].start as int
            },
            p % block == 0,
        ) == Some((zones[p], mid + stream_bytes(zones, block, (p + 1) as nat).len())),
{
    let stream = stream_bytes(zones, block, zones.len());
    let a = stream_bytes(zones, block, p as nat).len() as int;
    let item = item_bytes(zones, block, p);
    lemma_stream_item(zones, block, zones.len(), p);
    assert(file.subrange(mid + a, mid + a + item.len()) =~= stream.subrange(a, a + item.len()));
    if p == 0 {
        vstd::arithmetic::div_mod::lemma_small_mod(0, block as nat);
    } else {
        assert(zones[p - 1].start < zones[p].start);
    }
    lemma_record_parts(
        file,
        mid + a,
        if p % block == 0 {
            zones[p].start as int
        } else {
            zones[p - 1].start as int
        },
        p % block == 0,
        zones[p],
    );
}

/// Where the `i`-th zone of a tier ends.
pub open spec fn zone_end(level: nat, zones: Seq<Record>, i: int) -> int {
    if i + 1 < zones.len() {
        zones[i + 1].start as int
    } else {
        hilbert::cells(level)
    }
}

/// Whether `key` lies in the `i`-th zone of a tier.
pub open spec fn in_zone(level: nat, zones: Seq<Record>, i: int, key: int) -> bool {
    0 <= i < zones.len() && zones[i].start <= key < zone_end(level, zones, i)
}

/// Scanning a block from its `p`-th zone on finds the zone the key lies in.
proof fn lemma_scan_finds(
    file: Seq<u8>,
    mid: int,
    level: nat,
    zones: Seq<Record>,
    block: int,
    j: int,
    p: int,
    key: int,
    i: int,
)
    requires
        block > 0,
        sorted(zones),
        0 <= mid,
        mid + stream_bytes(zones, block, zones.len()).len() <= file.len(),
        file.subrange(mid, mid + stream_bytes(zones, block, zones.len()).len()) == stream_bytes(
            zones,
            block,
            zones.len(),
        ),
        0 <= j,
        j * block < zones.len(),
        in_zone(level, zones, i, key),
        j * block <= i < j * block + zones_in_block(zones.len() as int, block, j),
        j * block <= p <= i + 1,
    ensures
        scan(
            file,
            mid + stream_bytes(zones, block, p as nat).len(),
            if p == j * block {
                zones[p].start as int
            } else {
                zones[p - 1].start as int
            },
            p == j * block,
            (j * block + zones_in_block(zones.len() as int, block, j) - p) as nat,
            key,
            if p == j * block {
                None
            } else {
                Some(zones[p - 1])
            },
            if (j + 1) * block < zones.len() {
                zones[(j + 1) * block].start as int
            } else {
                hilbert::cells(level)
            },
        ) == Some((zones[i], zone_end(level, zones, i))),
    decreases zones.len() - p,
{
    let count = zones_in_block(zones.len() as int, block, j);
    assert((j + 1) * block == j * block + block) by (nonlinear_arith);
    assert(0 <= j * block) by (nonlinear_arith)
        requires
            0 <= j,
            block > 0,
    ;
    if p < j * block + count {
        assert(p % block == 0 <==> p == j * block) by {
            vstd::arithmetic::div_mod::lemma_fundamental_div_mod_converse(
                p,
                block,
                j,
                p - j * block,
            );
        }
        lemma_record_reads(file, mid, zones, block, p);
        if p == i + 1 {
            assert(zones[p].start > key);
        } else {
            if p < i {
                assert(zones[p].start < zones[i].start);
            }
            lemma_scan_finds(file, mid, level, zones, block, j, p + 1, key, i);
        }
    }
}

/// Whether a file holds a tier's skip table and stream where `t` says.
spec fn holds_tier(file: Seq<u8>, t: Tier, zones: Seq<Record>, block: int) -> bool {
    let skip = skip_bytes(zones, block, zones.len());
    let stream = stream_bytes(zones, block, zones.len());
    &&& t.zones == zones.len()
    &&& t.skips + skip.len() <= file.len()
    &&& file.subrange(t.skips as int, t.skips + skip.len()) == skip
    &&& t.stream + stream.len() <= file.len()
    &&& file.subrange(t.stream as int, t.stream + stream.len()) == stream
    &&& offsets_fit(zones, block, zones.len())
}

proof fn lemma_lookup(layout: Layout, file: Seq<u8>, zones: Seq<Record>, tier: int, i: int, key: int)
    requires
        layout.block > 0,
        0 <= tier < layout.tiers.len(),
        holds_tier(file, layout.tiers[tier], zones, layout.block as int),
        tier_fault(layout.level as nat, layout.tiers[tier].k, zones) is None,
        in_zone(layout.level as nat, zones, i, key),
    ensures
        lookup(layout, file, tier, key) == Some(
            (zones[i], zone_end(layout.level as nat, zones, i)),
        ),
{
    let b = layout.block as int;
    let t = layout.tiers[tier];
    let level = layout.level as nat;
    let blocks = block_count(zones.len() as int, b);
    lemma_block_count(zones.len() as int, b);
    assert forall|j: int| 0 <= j < blocks implies {
        &&& #[trigger] first_key(file, t, j) == zones[j * b].start
        &&& block_offset(file, t, j) == stream_bytes(zones, b, (j * b) as nat).len()
    } by {
        assert(0 <= j * b < zones.len());
        lemma_skip_reads(file, t.skips as int, zones, b, j);
    }
    let j = search(file, t, key, 0, blocks);
    assert(0 * b == 0);
    assert(first_key(file, t, 0) == zones[0].start);
    lemma_search(file, t, key, 0, blocks);
    assert(0 <= j * b < zones.len());
    assert((j + 1) * b == j * b + b) by (nonlinear_arith);
    assert(first_key(file, t, j) == zones[j * b].start);
    assert(j * b <= i) by {
        if i < j * b {
            assert(zones[i + 1].start <= zones[j * b].start);
        }
    }
    if j + 1 < blocks {
        assert(0 <= (j + 1) * b < zones.len());
        assert(first_key(file, t, j + 1) == zones[(j + 1) * b].start);
        assert(i < (j + 1) * b) by {
            if i >= (j + 1) * b {
                assert(zones[(j + 1) * b].start <= zones[i].start);
            }
        }
    } else {
        assert(zones.len() <= (j + 1) * b);
    }
    lemma_scan_finds(file, t.stream as int, level, zones, b, j, j * b, key, i);
    if i + 1 < zones.len() {
        assert(zones[i + 1].start <= zones.last().start);
    }
}

/// **The guarantee, found again in the file.** Looking a key up in a written
/// index gives the zone of the tier the key lies in, and where that zone ends:
/// so every key is answered, and every key of a zone gets the same answer.
pub proof fn law_lookup_finds_the_zone(
    level: u32,
    block: u32,
    bounds: Seq<u64>,
    tiers: Seq<(u32, Vec<Record>)>,
    file: Seq<u8>,
    tier: int,
    i: int,
    key: int,
)
    requires
        written(level, block, bounds, tiers, file),
        0 <= tier < tiers.len(),
        in_zone(level as nat, tiers[tier].1@, i, key),
    ensures
        lookup(placed(level, block, bounds, tiers), file, tier, key) == Some(
            (tiers[tier].1@[i], zone_end(level as nat, tiers[tier].1@, i)),
        ),
{
    let b = block as int;
    let zones = tiers[tier].1@;
    let layout = placed(level, block, bounds, tiers);
    lemma_tier_reads(level, block, bounds, tiers, file, tier);
    assert(holds_tier(file, layout.tiers[tier], zones, b)) by {
        lemma_file_parts(level, block, bounds, tiers, tier);
        lemma_lengths_sound(tiers, b, tiers.len(), tier);
    }
    lemma_tiers_sound(level as nat, tiers, tiers.len(), tier);
    lemma_lookup(layout, file, zones, tier, i, key);
}

proof fn lemma_lengths_sound(tiers: Seq<(u32, Vec<Record>)>, block: int, n: nat, i: int)
    requires
        0 <= i < n,
        length_fault(tiers, block, n) is None,
    ensures
        offsets_fit(tiers[i].1@, block, tiers[i].1@.len()),
    decreases n,
{
    if i < n - 1 {
        lemma_lengths_sound(tiers, block, (n - 1) as nat, i);
    }
}

proof fn lemma_skip_reads(file: Seq<u8>, at: int, zones: Seq<Record>, block: int, j: int)
    requires
        block > 0,
        offsets_fit(zones, block, zones.len()),
        0 <= j,
        j * block < zones.len(),
        0 <= at,
        at + skip_bytes(zones, block, zones.len()).len() <= file.len(),
        file.subrange(at, at + skip_bytes(zones, block, zones.len()).len()) == skip_bytes(
            zones,
            block,
            zones.len(),
        ),
    ensures
        bytes::le_u64(file, at + SKIP_LEN * j) == zones[j * block].start,
        bytes::le_u32(file, at + SKIP_LEN * j + 8) == stream_bytes(
            zones,
            block,
            (j * block) as nat,
        ).len(),
{
    let table = skip_bytes(zones, block, zones.len());
    let from = SKIP_LEN * j;
    let first = bytes::u64_bytes(zones[j * block].start);
    let offset = stream_bytes(zones, block, (j * block) as nat).len();
    let second = bytes::u32_bytes(offset as u32);
    assert(0 <= j * block) by (nonlinear_arith)
        requires
            0 <= j,
            block > 0,
    ;
    lemma_skip_entry(zones, block, zones.len(), j);
    vstd::arithmetic::div_mod::lemma_mod_multiples_basic(j, block);
    lemma_offsets(zones, block, zones.len(), j * block);
    let entry = first + second;
    assert(file.subrange(at + from, at + from + SKIP_LEN) =~= entry) by {
        assert(file.subrange(at + from, at + from + SKIP_LEN) =~= table.subrange(
            from,
            from + SKIP_LEN,
        ));
    }
    assert(entry.subrange(0, 8) =~= first);
    assert(entry.subrange(8, 12) =~= second);
    lemma_u64_field(file, at + from, entry, 0, zones[j * block].start);
    lemma_u32_field(file, at + from, entry, 8, offset as u32);
}

/// The zone of a sound tier that a key lies in: the last one that starts at or
/// before it, looked for among the first `n`.
pub open spec fn zone_of(zones: Seq<Record>, key: int, n: nat) -> int
    decreases n,
{
    if n <= 1 || zones[n - 1].start <= key {
        n - 1
    } else {
        zone_of(zones, key, (n - 1) as nat)
    }
}

/// A tier that is fit to be written is a partition of the curve: every key lies
/// in exactly one of its zones.
pub proof fn law_a_tier_is_a_partition(level: nat, k: u32, zones: Seq<Record>, key: int)
    requires
        tier_fault(level, k, zones) is None,
        0 <= key < hilbert::cells(level),
    ensures
        in_zone(level, zones, zone_of(zones, key, zones.len()), key),
        forall|i: int|
            #[trigger] in_zone(level, zones, i, key) ==> i == zone_of(zones, key, zones.len()),
{
    lemma_zone_of(zones, key, zones.len());
    let at = zone_of(zones, key, zones.len());
    assert forall|i: int| #[trigger] in_zone(level, zones, i, key) implies i == at by {
        if i < at {
            assert(zones[i + 1].start <= zones[at].start);
        } else if at < i {
            assert(zones[at + 1].start <= zones[i].start);
        }
    }
}

proof fn lemma_zone_of(zones: Seq<Record>, key: int, n: nat)
    requires
        1 <= n <= zones.len(),
        zones[0].start <= key,
    ensures
        0 <= zone_of(zones, key, n) < n,
        zones[zone_of(zones, key, n)].start <= key,
        zone_of(zones, key, n) + 1 < n ==> key < zones[zone_of(zones, key, n) + 1].start,
    decreases n,
{
    if n > 1 && zones[n - 1].start > key {
        lemma_zone_of(zones, key, (n - 1) as nat);
    }
}

/// Every zone of a tier that is fit to be written holds at least `k` buildings,
/// unless the tier is one zone.
pub proof fn law_zones_hold_k_buildings(level: nat, k: u32, zones: Seq<Record>, i: int)
    requires
        tier_fault(level, k, zones) is None,
        0 <= i < zones.len(),
    ensures
        zones.len() == 1 || zones[i].buildings >= k,
{
    if zones.len() > 1 {
        lemma_none_short(k, zones, 0, i);
    }
}

proof fn lemma_none_short(k: u32, zones: Seq<Record>, from: int, i: int)
    requires
        first_short(k, zones, from) is None,
        0 <= from <= i < zones.len(),
    ensures
        zones[i].buildings >= k,
    decreases i - from,
{
    if from < i {
        lemma_none_short(k, zones, from + 1, i);
    }
}

/// **Every position is hidden among `k` buildings.** Whatever the key, a written
/// index answers it, with one of the tier's own zones, and that zone holds at
/// least `k` buildings unless it is the whole tier.
pub proof fn law_every_key_is_hidden(
    level: u32,
    block: u32,
    bounds: Seq<u64>,
    tiers: Seq<(u32, Vec<Record>)>,
    file: Seq<u8>,
    tier: int,
    key: int,
)
    requires
        written(level, block, bounds, tiers, file),
        0 <= tier < tiers.len(),
        0 <= key < hilbert::cells(level as nat),
    ensures
        match lookup(placed(level, block, bounds, tiers), file, tier, key) {
            Some((r, end)) => {
                &&& tiers[tier].1@.contains(r)
                &&& r.start <= key < end
                &&& tiers[tier].1@.len() == 1 || r.buildings >= tiers[tier].0
            },
            None => false,
        },
{
    let zones = tiers[tier].1@;
    lemma_tiers_sound(level as nat, tiers, tiers.len(), tier);
    law_a_tier_is_a_partition(level as nat, tiers[tier].0, zones, key);
    let i = zone_of(zones, key, zones.len());
    law_lookup_finds_the_zone(level, block, bounds, tiers, file, tier, i, key);
    law_zones_hold_k_buildings(level as nat, tiers[tier].0, zones, i);
}

/// **Every answer is a function of the zone alone.** Two keys of one zone get the
/// same answer, so an answer says nothing about a position but its zone.
pub proof fn law_one_zone_one_answer(
    level: u32,
    block: u32,
    bounds: Seq<u64>,
    tiers: Seq<(u32, Vec<Record>)>,
    file: Seq<u8>,
    tier: int,
    i: int,
    a: int,
    b: int,
)
    requires
        written(level, block, bounds, tiers, file),
        0 <= tier < tiers.len(),
        in_zone(level as nat, tiers[tier].1@, i, a),
        in_zone(level as nat, tiers[tier].1@, i, b),
    ensures
        lookup(placed(level, block, bounds, tiers), file, tier, a) == lookup(
            placed(level, block, bounds, tiers),
            file,
            tier,
            b,
        ),
{
    law_lookup_finds_the_zone(level, block, bounds, tiers, file, tier, i, a);
    law_lookup_finds_the_zone(level, block, bounds, tiers, file, tier, i, b);
}

/// Whether the blocks of a tier come in the order of their first keys, as they do in
/// every index that was written here.
pub open spec fn skips_in_order(layout: Layout, b: Seq<u8>, tier: int) -> bool {
    let t = layout.tiers[tier];
    forall|i: int, j: int|
        0 <= i < j < block_count(t.zones as int, layout.block as int) ==> first_key(b, t, i) <= first_key(b, t, j)
}

/// A scan that has found a record finds none that starts before it.
proof fn lemma_scan_grows(
    b: Seq<u8>,
    at: int,
    previous: int,
    first: bool,
    left: nat,
    key: int,
    best: Record,
    end: int,
)
    requires
        best.start <= previous,
    ensures
        scan(b, at, previous, first, left, key, Some(best), end) matches Some((r, e)) ==> r.start >= best.start,
    decreases left,
{
    if left > 0 {
        bytes::lemma_varint_bounds(b, at, 0);
        if let Some((r, next)) = record_at(b, at, previous, first) {
            if r.start <= key {
                lemma_scan_grows(b, next, r.start as int, false, (left - 1) as nat, key, r, end);
            }
        }
    }
}

/// A scan finds no record that starts before its block.
proof fn lemma_scan_starts_at(
    b: Seq<u8>,
    at: int,
    previous: int,
    left: nat,
    key: int,
    end: int,
)
    ensures
        scan(b, at, previous, true, left, key, None, end) matches Some((r, e)) ==> r.start >= previous,
{
    if left > 0 {
        if let Some((r, next)) = record_at(b, at, previous, true) {
            if r.start <= key {
                lemma_scan_grows(b, next, r.start as int, false, (left - 1) as nat, key, r, end);
            }
        }
    }
}

/// Two scans of a block that find records with one start find the same record, with the
/// same end.
proof fn lemma_scans_agree(
    b: Seq<u8>,
    at: int,
    previous: int,
    first: bool,
    left: nat,
    x: int,
    y: int,
    best: Option<Record>,
    end: int,
)
    requires
        best matches Some(r) ==> r.start <= previous && r.start <= x && r.start <= y,
        scan(b, at, previous, first, left, x, best, end) is Some,
        scan(b, at, previous, first, left, y, best, end) is Some,
        scan(b, at, previous, first, left, x, best, end).unwrap().0.start == scan(
            b,
            at,
            previous,
            first,
            left,
            y,
            best,
            end,
        ).unwrap().0.start,
    ensures
        scan(b, at, previous, first, left, x, best, end) == scan(b, at, previous, first, left, y, best, end),
    decreases left,
{
    if left > 0 {
        let (r, next) = record_at(b, at, previous, first).unwrap();
        let rest = (left - 1) as nat;
        if r.start <= x && r.start <= y {
            lemma_scans_agree(b, next, r.start as int, false, rest, x, y, Some(r), end);
        } else if r.start <= x {
            lemma_scan_grows(b, next, r.start as int, false, rest, x, r, end);
        } else if r.start <= y {
            lemma_scan_grows(b, next, r.start as int, false, rest, y, r, end);
        }
    }
}

/// **One id, one answer, whatever file it comes from.** Where two keys are answered with
/// zones of one id, they are answered with the same zone, field for field: nothing in an
/// answer depends on the position beyond the id of its zone. This holds of every file
/// that can be read, as long as its blocks come in order.
pub proof fn law_one_id_one_answer(layout: Layout, b: Seq<u8>, tier: int, x: int, y: int, zx: Zone, zy: Zone)
    requires
        layout.wf(),
        0 <= tier < layout.tiers.len(),
        skips_in_order(layout, b, tier),
        lookup(layout, b, tier, x) is Some,
        lookup(layout, b, tier, y) is Some,
        zx.tells(
            layout.level as nat,
            layout.tiers[tier].k,
            lookup(layout, b, tier, x).unwrap().0,
            lookup(layout, b, tier, x).unwrap().1,
        ),
        zy.tells(
            layout.level as nat,
            layout.tiers[tier].k,
            lookup(layout, b, tier, y).unwrap().0,
            lookup(layout, b, tier, y).unwrap().1,
        ),
        zx.id == zy.id,
    ensures
        lookup(layout, b, tier, x) == lookup(layout, b, tier, y),
        zx == zy,
{
    let t = layout.tiers[tier];
    let block = layout.block as int;
    let blocks = block_count(t.zones as int, block);
    lemma_block_count(t.zones as int, block);
    lemma_search(b, t, x, 0, blocks);
    lemma_search(b, t, y, 0, blocks);
    let i = search(b, t, x, 0, blocks);
    let j = search(b, t, y, 0, blocks);
    let end = if i + 1 < blocks {
        first_key(b, t, i + 1)
    } else {
        hilbert::cells(layout.level as nat)
    };
    let end_y = if j + 1 < blocks {
        first_key(b, t, j + 1)
    } else {
        hilbert::cells(layout.level as nat)
    };
    let left = zones_in_block(t.zones as int, block, i) as nat;
    let left_y = zones_in_block(t.zones as int, block, j) as nat;
    let at = t.stream + block_offset(b, t, i);
    let at_y = t.stream + block_offset(b, t, j);
    lemma_scan_starts_at(b, at, first_key(b, t, i), left, x, end);
    lemma_scan_starts_at(b, at_y, first_key(b, t, j), left_y, y, end_y);
    lemma_scan_below(b, at, first_key(b, t, i), true, left, x, None, end);
    lemma_scan_below(b, at_y, first_key(b, t, j), true, left_y, y, None, end_y);
    if i < j {
        assert(first_key(b, t, i + 1) <= first_key(b, t, j));
    } else if j < i {
        assert(first_key(b, t, j + 1) <= first_key(b, t, i));
    }
    assert(i == j);
    lemma_scans_agree(b, at, first_key(b, t, i), true, left, x, y, None, end);
    hilbert::lemma_one_box(zx.extent, zy.extent, layout.level as nat, zx.id as int, zx.end as int);
}

/// A scan finds a record that starts at or before the key.
proof fn lemma_scan_below(
    b: Seq<u8>,
    at: int,
    previous: int,
    first: bool,
    left: nat,
    key: int,
    best: Option<Record>,
    end: int,
)
    requires
        best matches Some(r) ==> r.start <= key,
    ensures
        scan(b, at, previous, first, left, key, best, end) matches Some((r, e)) ==> r.start <= key,
    decreases left,
{
    if left > 0 {
        if let Some((r, next)) = record_at(b, at, previous, first) {
            if r.start <= key {
                lemma_scan_below(b, next, r.start as int, false, (left - 1) as nat, key, Some(r), end);
            }
        }
    }
}

/// Whether some zones cut the whole curve into parts that hide: the first starts where
/// the curve does, each further one past the one before it, none past the end, and if
/// there are several, each holds `k` buildings at least.
pub open spec fn hides(level: nat, k: u32, zones: Seq<Record>) -> bool {
    &&& zones.len() > 0
    &&& zones[0].start == 0
    &&& forall|i: int, j: int| 0 <= i && j == i + 1 && j < zones.len() ==> #[trigger] zones[i].start < #[trigger] zones[j].start
    &&& forall|i: int| 0 <= i < zones.len() ==> (#[trigger] zones[i]).start < hilbert::cells(level)
    &&& zones.len() == 1 || forall|i: int| 0 <= i < zones.len() ==> (#[trigger] zones[i]).buildings >= k
}

proof fn lemma_starts_rise(zones: Seq<Record>, i: int, j: int)
    requires
        0 <= i < j < zones.len(),
        forall|i: int, j: int|
            0 <= i && j == i + 1 && j < zones.len() ==> #[trigger] zones[i].start < #[trigger] zones[j].start,
    ensures
        zones[i].start < zones[j].start,
    decreases j - i,
{
    if i + 1 < j {
        lemma_starts_rise(zones, i, j - 1);
        assert(zones[j - 1].start < zones[j].start);
    } else {
        assert(zones[i].start < zones[j].start);
    }
}

proof fn lemma_short_is_first(k: u32, zones: Seq<Record>, from: int)
    requires
        0 <= from,
    ensures
        match first_short(k, zones, from) {
            Some(z) => exists|i: int|
                from <= i < zones.len() && #[trigger] zones[i] == z && z.buildings < k && forall|j: int|
                    from <= j < i ==> (#[trigger] zones[j]).buildings >= k,
            None => forall|i: int| from <= i < zones.len() ==> (#[trigger] zones[i]).buildings >= k,
        },
    decreases zones.len() - from,
{
    if from < zones.len() {
        if zones[from].buildings < k {
            assert(zones[from].buildings < k);
        } else {
            lemma_short_is_first(k, zones, from + 1);
            if let Some(z) = first_short(k, zones, from + 1) {
                let i = choose|i: int|
                    from + 1 <= i < zones.len() && #[trigger] zones[i] == z && z.buildings < k && forall|j: int|
                        from + 1 <= j < i ==> (#[trigger] zones[j]).buildings >= k;
                assert(zones[i] == z);
                assert forall|j: int| from <= j < i implies (#[trigger] zones[j]).buildings >= k by {}
            }
        }
    }
}

/// **A tier is refused exactly where it leaves a position unhidden**, and a zone that is
/// named as too small is the first one that is.
pub proof fn law_a_tier_that_hides_is_taken(level: nat, k: u32, zones: Seq<Record>)
    ensures
        tier_fault(level, k, zones) is None <==> hides(level, k, zones),
        tier_fault(level, k, zones) matches Some(EncodeError::Short { k: named, buildings, start }) ==> named == k
            && buildings < k && exists|i: int|
            0 <= i < zones.len() && (#[trigger] zones[i]).start == start && zones[i].buildings == buildings && forall|j: int|
                0 <= j < i ==> (#[trigger] zones[j]).buildings >= k,
{
    lemma_short_is_first(k, zones, 0);
    if hides(level, k, zones) {
        assert forall|i: int, j: int| 0 <= i < j < zones.len() implies zones[i].start < zones[j].start by {
            lemma_starts_rise(zones, i, j);
        }
        assert(sorted(zones));
        assert(zones[zones.len() - 1].start < hilbert::cells(level));
    }
    if tier_fault(level, k, zones) is None {
        assert(sorted(zones));
        assert forall|i: int| 0 <= i < zones.len() implies (#[trigger] zones[i]).start < hilbert::cells(level) by {
            if i < zones.len() - 1 {
                assert(zones[i].start < zones[zones.len() - 1].start);
            }
        }
    }
}

proof fn lemma_tiers_hide(level: nat, tiers: Seq<(u32, Vec<Record>)>, n: nat)
    requires
        n <= tiers.len(),
    ensures
        tiers_fault(level, tiers, n) is None <==> forall|i: int|
            0 <= i < n ==> hides(level, (#[trigger] tiers[i]).0, tiers[i].1@),
    decreases n,
{
    if n > 0 {
        lemma_tiers_hide(level, tiers, (n - 1) as nat);
        law_a_tier_that_hides_is_taken(level, tiers[n - 1].0, tiers[n - 1].1@);
        if tiers_fault(level, tiers, n) is None {
            assert forall|i: int| 0 <= i < n implies hides(level, (#[trigger] tiers[i]).0, tiers[i].1@) by {}
        } else if forall|i: int| 0 <= i < n ==> hides(level, (#[trigger] tiers[i]).0, tiers[i].1@) {
            assert(hides(level, tiers[n - 1].0, tiers[n - 1].1@));
        }
    }
}

proof fn lemma_stream_grows(zones: Seq<Record>, block: int, m: nat, n: nat)
    requires
        m <= n,
    ensures
        stream_bytes(zones, block, m).len() <= stream_bytes(zones, block, n).len(),
    decreases n,
{
    if m < n {
        lemma_stream_grows(zones, block, m, (n - 1) as nat);
    }
}

proof fn lemma_short_stream_fits(zones: Seq<Record>, block: int, n: nat, all: nat)
    requires
        n <= all,
        stream_bytes(zones, block, all).len() <= u32::MAX,
    ensures
        offsets_fit(zones, block, n),
    decreases n,
{
    if n > 0 {
        lemma_short_stream_fits(zones, block, (n - 1) as nat, all);
        lemma_stream_grows(zones, block, (n - 1) as nat, all);
    }
}

proof fn lemma_no_length_fault(tiers: Seq<(u32, Vec<Record>)>, block: int, n: nat)
    requires
        n <= tiers.len(),
        forall|i: int|
            0 <= i < tiers.len() ==> stream_bytes((#[trigger] tiers[i]).1@, block, tiers[i].1@.len()).len() <= u32::MAX,
    ensures
        length_fault(tiers, block, n) is None,
    decreases n,
{
    if n > 0 {
        lemma_no_length_fault(tiers, block, (n - 1) as nat);
        assert(stream_bytes(tiers[n - 1].1@, block, tiers[n - 1].1@.len()).len() <= u32::MAX);
        lemma_short_stream_fits(tiers[n - 1].1@, block, tiers[n - 1].1@.len(), tiers[n - 1].1@.len());
    }
}

/// **What hides is written, and nothing else is.** An index of zones is written only if
/// every tier of it hides, on a grid of one to twenty-four levels and in blocks of one
/// zone at least; and then it is, but where the zones of a tier take more than 4 GB.
pub proof fn law_what_hides_is_written(
    level: u32,
    block: u32,
    bounds: Seq<u64>,
    tiers: Seq<(u32, Vec<Record>)>,
)
    ensures
        encoded(level, block, bounds, tiers) is Ok ==> 1 <= level <= 24 && block > 0 && forall|i: int|
            0 <= i < tiers.len() ==> hides(level as nat, (#[trigger] tiers[i]).0, tiers[i].1@),
        1 <= level <= 24 && block > 0 && (forall|i: int|
            0 <= i < tiers.len() ==> hides(level as nat, (#[trigger] tiers[i]).0, tiers[i].1@) && stream_bytes(
                tiers[i].1@,
                block as int,
                tiers[i].1@.len(),
            ).len() <= u32::MAX) ==> encoded(level, block, bounds, tiers) is Ok,
{
    lemma_tiers_hide(level as nat, tiers, tiers.len());
    if 1 <= level <= 24 && block > 0 && (forall|i: int|
        0 <= i < tiers.len() ==> hides(level as nat, (#[trigger] tiers[i]).0, tiers[i].1@) && stream_bytes(
            tiers[i].1@,
            block as int,
            tiers[i].1@.len(),
        ).len() <= u32::MAX) {
        lemma_no_length_fault(tiers, block as int, tiers.len());
    }
}

} // verus!
