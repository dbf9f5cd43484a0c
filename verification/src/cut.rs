//! Cutting the curve into zones of at least `k` buildings.
//!
//! The occupied cells are put in Hilbert order and the curve is cut wherever the
//! running building count reaches `k`. What comes out is, for each zone, where
//! it starts, how many buildings it holds and which cells it was made of, so
//! that whatever else was measured in those cells can be averaged over them.

use crate::hilbert;
use crate::zones;
use crate::zones::Record;
use vstd::prelude::*;

verus! {

/// One occupied grid cell: its Hilbert index at the index's level and how many
/// buildings are in it.
#[derive(Clone, Copy, Debug, PartialEq, Eq, Structural)]
pub struct Bin {
    pub key: u64,
    pub buildings: u32,
}

/// One zone as it was cut: the bins `first..last` and the buildings in them.
#[derive(Clone, Copy, Debug, PartialEq, Eq, Structural)]
pub struct Piece {
    /// First Hilbert key of the zone. The zone runs to the next piece's start.
    pub start: u64,
    pub buildings: u32,
    pub first: usize,
    pub last: usize,
}

/// Buildings in the bins `from..to`.
pub open spec fn total(bins: Seq<Bin>, from: int, to: int) -> int
    decreases to - from,
{
    if from < to {
        total(bins, from, to - 1) + bins[to - 1].buildings
    } else {
        0
    }
}

/// Whether the running count from bin `from` first reaches `k` with bin `to - 1`.
pub open spec fn reaches(bins: Seq<Bin>, k: u32, from: int, to: int) -> bool {
    &&& from < to
    &&& total(bins, from, to) >= k
    &&& to - 1 == from || total(bins, from, to - 1) < k
}

/// Whether the last zone of a cut starts at bin `from`: it is the zone that
/// reached `k` at bin `at`, with the tail that did not folded into it; or
/// nothing ever reached `k` and the whole curve is one short zone.
pub open spec fn last_zone(bins: Seq<Bin>, k: u32, from: int, at: int) -> bool {
    ||| reaches(bins, k, from, at) && (at == bins.len() || total(bins, at, bins.len() as int) < k)
    ||| from == 0 && at == bins.len() && bins.len() > 0 && total(bins, 0, at) < k
}

/// Whether `pieces` is the cut of `bins` into zones of at least `k` buildings:
/// contiguous runs of bins, each closed as soon as it holds `k`, the tail folded
/// into its predecessor, and the first stretched back to key 0.
pub open spec fn is_cut(bins: Seq<Bin>, k: u32, pieces: Seq<Piece>) -> bool {
    let n = pieces.len() as int;
    &&& bins.len() == 0 <==> n == 0
    &&& n > 0 ==> {
        &&& pieces[0].first == 0
        &&& pieces[n - 1].last == bins.len()
        &&& exists|at: int|
            pieces[n - 1].first < at <= bins.len() && #[trigger] last_zone(
                bins,
                k,
                pieces[n - 1].first as int,
                at,
            )
    }
    &&& forall|i: int|
        0 <= i < n ==> {
            let p = #[trigger] pieces[i];
            &&& p.first < p.last <= bins.len()
            &&& p.start == if i == 0 {
                0
            } else {
                bins[p.first as int].key
            }
            &&& p.buildings == total(bins, p.first as int, p.last as int)
        }
    &&& forall|i: int|
        0 <= i < n - 1 ==> {
            &&& (#[trigger] pieces[i]).last == pieces[i + 1].first
            &&& reaches(bins, k, pieces[i].first as int, pieces[i].last as int)
        }
}

proof fn lemma_total_joins(bins: Seq<Bin>, a: int, b: int, c: int)
    requires
        a <= b <= c,
    ensures
        total(bins, a, c) == total(bins, a, b) + total(bins, b, c),
        0 <= total(bins, a, b),
        0 <= total(bins, b, c),
    decreases c - a,
{
    if b < c {
        lemma_total_joins(bins, a, b, c - 1);
    } else if a < b {
        lemma_total_joins(bins, a, b - 1, b - 1);
    }
}

/// Whether the buildings of every zone can be counted: all of them together can, or no
/// cell is so full that a zone and a tail with it cannot.
pub open spec fn countable(bins: Seq<Bin>, k: u32) -> bool {
    ||| total(bins, 0, bins.len() as int) <= u32::MAX
    ||| forall|i: int| 0 <= i < bins.len() ==> (#[trigger] bins[i]).buildings + 2 * k <= u32::MAX
}

/// What is known of the zones closed so far: all but the tail fold and the
/// stretch to key 0.
spec fn closed(bins: Seq<Bin>, k: u32, pieces: Seq<Piece>, upto: int) -> bool {
    &&& pieces.len() == 0 <==> upto == 0
    &&& pieces.len() > 0 ==> pieces[0].first == 0 && pieces.last().last == upto
    &&& forall|i: int|
        0 <= i < pieces.len() ==> {
            let p = #[trigger] pieces[i];
            &&& p.first < p.last <= upto
            &&& p.start == bins[p.first as int].key
            &&& p.buildings == total(bins, p.first as int, p.last as int)
            &&& reaches(bins, k, p.first as int, p.last as int)
        }
    &&& forall|i: int|
        0 <= i < pieces.len() - 1 ==> (#[trigger] pieces[i]).last == pieces[i + 1].first
}

/// Cut the curve into zones of at least `k` buildings. `bins` is sorted by
/// `key`, which is what makes a zone a contiguous piece of the plane.
///
/// The first zone is stretched back to key 0, so that the map is total; the tail,
/// which did not reach `k`, is folded into its predecessor; and a cut never falls
/// inside a cell, so that a cell always answers the same zone.
pub fn cut(bins: &[Bin], k: u32) -> (pieces: Vec<Piece>)
    requires
        countable(bins@, k),
    ensures
        is_cut(bins@, k, pieces@),
{
    let mut pieces: Vec<Piece> = Vec::new();
    // The open zone: the bins from `first` on, holding `held` buildings.
    let mut first: usize = 0;
    let mut held: u32 = 0;
    let mut i: usize = 0;
    let n: usize = bins.len();
    while i < n
        invariant
            n == bins@.len(),
            first <= i <= n,
            countable(bins@, k),
            total(bins@, 0, n as int) > u32::MAX && pieces@.len() > 0 ==> pieces@.last().buildings + k <= u32::MAX,
            closed(bins@, k, pieces@, first as int),
            held == total(bins@, first as int, i as int),
            first < i ==> held < k,
        decreases n - i,
    {
        proof {
            lemma_total_joins(bins@, 0, first as int, n as int);
            lemma_total_joins(bins@, first as int, i + 1, n as int);
            if total(bins@, 0, n as int) > u32::MAX {
                assert(bins@[i as int].buildings + 2 * k <= u32::MAX);
            }
        }
        held = held + bins[i].buildings;
        i = i + 1;
        if held >= k {
            let piece = Piece { start: bins[first].key, buildings: held, first, last: i };
            let ghost before = pieces@;
            pieces.push(piece);
            proof {
                assert forall|j: int| 0 <= j < pieces@.len() - 1 implies (#[trigger] pieces@[j]).last
                    == pieces@[j + 1].first by {
                    assert(pieces@[j] == before[j]);
                }
                assert(pieces@[0].first == 0);
                assert forall|j: int| 0 <= j < pieces@.len() implies {
                    let p = #[trigger] pieces@[j];
                    &&& p.first < p.last <= i
                    &&& p.start == bins@[p.first as int].key
                    &&& p.buildings == total(bins@, p.first as int, p.last as int)
                    &&& reaches(bins@, k, p.first as int, p.last as int)
                } by {
                    if j < before.len() {
                        assert(pieces@[j] == before[j]);
                    }
                }
            }
            first = i;
            held = 0;
        }
    }
    let ghost whole = pieces@;
    if first < n {
        let count: usize = pieces.len();
        if count > 0 {
            let last: Piece = pieces[count - 1];
            proof {
                lemma_total_joins(bins@, last.first as int, first as int, n as int);
                lemma_total_joins(bins@, 0, last.first as int, n as int);
            }
            pieces.set(
                count - 1,
                Piece {
                    start: last.start,
                    buildings: last.buildings + held,
                    first: last.first,
                    last: n,
                },
            );
            assert(last_zone(bins@, k, last.first as int, first as int));
        } else {
            pieces.push(Piece { start: bins[first].key, buildings: held, first, last: n });
            assert(last_zone(bins@, k, 0, n as int));
        }
    } else if n > 0 {
        assert(last_zone(bins@, k, pieces@.last().first as int, n as int));
    }
    if pieces.len() > 0 {
        let head: Piece = pieces[0];
        pieces.set(
            0,
            Piece { start: 0, buildings: head.buildings, first: head.first, last: head.last },
        );
    }
    proof {
        assert forall|j: int| 0 <= j < pieces@.len() - 1 implies {
            &&& (#[trigger] pieces@[j]).last == pieces@[j + 1].first
            &&& reaches(bins@, k, pieces@[j].first as int, pieces@[j].last as int)
        } by {
            assert(whole[j].last == whole[j + 1].first);
        }
        if pieces@.len() > 0 && whole.len() > 0 {
            assert(pieces@.last().first == whole.last().first);
            assert(pieces@[0].first == whole[0].first);
        }
    }
    pieces
}

/// Whether each bin lies past the one before it, and all of them on the curve.
pub open spec fn in_order(level: nat, bins: Seq<Bin>) -> bool {
    &&& forall|i: int, j: int| 0 <= i < j < bins.len() ==> bins[i].key < bins[j].key
    &&& forall|i: int| 0 <= i < bins.len() ==> (#[trigger] bins[i]).key < hilbert::cells(level)
}

/// Whether a zone list holds the starts and the counts of a cut.
pub open spec fn from_pieces(zones: Seq<Record>, pieces: Seq<Piece>) -> bool {
    &&& zones.len() == pieces.len()
    &&& forall|i: int|
        0 <= i < zones.len() ==> (#[trigger] zones[i]).start == pieces[i].start
            && zones[i].buildings == pieces[i].buildings
}

proof fn lemma_firsts_increase(bins: Seq<Bin>, k: u32, pieces: Seq<Piece>, i: int, j: int)
    requires
        is_cut(bins, k, pieces),
        0 <= i < j < pieces.len(),
    ensures
        pieces[i].last <= pieces[j].first,
    decreases j - i,
{
    if i + 1 < j {
        lemma_firsts_increase(bins, k, pieces, i, j - 1);
        assert(pieces[j - 1].last == pieces[j].first);
    } else {
        assert(pieces[i].last == pieces[i + 1].first);
    }
}

/// A cut of bins that lie in order on the curve is a partition that can be
/// written: it starts at 0, it is sorted, it stays on the curve, and no zone
/// holds fewer than `k` buildings unless it is the only one.
pub proof fn law_a_cut_is_a_partition(
    level: nat,
    bins: Seq<Bin>,
    k: u32,
    pieces: Seq<Piece>,
    list: Seq<Record>,
)
    requires
        in_order(level, bins),
        bins.len() > 0,
        is_cut(bins, k, pieces),
        from_pieces(list, pieces),
    ensures
        zones::tier_fault(level, k, list) is None,
{
    let n = pieces.len() as int;
    hilbert::lemma_cells_square(level);
    assert(list[0].start == 0);
    assert forall|i: int, j: int| 0 <= i < j < list.len() implies list[i].start < list[j].start by {
        lemma_firsts_increase(bins, k, pieces, i, j);
        let p = pieces[i];
        let q = pieces[j];
        assert(list[i].start == p.start && list[j].start == q.start);
        assert(bins[0].key < bins[q.first as int].key);
        if i > 0 {
            assert(bins[p.first as int].key < bins[q.first as int].key);
        }
    }
    assert(list.last().start < hilbert::cells(level)) by {
        let q = pieces[n - 1];
        assert(list[n - 1].start == q.start);
        assert(bins[q.first as int].key < hilbert::cells(level));
    }
    if n > 1 {
        assert forall|i: int| 0 <= i < list.len() implies (#[trigger] list[i]).buildings >= k by {
            let p = pieces[i];
            if i == n - 1 {
                lemma_firsts_increase(bins, k, pieces, 0, i);
                let at = choose|at: int|
                    p.first < at <= bins.len() && #[trigger] last_zone(
                        bins,
                        k,
                        p.first as int,
                        at,
                    );
                lemma_total_joins(bins, p.first as int, at, bins.len() as int);
            } else {
                assert(pieces[i].last == pieces[i + 1].first);
            }
        }
        zones::lemma_first_short(k, list, 0, list.len() as int);
    }
}

/// Buildings in the first `n` zones of a cut.
pub open spec fn pieces_total(pieces: Seq<Piece>, n: nat) -> int
    decreases n,
{
    if n == 0 {
        0
    } else {
        pieces_total(pieces, (n - 1) as nat) + pieces[n - 1].buildings
    }
}

/// No building is lost or counted twice: the zones of a cut hold as many as the
/// bins do.
pub proof fn law_a_cut_keeps_every_building(bins: Seq<Bin>, k: u32, pieces: Seq<Piece>)
    requires
        is_cut(bins, k, pieces),
    ensures
        pieces_total(pieces, pieces.len()) == total(bins, 0, bins.len() as int),
{
    if pieces.len() > 0 {
        lemma_pieces_total(bins, k, pieces, pieces.len());
    }
}

proof fn lemma_pieces_total(bins: Seq<Bin>, k: u32, pieces: Seq<Piece>, n: nat)
    requires
        is_cut(bins, k, pieces),
        1 <= n <= pieces.len(),
    ensures
        pieces_total(pieces, n) == total(bins, 0, pieces[n - 1].last as int),
    decreases n,
{
    let p = pieces[n - 1];
    if n > 1 {
        lemma_pieces_total(bins, k, pieces, (n - 1) as nat);
        assert(pieces[n - 2].last == pieces[n - 2 + 1].first);
        lemma_total_joins(bins, 0, p.first as int, p.last as int);
    } else {
        assert(pieces_total(pieces, 0) == 0);
    }
}

/// The buildings of some cells add up.
pub proof fn law_cells_add_up(bins: Seq<Bin>, from: int, to: int)
    requires
        from <= to,
    ensures
        total(bins, from, from) == 0,
        total(bins, from, to + 1) == total(bins, from, to) + bins[to].buildings,
        total(bins, from, to) >= 0,
{
    lemma_total_joins(bins, from, from, to);
}

/// **A zone is closed with the cell that fills it.** It runs from its own first cell to
/// the first cell of the next zone, the first one from key 0, and holds what its cells
/// do. A zone with another behind it holds `k` buildings at least, and would not without
/// its last cell.
pub proof fn law_a_zone_is_closed_when_it_is_full(bins: Seq<Bin>, k: u32, pieces: Seq<Piece>, i: int)
    requires
        is_cut(bins, k, pieces),
        0 <= i < pieces.len(),
    ensures
        pieces[0].start == 0 && pieces[0].first == 0,
        pieces[pieces.len() - 1].last == bins.len(),
        i > 0 ==> pieces[i].start == bins[pieces[i].first as int].key && pieces[i].first == pieces[i - 1].last,
        pieces[i].first < pieces[i].last,
        pieces[i].buildings == total(bins, pieces[i].first as int, pieces[i].last as int),
        i + 1 < pieces.len() ==> pieces[i].buildings >= k && (pieces[i].last - pieces[i].first == 1
            || pieces[i].buildings - bins[pieces[i].last - 1].buildings < k),
{
    if i > 0 {
        assert(pieces[i - 1].last == pieces[i - 1 + 1].first);
    }
    if i + 1 < pieces.len() {
        assert(pieces[i].last == pieces[i + 1].first);
        let p = pieces[i];
        assert(total(bins, p.first as int, p.last as int) == total(bins, p.first as int, p.last - 1) + bins[p.last
            - 1].buildings);
    }
}

/// **Only what is too little for a zone of its own is added to the last one**: the cells
/// behind the one that filled it hold fewer than `k` buildings together. A last zone that
/// was never filled is the only one there is.
pub proof fn law_only_a_short_tail_is_folded_in(bins: Seq<Bin>, k: u32, pieces: Seq<Piece>)
    requires
        is_cut(bins, k, pieces),
        pieces.len() > 0,
    ensures
        pieces.last().buildings < k ==> pieces.len() == 1,
        pieces.last().buildings >= k ==> exists|at: int|
            pieces.last().first < at <= bins.len() && #[trigger] total(bins, pieces.last().first as int, at) >= k && (at
                - 1 == pieces.last().first || total(bins, pieces.last().first as int, at - 1) < k) && (at < bins.len()
                ==> total(bins, at, bins.len() as int) < k),
{
    let n = pieces.len() as int;
    let p = pieces[n - 1];
    let at = choose|at: int| p.first < at <= bins.len() && #[trigger] last_zone(bins, k, p.first as int, at);
    lemma_total_joins(bins, p.first as int, at, bins.len() as int);
    if n > 1 {
        lemma_firsts_increase(bins, k, pieces, 0, n - 1);
        assert(pieces[0].first < pieces[0].last);
    }
    assert(total(bins, p.first as int, at) >= k || p.buildings < k);
}

/// **Every cell lies in exactly one zone.**
pub proof fn law_every_cell_lies_in_one_zone(bins: Seq<Bin>, k: u32, pieces: Seq<Piece>, c: int)
    requires
        is_cut(bins, k, pieces),
        0 <= c < bins.len(),
    ensures
        exists|i: int| 0 <= i < pieces.len() && (#[trigger] pieces[i]).first <= c < pieces[i].last,
        forall|i: int, j: int|
            0 <= i < pieces.len() && 0 <= j < pieces.len() && (#[trigger] pieces[i]).first <= c < pieces[i].last && (
            #[trigger] pieces[j]).first <= c < pieces[j].last ==> i == j,
{
    lemma_a_zone_holds(bins, k, pieces, c, pieces.len());
    assert forall|i: int, j: int|
        0 <= i < pieces.len() && 0 <= j < pieces.len() && (#[trigger] pieces[i]).first <= c < pieces[i].last && (
        #[trigger] pieces[j]).first <= c < pieces[j].last implies i == j by {
        if i < j {
            lemma_firsts_increase(bins, k, pieces, i, j);
        } else if j < i {
            lemma_firsts_increase(bins, k, pieces, j, i);
        }
    }
}

proof fn lemma_a_zone_holds(bins: Seq<Bin>, k: u32, pieces: Seq<Piece>, c: int, n: nat)
    requires
        is_cut(bins, k, pieces),
        1 <= n <= pieces.len(),
        0 <= c < pieces[n - 1].last,
    ensures
        exists|i: int| 0 <= i < n && (#[trigger] pieces[i]).first <= c < pieces[i].last,
    decreases n,
{
    if pieces[n - 1].first <= c {
        assert(pieces[n - 1].first <= c < pieces[n - 1].last);
    } else {
        assert(n > 1);
        assert(pieces[n - 2].last == pieces[n - 2 + 1].first);
        lemma_a_zone_holds(bins, k, pieces, c, (n - 1) as nat);
        let i = choose|i: int| 0 <= i < n - 1 && (#[trigger] pieces[i]).first <= c < pieces[i].last;
        assert(pieces[i].first <= c < pieces[i].last);
    }
}

} // verus!
