//! Which ring is a hole in which.
//!
//! Roles are never consulted: nesting is decided by containment alone. Rings are
//! taken from the largest down, so that a ring's containers are always placed
//! before it and the nearest one is the last of them. Even depth is an outer
//! ring, odd depth is a hole in its parent, which is what makes an island in a
//! lake in an island come out as two polygons.

use crate::sort;
use crate::sort::Rank;
use vstd::prelude::*;

verus! {

/// A ring waiting for its turn: the largest first, equal ones as they came.
#[derive(Clone, Copy)]
struct Turn {
    area: u64,
    ring: usize,
}

impl Rank for Turn {
    closed spec fn rank(self) -> int {
        (u64::MAX - self.area) * 0x1_0000_0000_0000_0000 + self.ring
    }

    fn at_most(self, other: Turn) -> (r: bool) {
        self.area > other.area || (self.area == other.area && self.ring <= other.ring)
    }
}

/// Whether `order` lists every ring once, the largest first and equal ones as
/// they came.
pub open spec fn is_order(areas: Seq<u64>, order: Seq<usize>) -> bool {
    &&& order.len() == areas.len()
    &&& order.no_duplicates()
    &&& forall|p: int| 0 <= p < order.len() ==> #[trigger] order[p] < areas.len()
    &&& forall|i: int| 0 <= i < areas.len() ==> #[trigger] order.contains(i as usize)
    &&& forall|p: int, q: int|
        0 <= p < q < order.len() ==> areas[order[p] as int] > areas[order[q] as int] || (
        areas[order[p] as int] == areas[order[q] as int] && order[p] < order[q])
}

/// Whether ring `i` lies inside ring `j`.
pub open spec fn inside_of(inside: Seq<Vec<bool>>, j: usize, i: usize) -> bool {
    inside[j as int]@[i as int]
}

/// Where in the order the nearest container of the ring at `pos` stands, looking
/// back from position `from`.
pub open spec fn container(order: Seq<usize>, inside: Seq<Vec<bool>>, pos: int, from: int) -> Option<
    int,
>
    decreases from,
{
    if from <= 0 {
        None
    } else if inside_of(inside, order[from - 1], order[pos]) {
        Some(from - 1)
    } else {
        container(order, inside, pos, from - 1)
    }
}

pub proof fn lemma_container(order: Seq<usize>, inside: Seq<Vec<bool>>, pos: int, from: int)
    ensures
        container(order, inside, pos, from) matches Some(q) ==> 0 <= q < from && inside_of(
            inside,
            order[q],
            order[pos],
        ),
    decreases from,
{
    if from > 0 {
        lemma_container(order, inside, pos, from - 1);
    }
}

/// How many rings the one at `pos` is nested in, going from each to its nearest
/// container.
pub open spec fn depth(order: Seq<usize>, inside: Seq<Vec<bool>>, pos: int) -> nat
    decreases pos,
{
    match container(order, inside, pos, pos) {
        None => 0,
        Some(q) => {
            proof {
                lemma_container(order, inside, pos, pos);
            }
            depth(order, inside, q) + 1
        },
    }
}

/// Whether the ring at `pos` is an outer ring.
pub open spec fn is_outer(order: Seq<usize>, inside: Seq<Vec<bool>>, pos: int) -> bool {
    depth(order, inside, pos) % 2 == 0
}

/// Whether ring `i` is a hole in ring `outer`.
pub open spec fn is_hole_in(order: Seq<usize>, inside: Seq<Vec<bool>>, i: usize, outer: usize) -> bool {
    let pos = order.index_of(i);
    &&& !is_outer(order, inside, pos)
    &&& container(order, inside, pos, pos) matches Some(q) && order[q] == outer
}

/// The holes of ring `outer` among the first `n` rings.
pub open spec fn holes(order: Seq<usize>, inside: Seq<Vec<bool>>, outer: usize, n: nat) -> Seq<usize>
    decreases n,
{
    if n == 0 {
        Seq::empty()
    } else {
        let before = holes(order, inside, outer, (n - 1) as nat);
        if is_hole_in(order, inside, (n - 1) as usize, outer) {
            before.push((n - 1) as usize)
        } else {
            before
        }
    }
}

/// The polygons whose outer rings are among the first `n` in the order: each its
/// outer ring followed by its holes.
pub open spec fn nested(order: Seq<usize>, inside: Seq<Vec<bool>>, n: nat) -> Seq<Seq<usize>>
    decreases n,
{
    if n == 0 {
        Seq::empty()
    } else {
        let before = nested(order, inside, (n - 1) as nat);
        if is_outer(order, inside, n - 1) {
            let outer = order[n - 1];
            before.push(seq![outer] + holes(order, inside, outer, order.len()))
        } else {
            before
        }
    }
}

/// A ring's depth and its parent's differ by one: a hole's parent is an outer
/// ring, so every hole has a polygon to go to.
pub proof fn law_a_hole_has_an_outer_ring(order: Seq<usize>, inside: Seq<Vec<bool>>, pos: int)
    requires
        0 <= pos < order.len(),
        !is_outer(order, inside, pos),
    ensures
        container(order, inside, pos, pos) matches Some(q) && 0 <= q < pos && is_outer(
            order,
            inside,
            q,
        ) && inside_of(inside, order[q], order[pos]),
{
    lemma_container(order, inside, pos, pos);
}

/// The rings from the largest down.
fn by_area(areas: &Vec<u64>) -> (order: Vec<usize>)
    ensures
        is_order(areas@, order@),
{
    let n: usize = areas.len();
    let mut turns: Vec<Turn> = Vec::new();
    let mut i: usize = 0;
    while i < n
        invariant
            i <= n,
            n == areas@.len(),
            turns@ == Seq::new(i as nat, |k: int| Turn { area: areas@[k], ring: k as usize }),
        decreases n - i,
    {
        turns.push(Turn { area: areas[i], ring: i });
        i = i + 1;
        assert(turns@ =~= Seq::new(i as nat, |k: int| Turn { area: areas@[k], ring: k as usize }));
    }
    let sorted: Vec<Turn> = sort::sort(&turns);
    proof {
        assert forall|t: Turn| #[trigger] sorted@.contains(t) <==> turns@.contains(t) by {
            sort::lemma_same_values(sorted@, turns@, t);
        }
        sort::lemma_same_values(sorted@, turns@, Turn { area: 0, ring: 0 });
        assert(turns@.no_duplicates());
        vstd::seq_lib::to_multiset_len(sorted@);
        lemma_permutation_distinct(turns@, sorted@);
        assert forall|p: int| 0 <= p < sorted@.len() implies (#[trigger] sorted@[p]).ring < n
            && sorted@[p].area == areas@[sorted@[p].ring as int] by {
            assert(sorted@.contains(sorted@[p]));
            assert(turns@.contains(sorted@[p]));
            let k = choose|k: int| 0 <= k < turns@.len() && turns@[k] == sorted@[p];
        }
    }
    let mut order: Vec<usize> = Vec::new();
    let mut i: usize = 0;
    while i < n
        invariant
            i <= n,
            n == sorted@.len(),
            order@ == Seq::new(i as nat, |p: int| sorted@[p].ring),
        decreases n - i,
    {
        order.push(sorted[i].ring);
        i = i + 1;
        assert(order@ =~= Seq::new(i as nat, |p: int| sorted@[p].ring));
    }
    proof {
        assert forall|i: int| 0 <= i < areas@.len() implies #[trigger] order@.contains(
            i as usize,
        ) by {
            let t = Turn { area: areas@[i], ring: i as usize };
            assert(turns@[i] == t);
            assert(turns@.contains(t));
            assert(sorted@.contains(t));
            let p = choose|p: int| 0 <= p < sorted@.len() && sorted@[p] == t;
            assert(order@[p] == i as usize);
        }
        assert forall|p: int, q: int| 0 <= p < q < order@.len() implies areas@[order@[p] as int]
            > areas@[order@[q] as int] || (areas@[order@[p] as int] == areas@[order@[q] as int]
            && order@[p] < order@[q]) by {
            let (s, t) = (sorted@[p], sorted@[q]);
            assert(s != t);
            assert(s.rank() <= t.rank());
            if s.ring == t.ring {
                assert(s.area == t.area);
            }
            assert(s.area >= t.area && (s.area == t.area ==> s.ring <= t.ring))
                by (nonlinear_arith)
                requires
                    (u64::MAX - s.area) * 0x1_0000_0000_0000_0000 + s.ring <= (u64::MAX - t.area)
                        * 0x1_0000_0000_0000_0000 + t.ring,
                    0 <= s.ring < 0x1_0000_0000_0000_0000,
                    0 <= t.ring < 0x1_0000_0000_0000_0000,
            ;
        }
        assert(order@.no_duplicates());
    }
    order
}

proof fn lemma_permutation_distinct<T>(a: Seq<T>, b: Seq<T>)
    requires
        a.no_duplicates(),
        a.to_multiset() == b.to_multiset(),
    ensures
        b.no_duplicates(),
{
    a.lemma_multiset_has_no_duplicates();
    b.lemma_multiset_has_no_duplicates_conv();
}

/// Nest rings into polygons by containment depth. `areas` are the bits of the
/// rings' absolute areas, which order as the areas do; `inside[j][i]` says
/// whether ring `i` lies inside ring `j`. A polygon is the indices of its rings,
/// the outer one first.
pub fn classify(areas: &Vec<u64>, inside: &Vec<Vec<bool>>) -> (polys: Vec<Vec<usize>>)
    requires
        inside@.len() == areas@.len(),
        forall|j: int| 0 <= j < inside@.len() ==> (#[trigger] inside@[j])@.len() == areas@.len(),
    ensures
        exists|order: Seq<usize>| #[trigger]
            is_order(areas@, order) && polys@.map_values(|p: Vec<usize>| p@) == nested(
                order,
                inside@,
                order.len(),
            ),
{
    let n: usize = areas.len();
    let order: Vec<usize> = by_area(areas);
    // By ring: its nearest container, and whether it is an outer ring.
    let mut parent: Vec<Option<usize>> = Vec::new();
    let mut outer: Vec<bool> = Vec::new();
    let mut depths: Vec<usize> = Vec::new();
    let mut i: usize = 0;
    while i < n
        invariant
            i <= n,
            parent@.len() == i,
            outer@.len() == i,
            depths@.len() == i,
        decreases n - i,
    {
        parent.push(None);
        outer.push(true);
        depths.push(0);
        i = i + 1;
    }
    let mut pos: usize = 0;
    while pos < n
        invariant
            pos <= n,
            n == areas@.len(),
            is_order(areas@, order@),
            inside@.len() == n,
            forall|j: int| 0 <= j < inside@.len() ==> (#[trigger] inside@[j])@.len() == n,
            parent@.len() == n,
            outer@.len() == n,
            depths@.len() == n,
            forall|p: int|
                0 <= p < pos ==> depths@[(#[trigger] order@[p]) as int] == depth(
                    order@,
                    inside@,
                    p,
                ) && depths@[order@[p] as int] <= p && outer@[order@[p] as int] == is_outer(
                    order@,
                    inside@,
                    p,
                ) && parent@[order@[p] as int] == match container(order@, inside@, p, p) {
                    Some(q) => Some(order@[q]),
                    None => None,
                },
        decreases n - pos,
    {
        let ring: usize = order[pos];
        let mut back: usize = pos;
        let mut found: Option<usize> = None;
        while back > 0
            invariant_except_break
                found is None,
                container(order@, inside@, pos as int, pos as int) == container(
                    order@,
                    inside@,
                    pos as int,
                    back as int,
                ),
            invariant
                back <= pos < n,
                n == areas@.len(),
                ring == order@[pos as int],
                is_order(areas@, order@),
                inside@.len() == n,
                forall|j: int| 0 <= j < inside@.len() ==> (#[trigger] inside@[j])@.len() == n,
            ensures
                match found {
                    Some(q) => container(order@, inside@, pos as int, pos as int) == Some(q as int),
                    None => container(order@, inside@, pos as int, pos as int) is None,
                },
            decreases back,
        {
            let other: usize = order[back - 1];
            assert(inside@[other as int]@.len() == n);
            if inside[other][ring] {
                found = Some(back - 1);
                break;
            }
            back = back - 1;
        }
        proof {
            lemma_container(order@, inside@, pos as int, pos as int);
        }
        let level: usize = match found {
            Some(q) => {
                assert(depths@[order@[q as int] as int] <= q);
                depths[order[q]] + 1
            },
            None => 0,
        };
        let ghost before = (parent@, outer@, depths@);
        parent.set(
            ring,
            match found {
                Some(q) => Some(order[q]),
                None => None,
            },
        );
        outer.set(ring, level % 2 == 0);
        depths.set(ring, level);
        assert forall|p: int| 0 <= p < pos implies (#[trigger] order@[p]) != ring by {
            assert(order@[p] != order@[pos as int]);
        }
        pos = pos + 1;
    }
    // By position in the order: the polygons, with their holes in ring order.
    let mut polys: Vec<Vec<usize>> = Vec::new();
    let mut pos: usize = 0;
    assert(polys@.map_values(|p: Vec<usize>| p@) =~= nested(order@, inside@, 0));
    while pos < n
        invariant
            pos <= n,
            n == areas@.len(),
            is_order(areas@, order@),
            parent@.len() == n,
            outer@.len() == n,
            forall|p: int|
                0 <= p < n ==> outer@[(#[trigger] order@[p]) as int] == is_outer(
                    order@,
                    inside@,
                    p,
                ) && parent@[order@[p] as int] == match container(order@, inside@, p, p) {
                    Some(q) => Some(order@[q]),
                    None => None,
                },
            polys@.map_values(|p: Vec<usize>| p@) == nested(order@, inside@, pos as nat),
        decreases n - pos,
    {
        let ring: usize = order[pos];
        if outer[ring] {
            let mut poly: Vec<usize> = Vec::new();
            poly.push(ring);
            let mut i: usize = 0;
            assert(poly@ =~= seq![ring] + holes(order@, inside@, ring, 0));
            while i < n
                invariant
                    i <= n,
                    n == areas@.len(),
                    is_order(areas@, order@),
                    parent@.len() == n,
                    outer@.len() == n,
                    forall|p: int|
                        0 <= p < n ==> outer@[(#[trigger] order@[p]) as int] == is_outer(
                            order@,
                            inside@,
                            p,
                        ) && parent@[order@[p] as int] == match container(order@, inside@, p, p) {
                            Some(q) => Some(order@[q]),
                            None => None,
                        },
                    poly@ == seq![ring] + holes(order@, inside@, ring, i as nat),
                decreases n - i,
            {
                let ghost p = order@.index_of(i);
                proof {
                    assert(order@.contains(i as usize));
                    assert(order@[p] == i);
                    lemma_container(order@, inside@, p, p);
                }
                if !outer[i] && parent[i] == Some(ring) {
                    poly.push(i);
                }
                i = i + 1;
                assert(poly@ =~= seq![ring] + holes(order@, inside@, ring, i as nat));
            }
            let ghost before = polys@;
            polys.push(poly);
            assert(polys@.map_values(|p: Vec<usize>| p@) =~= before.map_values(
                |p: Vec<usize>| p@,
            ).push(poly@));
        }
        pos = pos + 1;
    }
    polys
}

/// Whether a ring has to be turned round: outer rings run counter-clockwise,
/// which is a positive area, and holes clockwise.
pub fn reversed(positive: bool, outer: bool) -> (r: bool)
    ensures
        r == (positive != outer),
{
    positive != outer
}

/// The `k`-th of the points of an `n`-cornered ring that are looked at to decide
/// whether the ring lies inside another: up to nine, spread evenly.
pub open spec fn sample(n: int, k: int) -> int {
    k * if n < 9 {
        1
    } else {
        n / 9
    }
}

/// Which points of a closed ring of `points` points, the last of them the first
/// again, to look at.
pub fn samples(points: usize) -> (at: Vec<usize>)
    requires
        points >= 2,
    ensures
        at@.len() == (if points - 1 < 9 {
            points - 1
        } else {
            9
        }),
        forall|k: int|
            0 <= k < at@.len() ==> #[trigger] at@[k] == sample(points - 1, k) && at@[k] < points
                - 1,
{
    let n: usize = points - 1;
    let count: usize = if n < 9 { n } else { 9 };
    let step: usize = if n / count > 1 { n / count } else { 1 };
    let mut at: Vec<usize> = Vec::new();
    let mut k: usize = 0;
    while k < count
        invariant
            k <= count <= 9,
            n == points - 1,
            count == (if n < 9 {
                n
            } else {
                9usize
            }),
            step == (if n < 9 {
                1
            } else {
                n / 9
            }),
            at@.len() == k,
            forall|i: int|
                0 <= i < at@.len() ==> #[trigger] at@[i] == sample(n as int, i) && at@[i] < n,
        decreases count - k,
    {
        proof {
            if n >= 9 {
                assert(k * step <= 8 * step) by (nonlinear_arith)
                    requires
                        k <= 8,
                        step >= 0,
                ;
            } else {
                assert(k * step == k) by (nonlinear_arith)
                    requires
                        step == 1,
                ;
            }
        }
        at.push(k * step);
        k = k + 1;
    }
    at
}

/// Hits among the first `n` of some looks.
pub open spec fn hits(looks: Seq<bool>, n: nat) -> int
    decreases n,
{
    if n == 0 {
        0
    } else {
        hits(looks, (n - 1) as nat) + if looks[n - 1] {
            1int
        } else {
            0
        }
    }
}

/// Whether a ring lies inside another, from whether its box does and from what
/// looking at its sampled points gave. A point on the boundary is a coin flip, so
/// the majority decides.
pub fn ring_contains(boxed: bool, looks: &Vec<bool>) -> (r: bool)
    ensures
        r == (boxed && hits(looks@, looks@.len()) * 2 > looks@.len()),
{
    if !boxed {
        return false;
    }
    let mut n: usize = 0;
    let mut i: usize = 0;
    while i < looks.len()
        invariant
            n <= i <= looks@.len(),
            n == hits(looks@, i as nat),
        decreases looks@.len() - i,
    {
        if looks[i] {
            n = n + 1;
        }
        i = i + 1;
    }
    n > looks.len() - n
}

/// Whether the ring at `q` is the nearest container of the one at `pos`: it comes
/// before it and holds it, and nothing that comes between them holds it.
pub open spec fn is_nearest(order: Seq<usize>, inside: Seq<Vec<bool>>, pos: int, q: int) -> bool {
    &&& 0 <= q < pos
    &&& inside_of(inside, order[q], order[pos])
    &&& forall|r: int| q < r < pos ==> !inside_of(inside, #[trigger] order[r], order[pos])
}

/// Whether no ring before the one at `pos` holds it.
pub open spec fn is_free(order: Seq<usize>, inside: Seq<Vec<bool>>, pos: int) -> bool {
    forall|r: int| 0 <= r < pos ==> !inside_of(inside, #[trigger] order[r], order[pos])
}

proof fn lemma_container_back(order: Seq<usize>, inside: Seq<Vec<bool>>, pos: int, from: int)
    requires
        0 <= from <= pos,
        forall|r: int| from <= r < pos ==> !inside_of(inside, #[trigger] order[r], order[pos]),
    ensures
        match container(order, inside, pos, from) {
            Some(q) => is_nearest(order, inside, pos, q),
            None => is_free(order, inside, pos),
        },
    decreases from,
{
    if from > 0 && !inside_of(inside, order[from - 1], order[pos]) {
        lemma_container_back(order, inside, pos, from - 1);
    }
}

/// **A ring belongs to the nearest ring that holds it**, and to none if none holds it.
/// Outside everything it is an outer ring, and otherwise it is one exactly where the
/// ring it belongs to is none.
pub proof fn law_the_nearest_container_decides(order: Seq<usize>, inside: Seq<Vec<bool>>, pos: int, q: int)
    requires
        0 <= pos < order.len(),
    ensures
        container(order, inside, pos, pos) == Some(q) <==> is_nearest(order, inside, pos, q),
        container(order, inside, pos, pos) is None <==> is_free(order, inside, pos),
        is_free(order, inside, pos) ==> is_outer(order, inside, pos),
        is_nearest(order, inside, pos, q) ==> is_outer(order, inside, pos) == !is_outer(order, inside, q),
{
    lemma_container_back(order, inside, pos, pos);
    if let Some(c) = container(order, inside, pos, pos) {
        assert(inside_of(inside, order[c], order[pos]));
        if is_nearest(order, inside, pos, q) {
            assert(inside_of(inside, order[q], order[pos]));
            assert(c == q);
        }
    }
}

/// The positions before `n` of the rings that hold the one at `pos`.
pub open spec fn holders(order: Seq<usize>, inside: Seq<Vec<bool>>, pos: int, n: int) -> Set<int> {
    Set::new(|r: int| 0 <= r < n && inside_of(inside, order[r], order[pos]))
}

/// Whether rings nest as rings without crossings do: what holds a ring's container
/// holds the ring, and of two rings that hold the same one the earlier holds the later.
pub open spec fn nests(order: Seq<usize>, inside: Seq<Vec<bool>>) -> bool {
    &&& forall|a: int, b: int, c: int|
        0 <= a < b < c < order.len() && #[trigger] inside_of(inside, order[a], order[b]) && #[trigger] inside_of(
            inside,
            order[b],
            order[c],
        ) ==> inside_of(inside, order[a], order[c])
    &&& forall|a: int, b: int, c: int|
        0 <= a < b < c < order.len() && #[trigger] inside_of(inside, order[a], order[c]) && #[trigger] inside_of(
            inside,
            order[b],
            order[c],
        ) ==> inside_of(inside, order[a], order[b])
}

proof fn lemma_holders_finite(order: Seq<usize>, inside: Seq<Vec<bool>>, pos: int, n: int)
    ensures
        holders(order, inside, pos, n).finite(),
    decreases n,
{
    let here = holders(order, inside, pos, n);
    if n <= 0 {
        assert(here =~= Set::empty());
    } else {
        lemma_holders_finite(order, inside, pos, n - 1);
        let before = holders(order, inside, pos, n - 1);
        if inside_of(inside, order[n - 1], order[pos]) {
            assert(here =~= before.insert(n - 1));
        } else {
            assert(here =~= before);
        }
    }
}

/// **A ring's depth is the number of rings that hold it**, where rings nest without
/// crossing: an island in a lake in an island is held by two, and so an outer ring.
pub proof fn law_depth_counts_the_holders(order: Seq<usize>, inside: Seq<Vec<bool>>, pos: int)
    requires
        0 <= pos < order.len(),
        nests(order, inside),
    ensures
        holders(order, inside, pos, pos).finite(),
        depth(order, inside, pos) == holders(order, inside, pos, pos).len(),
        is_outer(order, inside, pos) <==> holders(order, inside, pos, pos).len() % 2 == 0,
    decreases pos,
{
    let here = holders(order, inside, pos, pos);
    lemma_holders_finite(order, inside, pos, pos);
    lemma_container_back(order, inside, pos, pos);
    match container(order, inside, pos, pos) {
        None => {
            assert(here =~= Set::empty());
        },
        Some(q) => {
            law_depth_counts_the_holders(order, inside, q);
            let above = holders(order, inside, q, q);
            assert forall|r: int| here.contains(r) <==> above.insert(q).contains(r) by {
                if here.contains(r) && r != q {
                    if r > q {
                        assert(!inside_of(inside, order[r], order[pos]));
                    }
                    assert(inside_of(inside, order[r], order[pos]));
                    assert(inside_of(inside, order[q], order[pos]));
                    assert(inside_of(inside, order[r], order[q]));
                }
                if above.contains(r) {
                    assert(inside_of(inside, order[r], order[q]));
                    assert(inside_of(inside, order[q], order[pos]));
                }
            }
            assert(here =~= above.insert(q));
            assert(!above.contains(q));
        },
    }
}

proof fn lemma_holes(order: Seq<usize>, inside: Seq<Vec<bool>>, outer: usize, n: nat)
    requires
        n <= usize::MAX + 1,
    ensures
        forall|i: usize|
            #[trigger] holes(order, inside, outer, n).contains(i) <==> i < n && is_hole_in(order, inside, i, outer),
        forall|a: int, b: int|
            0 <= a < b < holes(order, inside, outer, n).len() ==> holes(order, inside, outer, n)[a] < holes(
                order,
                inside,
                outer,
                n,
            )[b],
    decreases n,
{
    if n > 0 {
        let m = (n - 1) as nat;
        lemma_holes(order, inside, outer, m);
        let before = holes(order, inside, outer, m);
        let now = holes(order, inside, outer, n);
        assert forall|a: int| 0 <= a < before.len() implies (#[trigger] before[a]) < m by {
            assert(before.contains(before[a]));
        }
        assert forall|i: usize|
            #[trigger] now.contains(i) <==> i < n && is_hole_in(order, inside, i, outer) by {
            if is_hole_in(order, inside, m as usize, outer) {
                assert(now == before.push(m as usize));
                assert(now.contains(i) <==> before.contains(i) || i == m as usize) by {
                    assert(now[before.len() as int] == m as usize);
                    if before.contains(i) {
                        let k = choose|k: int| 0 <= k < before.len() && before[k] == i;
                        assert(now[k] == i);
                    }
                    if now.contains(i) && i != m as usize {
                        let k = choose|k: int| 0 <= k < now.len() && now[k] == i;
                        assert(before[k] == i);
                    }
                }
            }
            assert(before.contains(i) <==> i < m && is_hole_in(order, inside, i, outer));
        }
    }
}

/// **A polygon's holes are the rings of odd depth whose nearest container is its outer
/// ring**, each once, in the order they came in.
pub proof fn law_a_polygon_has_its_holes(order: Seq<usize>, inside: Seq<Vec<bool>>, outer: int, hole: int)
    requires
        order.no_duplicates(),
        order.len() <= usize::MAX,
        forall|p: int| 0 <= p < order.len() ==> #[trigger] order[p] < order.len(),
        0 <= outer < order.len(),
        0 <= hole < order.len(),
    ensures
        holes(order, inside, order[outer], order.len()).contains(order[hole]) <==> is_nearest(
            order,
            inside,
            hole,
            outer,
        ) && !is_outer(order, inside, hole),
        forall|a: int, b: int|
            0 <= a < b < holes(order, inside, order[outer], order.len()).len() ==> holes(
                order,
                inside,
                order[outer],
                order.len(),
            )[a] < holes(order, inside, order[outer], order.len())[b],
{
    lemma_holes(order, inside, order[outer], order.len());
    law_the_nearest_container_decides(order, inside, hole, outer);
    lemma_container_back(order, inside, hole, hole);
    assert(order.contains(order[hole]));
    assert(order.index_of(order[hole]) == hole);
    assert(order[hole] < order.len());
}

proof fn lemma_nested(order: Seq<usize>, inside: Seq<Vec<bool>>, n: nat)
    requires
        n <= order.len(),
    ensures
        forall|k: int|
            0 <= k < nested(order, inside, n).len() ==> (#[trigger] nested(order, inside, n)[k]).len() >= 1
                && nested(order, inside, n)[k].skip(1) == holes(
                order,
                inside,
                nested(order, inside, n)[k][0],
                order.len(),
            ),
        nested(order, inside, n).map_values(|poly: Seq<usize>| poly[0]) == Seq::new(n, |p: int| p).filter(
            |p: int| is_outer(order, inside, p),
        ).map_values(|p: int| order[p]),
    decreases n,
{
    reveal(Seq::filter);
    let ring = |poly: Seq<usize>| poly[0];
    let at = |p: int| order[p];
    let outside = |p: int| is_outer(order, inside, p);
    let places = Seq::new(n, |p: int| p);
    if n == 0 {
        assert(places =~= Seq::empty());
        assert(nested(order, inside, n).map_values(ring) =~= places.filter(outside).map_values(at));
    } else {
        let m = (n - 1) as nat;
        lemma_nested(order, inside, m);
        let before = nested(order, inside, m);
        let now = nested(order, inside, n);
        let earlier = Seq::new(m, |p: int| p);
        assert(places.drop_last() =~= earlier);
        assert(places.last() == n - 1);
        if is_outer(order, inside, n - 1) {
            let poly = seq![order[n - 1]] + holes(order, inside, order[n - 1], order.len());
            assert(now == before.push(poly));
            assert(poly.skip(1) =~= holes(order, inside, order[n - 1], order.len()));
            assert(now.map_values(ring) =~= before.map_values(ring).push(order[n - 1]));
            assert(places.filter(outside) == earlier.filter(outside).push(n - 1));
            assert(places.filter(outside).map_values(at) =~= earlier.filter(outside).map_values(at).push(
                order[n - 1],
            ));
        } else {
            assert(places.filter(outside) == earlier.filter(outside));
        }
    }
}

/// **There is a polygon to each ring of even depth**, from the largest down, and what
/// follows its outer ring are the holes of that ring.
pub proof fn law_every_outer_ring_gets_its_polygon(order: Seq<usize>, inside: Seq<Vec<bool>>)
    ensures
        nested(order, inside, order.len()).map_values(|poly: Seq<usize>| poly[0]) == Seq::new(
            order.len(),
            |p: int| p,
        ).filter(|p: int| is_outer(order, inside, p)).map_values(|p: int| order[p]),
        forall|k: int|
            0 <= k < nested(order, inside, order.len()).len() ==> {
                let poly = #[trigger] nested(order, inside, order.len())[k];
                poly.len() >= 1 && poly.skip(1) == holes(order, inside, poly[0], order.len())
            },
{
    lemma_nested(order, inside, order.len());
}

proof fn lemma_hits(looks: Seq<bool>, n: nat)
    requires
        n <= looks.len(),
    ensures
        hits(looks, n) == looks.take(n as int).filter(|hit: bool| hit).len(),
    decreases n,
{
    reveal(Seq::filter);
    if n > 0 {
        lemma_hits(looks, (n - 1) as nat);
        assert(looks.take(n as int).drop_last() =~= looks.take(n - 1));
    }
}

/// Every look that hit counts once, and no other.
pub proof fn law_hits_are_counted(looks: Seq<bool>)
    ensures
        hits(looks, looks.len()) == looks.filter(|hit: bool| hit).len(),
{
    lemma_hits(looks, looks.len());
    assert(looks.take(looks.len() as int) =~= looks);
}

/// **The looks are spread over the whole ring.** A ring of fewer than nine corners has
/// every corner looked at; of a larger one the stretch between two looks is the longest
/// with which nine of them fit.
pub proof fn law_looks_are_spread_evenly(corners: int, k: int)
    requires
        corners >= 1,
        0 <= k,
    ensures
        sample(corners, 0) == 0,
        corners < 9 ==> sample(corners, k) == k,
        corners >= 9 ==> {
            let stretch = sample(corners, k + 1) - sample(corners, k);
            9 * stretch <= corners < 9 * (stretch + 1)
        },
{
    if corners >= 9 {
        let step = corners / 9;
        assert((k + 1) * step - k * step == step) by (nonlinear_arith);
    }
}

} // verus!
