//! Turning the member ways of a multipolygon into closed rings.
//!
//! This works on *segments*, not on whole ways. Two members that run along the
//! same wall describe one shape with the wall inside it, and the wall has to
//! disappear: segments that appear twice cancel, and what is left is chained end
//! to end. Points are packed locations, so that two nodes at one coordinate
//! still meet.

use crate::sort;
use crate::sort::Rank;
use std::collections::HashMap;
use vstd::prelude::*;

verus! {

broadcast use vstd::std_specs::hash::group_hash_axioms;

/// A stretch between two different points, without a direction: the smaller
/// point comes first.
#[derive(Clone, Copy, Debug, PartialEq, Eq, Structural)]
pub struct Segment {
    pub a: u64,
    pub b: u64,
}

/// Segments go by their first point, and by their second where that is the same.
impl Rank for Segment {
    open spec fn rank(self) -> int {
        self.a * 0x1_0000_0000_0000_0000 + self.b
    }

    fn at_most(self, other: Segment) -> (r: bool) {
        self.a < other.a || (self.a == other.a && self.b <= other.b)
    }
}

/// The segment between two points.
pub open spec fn between(p: u64, q: u64) -> Segment {
    if p < q {
        Segment { a: p, b: q }
    } else {
        Segment { a: q, b: p }
    }
}

/// The segments along the first `n` points of a way. Two nodes at one place are
/// not a segment.
pub open spec fn steps(way: Seq<u64>, n: nat) -> Seq<Segment>
    decreases n,
{
    if n < 2 {
        Seq::empty()
    } else {
        let before = steps(way, (n - 1) as nat);
        if way[n - 2] == way[n - 1] {
            before
        } else {
            before.push(between(way[n - 2], way[n - 1]))
        }
    }
}

/// The segments along the first `n` of some ways.
pub open spec fn all_steps(ways: Seq<Seq<u64>>, n: nat) -> Seq<Segment>
    decreases n,
{
    if n == 0 {
        Seq::empty()
    } else {
        all_steps(ways, (n - 1) as nat) + steps(ways[n - 1], ways[n - 1].len())
    }
}

/// Whether each segment comes strictly after the one before it.
pub open spec fn ascending(s: Seq<Segment>) -> bool {
    forall|i: int, j: int| 0 <= i < j < s.len() ==> s[i].rank() < s[j].rank()
}

/// Whether `kept` is the outline the walls leave: duplicates cancel in pairs, so
/// what stays is each segment that appears an odd number of times, once, in
/// order.
pub open spec fn is_outline(walls: Seq<Segment>, kept: Seq<Segment>) -> bool {
    &&& ascending(kept)
    &&& forall|s: Segment| #[trigger] kept.contains(s) <==> walls.to_multiset().count(s) % 2 == 1
}

pub open spec fn touches(s: Segment, v: u64) -> bool {
    s.a == v || s.b == v
}

/// The end of a segment that is not `v`.
pub open spec fn other_end(s: Segment, v: u64) -> u64 {
    if s.a == v {
        s.b
    } else {
        s.a
    }
}

/// The first unused segment from index `from` on that ends at `v`.
pub open spec fn next_at(kept: Seq<Segment>, used: Seq<bool>, v: u64, from: int) -> Option<int>
    decreases kept.len() - from,
{
    if 0 <= from < kept.len() {
        if !used[from] && touches(kept[from], v) {
            Some(from)
        } else {
            next_at(kept, used, v, from + 1)
        }
    } else {
        None
    }
}

/// How many of the first `n` segments are unused.
pub open spec fn unused(used: Seq<bool>, n: nat) -> nat
    decreases n,
{
    if n == 0 {
        0
    } else {
        unused(used, (n - 1) as nat) + if used[n - 1] {
            0nat
        } else {
            1
        }
    }
}

pub proof fn lemma_use_one(used: Seq<bool>, n: nat, k: int)
    requires
        n <= used.len(),
        0 <= k < used.len(),
        !used[k],
    ensures
        unused(used.update(k, true), n) == unused(used, n) - if k < n {
            1int
        } else {
            0
        },
    decreases n,
{
    if n > 0 {
        lemma_use_one(used, (n - 1) as nat, k);
    }
}

pub proof fn lemma_next_at(kept: Seq<Segment>, used: Seq<bool>, v: u64, from: int)
    requires
        0 <= from,
    ensures
        match next_at(kept, used, v, from) {
            Some(k) => {
                &&& from <= k < kept.len()
                &&& !used[k]
                &&& touches(kept[k], v)
            },
            None => forall|k: int|
                from <= k < kept.len() && touches(#[trigger] kept[k], v) ==> used[k],
        },
    decreases kept.len() - from,
{
    if from < kept.len() {
        lemma_next_at(kept, used, v, from + 1);
    }
}

/// Follows unused segments from the end of `ring` until it is back at its start.
/// `None` where there is no way on.
pub open spec fn close(kept: Seq<Segment>, used: Seq<bool>, ring: Seq<u64>) -> Option<
    (Seq<u64>, Seq<bool>),
>
    decreases unused(used, used.len()),
{
    if ring.len() == 0 || used.len() != kept.len() {
        None
    } else if ring.last() == ring[0] {
        Some((ring, used))
    } else {
        let tail = ring.last();
        match next_at(kept, used, tail, 0) {
            None => None,
            Some(k) => {
                proof {
                    lemma_next_at(kept, used, tail, 0);
                    lemma_use_one(used, used.len(), k);
                }
                close(kept, used.update(k, true), ring.push(other_end(kept[k], tail)))
            },
        }
    }
}

/// The rings that start at the unused segments from index `start` on, in order.
/// A ring needs three corners and the repeated first point. `None` where one of
/// them cannot be closed.
pub open spec fn trace(kept: Seq<Segment>, used: Seq<bool>, start: int) -> Option<Seq<Seq<u64>>>
    decreases kept.len() - start,
{
    if !(0 <= start < kept.len()) {
        Some(Seq::empty())
    } else if used[start] {
        trace(kept, used, start + 1)
    } else {
        match close(kept, used.update(start, true), seq![kept[start].a, kept[start].b]) {
            None => None,
            Some((ring, after)) => match trace(kept, after, start + 1) {
                None => None,
                Some(rings) => if ring.len() >= 4 {
                    Some(seq![ring] + rings)
                } else {
                    Some(rings)
                },
            },
        }
    }
}

pub open spec fn none_used(kept: Seq<Segment>) -> Seq<bool> {
    Seq::new(kept.len(), |i: int| false)
}

/// The rings an outline is made of.
pub open spec fn traced(kept: Seq<Segment>) -> Option<Seq<Seq<u64>>> {
    trace(kept, none_used(kept), 0)
}

/// Lists as plain sequences.
pub open spec fn lists(ways: Seq<Vec<u64>>) -> Seq<Seq<u64>> {
    ways.map_values(|w: Vec<u64>| w@)
}

/// Optional lists as plain sequences.
pub open spec fn rings_of(rings: Option<Vec<Vec<u64>>>) -> Option<Seq<Seq<u64>>> {
    match rings {
        Some(rings) => Some(lists(rings@)),
        None => None,
    }
}

/// Whether these are the rings some ways are assembled into: what the outline of
/// their segments is made of.
pub open spec fn assembled(ways: Seq<Seq<u64>>, rings: Option<Seq<Seq<u64>>>) -> bool {
    exists|kept: Seq<Segment>| #[trigger]
        is_outline(all_steps(ways, ways.len()), kept) && rings == traced(kept)
}

proof fn lemma_rank_injective(p: Segment, q: Segment)
    requires
        p.rank() == q.rank(),
    ensures
        p == q,
{
    assert(p.a == q.a && p.b == q.b) by (nonlinear_arith)
        requires
            p.a * 0x1_0000_0000_0000_0000 + p.b == q.a * 0x1_0000_0000_0000_0000 + q.b,
            0 <= p.b < 0x1_0000_0000_0000_0000,
            0 <= q.b < 0x1_0000_0000_0000_0000,
    ;
}

/// There is one outline to a set of walls.
pub proof fn law_the_outline_is_unique(walls: Seq<Segment>, p: Seq<Segment>, q: Seq<Segment>)
    requires
        is_outline(walls, p),
        is_outline(walls, q),
    ensures
        p == q,
{
    lemma_same_outline(p, q);
}

proof fn lemma_same_outline(p: Seq<Segment>, q: Seq<Segment>)
    requires
        ascending(p),
        ascending(q),
        forall|s: Segment| #[trigger] p.contains(s) <==> q.contains(s),
    ensures
        p == q,
    decreases p.len() + q.len(),
{
    if p.len() == 0 {
        if q.len() > 0 {
            assert(q.contains(q[0]));
            assert(p.contains(q[0]));
        }
        assert(p =~= q);
    } else if q.len() == 0 {
        assert(p.contains(p[0]));
        assert(q.contains(p[0]));
    } else {
        assert(p[p.len() - 1] == p.last() && q[q.len() - 1] == q.last());
        assert(p.contains(p.last()));
        assert(q.contains(p.last()));
        let i = choose|i: int| 0 <= i < q.len() && q[i] == p.last();
        assert(q.contains(q.last()));
        assert(p.contains(q.last()));
        let j = choose|j: int| 0 <= j < p.len() && p[j] == q.last();
        assert(i == q.len() - 1 || q[i].rank() < q.last().rank());
        assert(j == p.len() - 1 || p[j].rank() < p.last().rank());
        let (a, b) = (p.drop_last(), q.drop_last());
        assert forall|s: Segment| #[trigger] a.contains(s) <==> b.contains(s) by {
            if a.contains(s) {
                let k = choose|k: int| 0 <= k < a.len() && a[k] == s;
                assert(p[k] == s);
                assert(p.contains(s));
                let m = choose|m: int| 0 <= m < q.len() && q[m] == s;
                assert(m < q.len() - 1);
                assert(b[m] == s);
            }
            if b.contains(s) {
                let k = choose|k: int| 0 <= k < b.len() && b[k] == s;
                assert(q[k] == s);
                assert(q.contains(s));
                assert(p.contains(s));
                let m = choose|m: int| 0 <= m < p.len() && p[m] == s;
                assert(m < p.len() - 1);
                assert(a[m] == s);
            }
        }
        lemma_same_outline(a, b);
        assert(p =~= a.push(p.last()));
        assert(q =~= b.push(q.last()));
    }
}

/// Every segment along some ways, one after another.
fn collect(parts: &Vec<Vec<u64>>) -> (out: Vec<Segment>)
    ensures
        out@ == all_steps(lists(parts@), parts@.len()),
{
    let mut out: Vec<Segment> = Vec::new();
    let mut i: usize = 0;
    while i < parts.len()
        invariant
            i <= parts@.len(),
            out@ == all_steps(lists(parts@), i as nat),
        decreases parts@.len() - i,
    {
        let part: &Vec<u64> = &parts[i];
        let ghost before = out@;
        assert(lists(parts@)[i as int] == part@);
        let mut j: usize = 1;
        assert(before + steps(part@, 1) =~= before);
        while j < part.len()
            invariant
                1 <= j,
                j <= part@.len() || (j == 1 && part@.len() == 0),
                out@ == before + steps(part@, j as nat),
            decreases part@.len() - j,
        {
            let p: u64 = part[j - 1];
            let q: u64 = part[j];
            if p != q {
                out.push(if p < q { Segment { a: p, b: q } } else { Segment { a: q, b: p } });
            }
            j = j + 1;
            assert(out@ =~= before + steps(part@, j as nat));
        }
        assert(steps(part@, j as nat) =~= steps(part@, part@.len()));
        i = i + 1;
    }
    out
}

/// The segments that are left when duplicates have cancelled in pairs.
fn cancel(walls: &Vec<Segment>) -> (kept: Vec<Segment>)
    ensures
        is_outline(walls@, kept@),
{
    let run: Vec<Segment> = sort::sort(walls);
    let mut kept: Vec<Segment> = Vec::new();
    let mut i: usize = 0;
    proof {
        assert forall|s: Segment| #[trigger] kept@.contains(s) <==> run@.take(
            0,
        ).to_multiset().count(s) % 2 == 1 by {
            vstd::seq_lib::to_multiset_contains(run@.take(0), s);
        }
    }
    while i < run.len()
        invariant
            i <= run@.len(),
            sort::sorted(run@),
            ascending(kept@),
            forall|p: int, q: int|
                0 <= p < kept@.len() && i <= q < run@.len() ==> (#[trigger] kept@[p]).rank() < (
                #[trigger] run@[q]).rank(),
            forall|p: int, q: int|
                0 <= p < i <= q < run@.len() ==> (#[trigger] run@[p]).rank() < (
                #[trigger] run@[q]).rank(),
            forall|s: Segment| #[trigger]
                kept@.contains(s) <==> run@.take(i as int).to_multiset().count(s) % 2 == 1,
        decreases run@.len() - i,
    {
        let ghost before = kept@;
        let head: Segment = run[i];
        let mut j: usize = i;
        while j < run.len() && run[j] == head
            invariant
                i <= j <= run@.len(),
                head == run@[i as int],
                forall|k: int| i <= k < j ==> #[trigger] run@[k] == head,
            decreases run@.len() - j,
        {
            j = j + 1;
        }
        if (j - i) % 2 == 1 {
            kept.push(head);
        }
        proof {
            lemma_run_counts(run@, i as int, j as int, head);
            assert forall|p: int, q: int| 0 <= p < j <= q < run@.len() implies (
            #[trigger] run@[p]).rank() < (#[trigger] run@[q]).rank() by {
                if p >= i {
                    assert(run@[p] == head);
                    assert(run@[j as int] != head);
                    if run@[j as int].rank() == head.rank() {
                        lemma_rank_injective(run@[j as int], head);
                    }
                    assert(j == q || run@[j as int].rank() <= run@[q].rank());
                    assert(run@[i as int].rank() <= run@[j as int].rank());
                }
            }
            assert forall|s: Segment| #[trigger] kept@.contains(s) <==> run@.take(
                j as int,
            ).to_multiset().count(s) % 2 == 1 by {
                lemma_not_before(run@, i as int, head);
                if s == head {
                    if (j - i) % 2 == 1 {
                        assert(kept@[before.len() as int] == head);
                    } else {
                        assert(kept@ == before);
                    }
                    assert(before.contains(s) <==> run@.take(i as int).to_multiset().count(s) % 2
                        == 1);
                } else {
                    assert(before.contains(s) <==> kept@.contains(s)) by {
                        if before.contains(s) {
                            let k = choose|k: int| 0 <= k < before.len() && before[k] == s;
                            assert(kept@[k] == s);
                        }
                        if kept@.contains(s) {
                            let k = choose|k: int| 0 <= k < kept@.len() && kept@[k] == s;
                            assert(before[k] == s);
                        }
                    }
                }
            }
            assert(i < j);
        }
        i = j;
    }
    assert(run@.take(run@.len() as int) =~= run@);
    kept
}

/// Taking a run of equal segments adds its length to that segment's count.
proof fn lemma_run_counts(run: Seq<Segment>, i: int, j: int, head: Segment)
    requires
        0 <= i <= j <= run.len(),
        forall|k: int| i <= k < j ==> #[trigger] run[k] == head,
    ensures
        forall|s: Segment| #[trigger]
            run.take(j).to_multiset().count(s) == run.take(i).to_multiset().count(s) + if s
                == head {
                j - i
            } else {
                0
            },
    decreases j - i,
{
    broadcast use vstd::multiset::group_multiset_axioms;

    if i < j {
        lemma_run_counts(run, i, j - 1, head);
        assert(run.take(j) =~= run.take(j - 1).push(head));
        vstd::seq_lib::to_multiset_build(run.take(j - 1), head);
    }
}

/// A segment that starts a run has not been seen before it.
proof fn lemma_not_before(run: Seq<Segment>, i: int, head: Segment)
    requires
        0 <= i < run.len(),
        head == run[i],
        forall|p: int| 0 <= p < i ==> (#[trigger] run[p]).rank() < run[i].rank(),
    ensures
        run.take(i).to_multiset().count(head) == 0,
{
    vstd::seq_lib::to_multiset_contains(run.take(i), head);
    if run.take(i).contains(head) {
        let p = choose|p: int| 0 <= p < i && run.take(i)[p] == head;
        assert(run[p] == head);
    }
}

/// Whether `ends` lists, under each point, the first `n` segments that end there,
/// in order.
spec fn lists_ends(ends: Map<u64, Vec<usize>>, kept: Seq<Segment>, n: int) -> bool {
    &&& forall|v: u64, i: int, j: int|
        ends.contains_key(v) && 0 <= i < j < ends[v]@.len() ==> (#[trigger] ends[v]@[i]) < (
        #[trigger] ends[v]@[j])
    &&& forall|v: u64, i: int|
        ends.contains_key(v) && 0 <= i < ends[v]@.len() ==> (#[trigger] ends[v]@[i]) < n && touches(
            kept[ends[v]@[i] as int],
            v,
        )
    &&& forall|v: u64, k: int|
        0 <= k < n && #[trigger] touches(kept[k], v) ==> ends.contains_key(v)
            && ends[v]@.contains(k as usize)
}

fn add_end(ends: &mut HashMap<u64, Vec<usize>>, v: u64, k: usize)
    ensures
        final(ends)@.dom() == old(ends)@.dom().insert(v),
        forall|w: u64| w != v && old(ends)@.contains_key(w) ==> #[trigger] final(ends)@[w]
            == old(ends)@[w],
        final(ends)@[v]@ == (if old(ends)@.contains_key(v) {
            old(ends)@[v]@
        } else {
            Seq::empty()
        }).push(k),
{
    match ends.remove(&v) {
        Some(list) => {
            let mut list = list;
            list.push(k);
            ends.insert(v, list);
        },
        None => {
            let mut list: Vec<usize> = Vec::new();
            list.push(k);
            ends.insert(v, list);
        },
    }
    assert(ends@.dom() =~= old(ends)@.dom().insert(v));
}

/// Which segments end at each point, so that following a ring is a lookup.
fn index_ends(kept: &Vec<Segment>) -> (ends: HashMap<u64, Vec<usize>>)
    requires
        forall|i: int| 0 <= i < kept@.len() ==> (#[trigger] kept@[i]).a != kept@[i].b,
    ensures
        lists_ends(ends@, kept@, kept@.len() as int),
{
    let mut ends: HashMap<u64, Vec<usize>> = HashMap::new();
    let mut k: usize = 0;
    while k < kept.len()
        invariant
            k <= kept@.len(),
            forall|i: int| 0 <= i < kept@.len() ==> (#[trigger] kept@[i]).a != kept@[i].b,
            lists_ends(ends@, kept@, k as int),
        decreases kept@.len() - k,
    {
        let s: Segment = kept[k];
        let ghost before = ends@;
        assert(kept@[k as int].a != kept@[k as int].b);
        add_end(&mut ends, s.a, k);
        let ghost half = ends@;
        add_end(&mut ends, s.b, k);
        proof {
            let now = ends@;
            assert forall|v: u64| touches(s, v) implies now.contains_key(v) && now[v]@ == (
            if before.contains_key(v) {
                before[v]@
            } else {
                Seq::empty()
            }).push(k) by {
                assert(half.dom().contains(s.a));
                assert(now.dom().contains(v));
                if v == s.a {
                    assert(now[v] == half[v]);
                } else {
                    assert(half.dom().contains(v) == before.dom().contains(v));
                    if before.contains_key(v) {
                        assert(half[v] == before[v]);
                    }
                }
            }
            assert forall|v: u64| !touches(s, v) && now.contains_key(v) implies
                before.contains_key(v) && now[v] == before[v] by {
                assert(half.dom().contains(v));
                assert(before.dom().contains(v));
                assert(half[v] == before[v]);
                assert(now[v] == half[v]);
            }
            assert forall|v: u64| #[trigger] before.contains_key(v) implies now.contains_key(v) by {
                assert(before.dom().contains(v));
                assert(half.dom().contains(v));
                assert(now.dom().contains(v));
            }
            assert forall|v: u64, i: int, j: int|
                now.contains_key(v) && 0 <= i < j < now[v]@.len() implies (#[trigger] now[v]@[i])
                < (#[trigger] now[v]@[j]) by {
                if touches(s, v) {
                    if before.contains_key(v) {
                        assert(now[v]@[i] == before[v]@[i]);
                        assert(before[v]@[i] < k);
                        if j < before[v]@.len() {
                            assert(now[v]@[j] == before[v]@[j]);
                        }
                    }
                }
            }
            assert forall|v: u64, i: int| now.contains_key(v) && 0 <= i < now[v]@.len() implies (
            #[trigger] now[v]@[i]) < k + 1 && touches(kept@[now[v]@[i] as int], v) by {
                if touches(s, v) {
                    if before.contains_key(v) && i < before[v]@.len() {
                        assert(now[v]@[i] == before[v]@[i]);
                    }
                }
            }
            assert forall|v: u64, m: int|
                0 <= m < k + 1 && #[trigger] touches(kept@[m], v) implies now.contains_key(v)
                && now[v]@.contains(m as usize) by {
                if m < k {
                    assert(before.contains_key(v) && before[v]@.contains(m as usize));
                    let i = choose|i: int| 0 <= i < before[v]@.len() && before[v]@[i] == m as usize;
                    if touches(s, v) {
                        assert(now[v]@[i] == m as usize);
                    }
                } else {
                    assert(now[v]@.last() == k);
                }
            }
        }
        k = k + 1;
    }
    ends
}

/// The first unused segment that ends at `v`.
fn find_next(
    ends: &HashMap<u64, Vec<usize>>,
    kept: &Vec<Segment>,
    used: &Vec<bool>,
    v: u64,
) -> (r: Option<usize>)
    requires
        used@.len() == kept@.len(),
        lists_ends(ends@, kept@, kept@.len() as int),
    ensures
        match next_at(kept@, used@, v, 0) {
            Some(k) => r is Some && r.unwrap() == k,
            None => r is None,
        },
{
    let n: usize = kept.len();
    match ends.get(&v) {
        None => {
            proof {
                lemma_next_at(kept@, used@, v, 0);
                if let Some(m) = next_at(kept@, used@, v, 0) {
                    assert(touches(kept@[m], v));
                }
            }
            None
        },
        Some(list) => {
            let mut i: usize = 0;
            while i < list.len()
                invariant
                    i <= list@.len(),
                    ends@.contains_key(v),
                    *list == ends@[v],
                    used@.len() == kept@.len(),
                    lists_ends(ends@, kept@, kept@.len() as int),
                    forall|j: int| 0 <= j < i ==> used@[(#[trigger] list@[j]) as int],
                decreases list@.len() - i,
            {
                let k: usize = list[i];
                assert(ends@[v]@[i as int] == k);
                if !used[k] {
                    proof {
                        assert forall|m: int| 0 <= m < k && #[trigger] touches(
                            kept@[m],
                            v,
                        ) implies used@[m] by {
                            assert(ends@[v]@.contains(m as usize));
                            let j = choose|j: int|
                                0 <= j < ends@[v]@.len() && ends@[v]@[j] == m as usize;
                            assert(j < i) by {
                                if j > i {
                                    assert(ends@[v]@[i as int] < ends@[v]@[j]);
                                }
                            }
                            assert(used@[list@[j] as int]);
                        }
                        lemma_next_is(kept@, used@, v, 0, k as int);
                    }
                    return Some(k);
                }
                i = i + 1;
            }
            proof {
                lemma_next_at(kept@, used@, v, 0);
                if let Some(m) = next_at(kept@, used@, v, 0) {
                    assert(touches(kept@[m], v));
                    assert(ends@[v]@.contains(m as usize));
                    let j = choose|j: int| 0 <= j < ends@[v]@.len() && ends@[v]@[j] == m as usize;
                    assert(used@[list@[j] as int]);
                }
            }
            None
        },
    }
}

proof fn lemma_next_is(kept: Seq<Segment>, used: Seq<bool>, v: u64, from: int, k: int)
    requires
        0 <= from <= k < kept.len(),
        !used[k],
        touches(kept[k], v),
        forall|m: int| from <= m < k && #[trigger] touches(kept[m], v) ==> used[m],
    ensures
        next_at(kept, used, v, from) == Some(k),
    decreases k - from,
{
    if from < k {
        if touches(kept[from], v) {
            assert(used[from]);
        }
        lemma_next_is(kept, used, v, from + 1, k);
    }
}

proof fn lemma_outline_is_proper(ways: Seq<Seq<u64>>, kept: Seq<Segment>)
    requires
        is_outline(all_steps(ways, ways.len()), kept),
    ensures
        forall|i: int| 0 <= i < kept.len() ==> (#[trigger] kept[i]).a < kept[i].b,
{
    let walls = all_steps(ways, ways.len());
    lemma_walls_proper(ways, ways.len());
    assert forall|i: int| 0 <= i < kept.len() implies (#[trigger] kept[i]).a < kept[i].b by {
        assert(kept.contains(kept[i]));
        vstd::seq_lib::to_multiset_contains(walls, kept[i]);
        assert(walls.contains(kept[i]));
    }
}

proof fn lemma_walls_proper(ways: Seq<Seq<u64>>, n: nat)
    ensures
        forall|i: int|
            0 <= i < all_steps(ways, n).len() ==> (#[trigger] all_steps(ways, n)[i]).a < all_steps(
                ways,
                n,
            )[i].b,
    decreases n,
{
    if n > 0 {
        let before = all_steps(ways, (n - 1) as nat);
        let last = steps(ways[n - 1], ways[n - 1].len());
        let all = all_steps(ways, n);
        lemma_walls_proper(ways, (n - 1) as nat);
        lemma_steps_proper(ways[n - 1], ways[n - 1].len());
        assert forall|i: int| 0 <= i < all.len() implies (#[trigger] all[i]).a < all[i].b by {
            if i < before.len() {
                assert(all[i] == before[i]);
            } else {
                assert(all[i] == last[i - before.len()]);
            }
        }
    }
}

proof fn lemma_steps_proper(way: Seq<u64>, n: nat)
    ensures
        forall|i: int|
            0 <= i < steps(way, n).len() ==> (#[trigger] steps(way, n)[i]).a < steps(way, n)[i].b,
    decreases n,
{
    if n >= 2 {
        let before = steps(way, (n - 1) as nat);
        let all = steps(way, n);
        lemma_steps_proper(way, (n - 1) as nat);
        assert forall|i: int| 0 <= i < all.len() implies (#[trigger] all[i]).a < all[i].b by {
            if i < before.len() {
                assert(all[i] == before[i]);
            }
        }
    }
}

/// Turn the member ways of a multipolygon into closed rings.
///
/// `None` if what is left after cancelling cannot be closed: a broken area is
/// refused rather than shipped as a plausible-looking wrong shape.
pub fn assemble_rings(parts: Vec<Vec<u64>>) -> (r: Option<Vec<Vec<u64>>>)
    ensures
        assembled(lists(parts@), rings_of(r)),
{
    let walls: Vec<Segment> = collect(&parts);
    let kept: Vec<Segment> = cancel(&walls);
    proof {
        assert(lists(parts@).len() == parts@.len());
        lemma_outline_is_proper(lists(parts@), kept@);
    }
    let ends: HashMap<u64, Vec<usize>> = index_ends(&kept);
    let n: usize = kept.len();
    let mut used: Vec<bool> = Vec::new();
    while used.len() < n
        invariant
            used@.len() <= n,
            n == kept@.len(),
            used@ == Seq::new(used@.len(), |i: int| false),
        decreases n - used@.len(),
    {
        used.push(false);
        assert(used@ =~= Seq::new(used@.len(), |i: int| false));
    }
    let ghost goal = traced(kept@);
    let mut rings: Vec<Vec<u64>> = Vec::new();
    let mut start: usize = 0;
    proof {
        assert(used@ =~= none_used(kept@));
        assert(lists(rings@) =~= Seq::<Seq<u64>>::empty());
        if let Some(all) = goal {
            assert(lists(rings@) + all =~= all);
        }
    }
    while start < n
        invariant
            start <= n,
            n == kept@.len(),
            used@.len() == n,
            walls@ == all_steps(lists(parts@), parts@.len()),
            is_outline(walls@, kept@),
            lists_ends(ends@, kept@, kept@.len() as int),
            goal == traced(kept@),
            match trace(kept@, used@, start as int) {
                None => goal is None,
                Some(rest) => goal == Some(lists(rings@) + rest),
            },
        decreases n - start,
    {
        if !used[start] {
            used.set(start, true);
            let first: u64 = kept[start].a;
            let mut ring: Vec<u64> = Vec::new();
            ring.push(first);
            ring.push(kept[start].b);
            let ghost closing = close(kept@, used@, ring@);
            assert(ring@ =~= seq![kept@[start as int].a, kept@[start as int].b]);
            let mut tail: u64 = kept[start].b;
            while tail != first
                invariant
                    n == kept@.len(),
                    used@.len() == n,
                    ring@.len() >= 2,
                    ring@[0] == first,
                    ring@.last() == tail,
                    walls@ == all_steps(lists(parts@), parts@.len()),
                    is_outline(walls@, kept@),
                    lists_ends(ends@, kept@, kept@.len() as int),
                    closing == close(kept@, used@, ring@),
                    goal == traced(kept@),
                    closing is None ==> goal is None,
                decreases unused(used@, used@.len()),
            {
                let next: usize = match find_next(&ends, &kept, &used, tail) {
                    Some(k) => k,
                    None => {
                        assert(lists(parts@).len() == parts@.len());
                        return None;
                    },
                };
                proof {
                    lemma_next_at(kept@, used@, tail, 0);
                    lemma_use_one(used@, used@.len(), next as int);
                }
                used.set(next, true);
                let s: Segment = kept[next];
                tail = if s.a == tail { s.b } else { s.a };
                ring.push(tail);
            }
            let ghost before = lists(rings@);
            if ring.len() >= 4 {
                rings.push(ring);
                proof {
                    assert(lists(rings@) =~= before.push(ring@));
                    if let Some(rest) = trace(kept@, used@, start + 1) {
                        assert(before + (seq![ring@] + rest) =~= lists(rings@) + rest);
                    }
                }
            }
        }
        start = start + 1;
    }
    proof {
        assert(lists(rings@) + Seq::<Seq<u64>>::empty() =~= lists(rings@));
        assert(lists(parts@).len() == parts@.len());
    }
    Some(rings)
}

// What the rings are.

/// How many of the first `n` segments are unused and end at `v`.
pub open spec fn degree(kept: Seq<Segment>, used: Seq<bool>, v: u64, n: nat) -> int
    decreases n,
{
    if n == 0 {
        0
    } else {
        degree(kept, used, v, (n - 1) as nat) + if !used[n - 1] && touches(kept[n - 1], v) {
            1int
        } else {
            0
        }
    }
}

/// Whether an even number of unused segments end at every point.
pub open spec fn all_even(kept: Seq<Segment>, used: Seq<bool>) -> bool {
    forall|v: u64| #[trigger] degree(kept, used, v, kept.len()) % 2 == 0
}

proof fn lemma_degree_use(kept: Seq<Segment>, used: Seq<bool>, v: u64, n: nat, k: int)
    requires
        n <= kept.len(),
        used.len() == kept.len(),
        0 <= k < used.len(),
        !used[k],
    ensures
        degree(kept, used.update(k, true), v, n) == degree(kept, used, v, n) - if k < n && touches(
            kept[k],
            v,
        ) {
            1int
        } else {
            0
        },
        degree(kept, used, v, n) >= 0,
    decreases n,
{
    if n > 0 {
        lemma_degree_use(kept, used, v, (n - 1) as nat, k);
    }
}

proof fn lemma_degree_none(kept: Seq<Segment>, used: Seq<bool>, v: u64, n: nat)
    requires
        n <= kept.len(),
        forall|k: int| 0 <= k < n && touches(#[trigger] kept[k], v) ==> used[k],
    ensures
        degree(kept, used, v, n) == 0,
    decreases n,
{
    if n > 0 {
        assert(touches(kept[n - 1], v) ==> used[n - 1]);
        lemma_degree_none(kept, used, v, (n - 1) as nat);
    }
}

/// Each point's balance is the same as in `start`, but for the two ends.
spec fn balance_from(
    kept: Seq<Segment>,
    start: Seq<bool>,
    used: Seq<bool>,
    first: u64,
    tail: u64,
) -> bool {
    forall|v: u64| #[trigger]
        degree(kept, used, v, kept.len()) % 2 == (degree(kept, start, v, kept.len()) + if (v
            == first) != (v == tail) {
            1int
        } else {
            0
        }) % 2
}

/// Using a segment at the tail moves the tail.
proof fn lemma_balance_step(
    kept: Seq<Segment>,
    start: Seq<bool>,
    used: Seq<bool>,
    first: u64,
    tail: u64,
    k: int,
)
    requires
        used.len() == kept.len(),
        0 <= k < kept.len(),
        !used[k],
        kept[k].a != kept[k].b,
        touches(kept[k], tail),
        balance_from(kept, start, used, first, tail),
    ensures
        balance_from(kept, start, used.update(k, true), first, other_end(kept[k], tail)),
{
    let after = used.update(k, true);
    let next = other_end(kept[k], tail);
    assert forall|v: u64| #[trigger]
        degree(kept, after, v, kept.len()) % 2 == (degree(kept, start, v, kept.len()) + if (v
            == first) != (v == next) {
            1int
        } else {
            0
        }) % 2 by {
        lemma_degree_use(kept, used, v, kept.len(), k);
        assert(degree(kept, used, v, kept.len()) % 2 == (degree(kept, start, v, kept.len()) + if (v
            == first) != (v == tail) {
            1int
        } else {
            0
        }) % 2);
    }
}

/// What following a ring to its end does.
proof fn lemma_close(
    kept: Seq<Segment>,
    start: Seq<bool>,
    used: Seq<bool>,
    ring: Seq<u64>,
    before: int,
)
    requires
        used.len() == kept.len(),
        ring.len() >= 1,
        forall|k: int| 0 <= k < kept.len() ==> (#[trigger] kept[k]).a != kept[k].b,
        balance_from(kept, start, used, ring[0], ring.last()),
        forall|k: int| 0 <= k < before && k < kept.len() ==> #[trigger] used[k],
    ensures
        match close(kept, used, ring) {
            Some((whole, after)) => {
                &&& after.len() == kept.len()
                &&& whole.len() >= ring.len()
                &&& whole[0] == ring[0]
                &&& whole.last() == whole[0]
                &&& balance_from(kept, start, after, ring[0], ring[0])
                &&& forall|k: int| 0 <= k < before && k < kept.len() ==> #[trigger] after[k]
            },
            None => !all_even(kept, start),
        },
    decreases unused(used, used.len()),
{
    if ring.last() != ring[0] {
        let tail = ring.last();
        lemma_next_at(kept, used, tail, 0);
        match next_at(kept, used, tail, 0) {
            None => {
                lemma_degree_none(kept, used, tail, kept.len());
                assert(degree(kept, used, tail, kept.len()) % 2 == (degree(
                    kept,
                    start,
                    tail,
                    kept.len(),
                ) + 1) % 2);
            },
            Some(k) => {
                lemma_use_one(used, used.len(), k);
                assert(kept[k].a != kept[k].b);
                lemma_balance_step(kept, start, used, ring[0], tail, k);
                lemma_close(
                    kept,
                    start,
                    used.update(k, true),
                    ring.push(other_end(kept[k], tail)),
                    before,
                );
            },
        }
    }
}

proof fn lemma_balance_closed(kept: Seq<Segment>, start: Seq<bool>, after: Seq<bool>, first: u64)
    requires
        balance_from(kept, start, after, first, first),
    ensures
        all_even(kept, start) <==> all_even(kept, after),
{
    assert forall|v: u64| #[trigger]
        degree(kept, after, v, kept.len()) % 2 == degree(kept, start, v, kept.len()) % 2 by {}
    if all_even(kept, start) {
        assert forall|v: u64| #[trigger] degree(kept, after, v, kept.len()) % 2 == 0 by {
            assert(degree(kept, start, v, kept.len()) % 2 == 0);
        }
    }
    if all_even(kept, after) {
        assert forall|v: u64| #[trigger] degree(kept, start, v, kept.len()) % 2 == 0 by {
            assert(degree(kept, after, v, kept.len()) % 2 == 0);
        }
    }
}

proof fn lemma_first_step(kept: Seq<Segment>, used: Seq<bool>, start: int)
    requires
        used.len() == kept.len(),
        0 <= start < kept.len(),
        !used[start],
        kept[start].a != kept[start].b,
    ensures
        balance_from(kept, used, used.update(start, true), kept[start].a, kept[start].b),
{
    assert(balance_from(kept, used, used, kept[start].a, kept[start].a));
    lemma_balance_step(kept, used, used, kept[start].a, kept[start].a, start);
}

proof fn lemma_trace_closes(kept: Seq<Segment>, used: Seq<bool>, start: int)
    requires
        used.len() == kept.len(),
        0 <= start <= kept.len(),
        forall|k: int| 0 <= k < kept.len() ==> (#[trigger] kept[k]).a != kept[k].b,
        forall|k: int| 0 <= k < start ==> #[trigger] used[k],
    ensures
        trace(kept, used, start) is Some <==> all_even(kept, used),
    decreases kept.len() - start,
{
    if start == kept.len() {
        assert forall|v: u64| #[trigger] degree(kept, used, v, kept.len()) % 2 == 0 by {
            lemma_degree_none(kept, used, v, kept.len());
        }
    } else if used[start] {
        lemma_trace_closes(kept, used, start + 1);
    } else {
        let begun = used.update(start, true);
        let ring = seq![kept[start].a, kept[start].b];
        assert(kept[start].a != kept[start].b);
        lemma_first_step(kept, used, start);
        assert forall|k: int| 0 <= k < start + 1 && k < kept.len() implies #[trigger] begun[k] by {
            if k < start {
                assert(used[k]);
            }
        }
        lemma_close(kept, used, begun, ring, start + 1);
        if let Some((whole, after)) = close(kept, begun, ring) {
            lemma_balance_closed(kept, used, after, ring[0]);
            lemma_trace_closes(kept, after, start + 1);
        }
    }
}

/// **What can be closed is closed, and nothing else.** Rings come out exactly
/// where an even number of an outline's segments meet at every point.
pub proof fn law_rings_close_or_are_refused(ways: Seq<Seq<u64>>, kept: Seq<Segment>)
    requires
        is_outline(all_steps(ways, ways.len()), kept),
    ensures
        traced(kept) is Some <==> all_even(kept, none_used(kept)),
{
    lemma_outline_is_proper(ways, kept);
    lemma_trace_closes(kept, none_used(kept), 0);
}

/// The unused ones among the first `n` segments.
pub open spec fn unused_walls(kept: Seq<Segment>, used: Seq<bool>, n: nat) -> vstd::multiset::Multiset<
    Segment,
>
    decreases n,
{
    if n == 0 {
        vstd::multiset::Multiset::empty()
    } else if used[n - 1] {
        unused_walls(kept, used, (n - 1) as nat)
    } else {
        unused_walls(kept, used, (n - 1) as nat).insert(kept[n - 1])
    }
}

proof fn lemma_walls_use(kept: Seq<Segment>, used: Seq<bool>, n: nat, k: int)
    requires
        n <= kept.len(),
        used.len() == kept.len(),
        0 <= k < used.len(),
        !used[k],
    ensures
        k < n ==> unused_walls(kept, used, n) == unused_walls(
            kept,
            used.update(k, true),
            n,
        ).insert(kept[k]),
        k >= n ==> unused_walls(kept, used, n) == unused_walls(kept, used.update(k, true), n),
    decreases n,
{
    broadcast use vstd::multiset::group_multiset_axioms;

    if n > 0 {
        lemma_walls_use(kept, used, (n - 1) as nat, k);
        if k < n {
            assert(unused_walls(kept, used, n) =~= unused_walls(
                kept,
                used.update(k, true),
                n,
            ).insert(kept[k]));
        }
    }
}

proof fn lemma_steps_push(ring: Seq<u64>, p: u64)
    requires
        ring.len() >= 1,
    ensures
        steps(ring.push(p), ring.len() + 1) == if ring.last() == p {
            steps(ring, ring.len())
        } else {
            steps(ring, ring.len()).push(between(ring.last(), p))
        },
{
    lemma_steps_prefix(ring, ring.push(p), ring.len());
}

proof fn lemma_steps_prefix(a: Seq<u64>, b: Seq<u64>, n: nat)
    requires
        n <= a.len(),
        n <= b.len(),
        forall|i: int| 0 <= i < n ==> a[i] == b[i],
    ensures
        steps(a, n) == steps(b, n),
    decreases n,
{
    if n >= 2 {
        lemma_steps_prefix(a, b, (n - 1) as nat);
    }
}

/// Following a ring uses exactly the segments it goes along.
proof fn lemma_close_uses(kept: Seq<Segment>, used: Seq<bool>, ring: Seq<u64>)
    requires
        used.len() == kept.len(),
        ring.len() >= 1,
        forall|k: int| 0 <= k < kept.len() ==> (#[trigger] kept[k]).a < kept[k].b,
    ensures
        close(kept, used, ring) matches Some((whole, after)) ==> {
            &&& after.len() == kept.len()
            &&& steps(ring, ring.len()).to_multiset().add(unused_walls(kept, used, kept.len()))
                == steps(whole, whole.len()).to_multiset().add(
                unused_walls(kept, after, kept.len()),
            )
        },
    decreases unused(used, used.len()),
{
    broadcast use vstd::multiset::group_multiset_axioms;

    if ring.last() != ring[0] {
        let tail = ring.last();
        lemma_next_at(kept, used, tail, 0);
        if let Some(k) = next_at(kept, used, tail, 0) {
            let next = other_end(kept[k], tail);
            let longer = ring.push(next);
            let begun = used.update(k, true);
            lemma_use_one(used, used.len(), k);
            assert(kept[k].a < kept[k].b);
            assert(between(tail, next) == kept[k]);
            lemma_steps_push(ring, next);
            vstd::seq_lib::to_multiset_build(steps(ring, ring.len()), kept[k]);
            lemma_walls_use(kept, used, kept.len(), k);
            assert(steps(ring, ring.len()).to_multiset().add(
                unused_walls(kept, used, kept.len()),
            ) =~= steps(longer, longer.len()).to_multiset().add(
                unused_walls(kept, begun, kept.len()),
            ));
            lemma_close_uses(kept, begun, longer);
        }
    }
}

/// A closed ring of an outline has at least three corners.
proof fn lemma_ring_long(kept: Seq<Segment>, used: Seq<bool>, start: int)
    requires
        used.len() == kept.len(),
        0 <= start < kept.len(),
        ascending(kept),
        forall|k: int| 0 <= k < kept.len() ==> (#[trigger] kept[k]).a < kept[k].b,
    ensures
        close(kept, used.update(start, true), seq![kept[start].a, kept[start].b]) matches Some(
            (whole, after),
        ) ==> whole.len() >= 4,
{
    let begun = used.update(start, true);
    let s = kept[start];
    let ring = seq![s.a, s.b];
    assert(s.a < s.b);
    lemma_next_at(kept, begun, s.b, 0);
    if let Some(k) = next_at(kept, begun, s.b, 0) {
        let c = other_end(kept[k], s.b);
        let longer = ring.push(c);
        let after = begun.update(k, true);
        assert(kept[k].a < kept[k].b);
        assert(k != start);
        assert(kept[k].rank() != s.rank());
        assert(c != s.a);
        assert(longer.last() == c && longer[0] == s.a);
        lemma_next_at(kept, after, c, 0);
        lemma_use_one(begun, begun.len(), k);
        assert(close(kept, begun, ring) == close(kept, after, longer));
        if let Some(m) = next_at(kept, after, c, 0) {
            let longest = longer.push(other_end(kept[m], c));
            assert(close(kept, after, longer) == close(kept, after.update(m, true), longest)) by {
                lemma_use_one(after, after.len(), m);
            }
            lemma_close_grows(kept, after.update(m, true), longest);
        }
    }
}

proof fn lemma_close_grows(kept: Seq<Segment>, used: Seq<bool>, ring: Seq<u64>)
    ensures
        close(kept, used, ring) matches Some((whole, after)) ==> whole.len() >= ring.len()
            && whole.last() == whole[0] && whole.len() > 0,
    decreases unused(used, used.len()),
{
    if ring.len() > 0 && used.len() == kept.len() && ring.last() != ring[0] {
        lemma_next_at(kept, used, ring.last(), 0);
        if let Some(k) = next_at(kept, used, ring.last(), 0) {
            lemma_use_one(used, used.len(), k);
            lemma_close_grows(
                kept,
                used.update(k, true),
                ring.push(other_end(kept[k], ring.last())),
            );
        }
    }
}

proof fn lemma_steps_first(first: Seq<u64>, rest: Seq<Seq<u64>>, n: nat)
    requires
        n <= rest.len(),
    ensures
        all_steps(seq![first] + rest, n + 1).to_multiset() == steps(
            first,
            first.len(),
        ).to_multiset().add(all_steps(rest, n).to_multiset()),
    decreases n,
{
    broadcast use vstd::multiset::group_multiset_axioms;

    let all = seq![first] + rest;
    let head = steps(first, first.len());
    if n == 0 {
        assert(all_steps(all, 0) + head =~= head);
        assert(all_steps(all, 1) =~= head) by {
            assert(all[0] == first);
            assert(all_steps(all, 1) == all_steps(all, 0) + steps(all[0], all[0].len()));
        }
        assert(all_steps(rest, 0) =~= Seq::<Segment>::empty());
        vstd::seq_lib::to_multiset_len(Seq::<Segment>::empty());
        assert(Seq::<Segment>::empty().to_multiset() =~= vstd::multiset::Multiset::empty());
    } else {
        lemma_steps_first(first, rest, (n - 1) as nat);
        let last = steps(rest[n - 1], rest[n - 1].len());
        assert(all[n as int] == rest[n - 1]);
        vstd::seq_lib::lemma_multiset_commutative(all_steps(all, n), last);
        vstd::seq_lib::lemma_multiset_commutative(all_steps(rest, (n - 1) as nat), last);
        assert(all_steps(all, n + 1).to_multiset() =~= head.to_multiset().add(
            all_steps(rest, n).to_multiset(),
        ));
    }
}

proof fn lemma_trace_uses(kept: Seq<Segment>, used: Seq<bool>, start: int)
    requires
        used.len() == kept.len(),
        0 <= start <= kept.len(),
        ascending(kept),
        forall|k: int| 0 <= k < kept.len() ==> (#[trigger] kept[k]).a < kept[k].b,
        forall|k: int| 0 <= k < start ==> #[trigger] used[k],
    ensures
        trace(kept, used, start) matches Some(rings) ==> {
            &&& all_steps(rings, rings.len()).to_multiset() == unused_walls(
                kept,
                used,
                kept.len(),
            )
            &&& forall|i: int|
                0 <= i < rings.len() ==> (#[trigger] rings[i]).len() >= 4 && rings[i].last()
                    == rings[i][0]
        },
    decreases kept.len() - start,
{
    broadcast use vstd::multiset::group_multiset_axioms;

    if start == kept.len() {
        lemma_walls_none(kept, used, kept.len());
        vstd::seq_lib::to_multiset_len(Seq::<Segment>::empty());
        assert(Seq::<Segment>::empty().to_multiset() =~= vstd::multiset::Multiset::empty());
    } else if used[start] {
        lemma_trace_uses(kept, used, start + 1);
    } else {
        let s = kept[start];
        let begun = used.update(start, true);
        let ring = seq![s.a, s.b];
        assert(s.a < s.b);
        lemma_ring_long(kept, used, start);
        lemma_close_uses(kept, begun, ring);
        lemma_close_grows(kept, begun, ring);
        lemma_walls_use(kept, used, kept.len(), start);
        assert(steps(ring, 2) =~= seq![s]) by {
            assert(steps(ring, 1) =~= Seq::<Segment>::empty());
        }
        vstd::seq_lib::to_multiset_build(Seq::<Segment>::empty(), s);
        assert(seq![s] =~= Seq::<Segment>::empty().push(s));
        vstd::seq_lib::to_multiset_len(Seq::<Segment>::empty());
        assert(Seq::<Segment>::empty().to_multiset() =~= vstd::multiset::Multiset::empty());
        if let Some((whole, after)) = close(kept, begun, ring) {
            lemma_close_keeps(kept, begun, ring, start + 1);
            lemma_trace_uses(kept, after, start + 1);
            if let Some(rest) = trace(kept, after, start + 1) {
                let rings = seq![whole] + rest;
                lemma_steps_first(whole, rest, rest.len());
                assert(rings.len() == rest.len() + 1);
                assert(all_steps(rings, rings.len()).to_multiset() =~= unused_walls(
                    kept,
                    used,
                    kept.len(),
                ));
                assert forall|i: int| 0 <= i < rings.len() implies (#[trigger] rings[i]).len() >= 4
                    && rings[i].last() == rings[i][0] by {
                    if i > 0 {
                        assert(rings[i] == rest[i - 1]);
                    }
                }
            }
        }
    }
}

proof fn lemma_walls_none(kept: Seq<Segment>, used: Seq<bool>, n: nat)
    requires
        n <= used.len(),
        forall|k: int| 0 <= k < n ==> #[trigger] used[k],
    ensures
        unused_walls(kept, used, n) == vstd::multiset::Multiset::<Segment>::empty(),
    decreases n,
{
    if n > 0 {
        lemma_walls_none(kept, used, (n - 1) as nat);
    }
}

proof fn lemma_close_keeps(kept: Seq<Segment>, used: Seq<bool>, ring: Seq<u64>, before: int)
    requires
        before <= kept.len(),
        forall|k: int| 0 <= k < before ==> #[trigger] used[k],
    ensures
        close(kept, used, ring) matches Some((whole, after)) ==> forall|k: int|
            0 <= k < before ==> #[trigger] after[k],
    decreases unused(used, used.len()),
{
    if ring.len() > 0 && used.len() == kept.len() && ring.last() != ring[0] {
        lemma_next_at(kept, used, ring.last(), 0);
        if let Some(k) = next_at(kept, used, ring.last(), 0) {
            lemma_use_one(used, used.len(), k);
            lemma_close_keeps(
                kept,
                used.update(k, true),
                ring.push(other_end(kept[k], ring.last())),
                before,
            );
        }
    }
}

proof fn lemma_all_unused(kept: Seq<Segment>, n: nat)
    requires
        n <= kept.len(),
    ensures
        unused_walls(kept, none_used(kept), n) == kept.take(n as int).to_multiset(),
    decreases n,
{
    broadcast use vstd::multiset::group_multiset_axioms;

    if n == 0 {
        assert(kept.take(0) =~= Seq::<Segment>::empty());
        vstd::seq_lib::to_multiset_len(Seq::<Segment>::empty());
        assert(Seq::<Segment>::empty().to_multiset() =~= vstd::multiset::Multiset::empty());
    } else {
        lemma_all_unused(kept, (n - 1) as nat);
        assert(kept.take(n as int) =~= kept.take(n - 1).push(kept[n - 1]));
        vstd::seq_lib::to_multiset_build(kept.take(n - 1), kept[n - 1]);
    }
}

/// **The rings are the outline.** Every ring is closed and has at least three
/// corners, and together they go along each segment of the outline exactly once
/// and along nothing else: a wall that cancelled is in none of them.
pub proof fn law_rings_are_the_outline(ways: Seq<Seq<u64>>, kept: Seq<Segment>)
    requires
        is_outline(all_steps(ways, ways.len()), kept),
    ensures
        traced(kept) matches Some(rings) ==> {
            &&& all_steps(rings, rings.len()).to_multiset() == kept.to_multiset()
            &&& forall|i: int|
                0 <= i < rings.len() ==> (#[trigger] rings[i]).len() >= 4 && rings[i].last()
                    == rings[i][0]
        },
{
    lemma_outline_is_proper(ways, kept);
    lemma_trace_uses(kept, none_used(kept), 0);
    lemma_all_unused(kept, kept.len());
    assert(kept.take(kept.len() as int) =~= kept);
}

proof fn lemma_steps(way: Seq<u64>, n: nat)
    requires
        1 <= n <= way.len(),
    ensures
        steps(way, n) == Seq::new((n - 1) as nat, |i: int| (way[i], way[i + 1])).filter(
            |pq: (u64, u64)| pq.0 != pq.1,
        ).map_values(|pq: (u64, u64)| between(pq.0, pq.1)),
    decreases n,
{
    reveal(Seq::filter);
    let apart = |pq: (u64, u64)| pq.0 != pq.1;
    let wall = |pq: (u64, u64)| between(pq.0, pq.1);
    let pairs = Seq::new((n - 1) as nat, |i: int| (way[i], way[i + 1]));
    if n == 1 {
        assert(pairs =~= Seq::empty());
        assert(steps(way, n) =~= pairs.filter(apart).map_values(wall));
    } else {
        lemma_steps(way, (n - 1) as nat);
        let before = Seq::new((n - 2) as nat, |i: int| (way[i], way[i + 1]));
        assert(pairs.drop_last() =~= before);
        assert(pairs.last() == (way[n - 2], way[n - 1]));
        if way[n - 2] != way[n - 1] {
            assert(pairs.filter(apart) == before.filter(apart).push(pairs.last()));
            assert(pairs.filter(apart).map_values(wall) =~= before.filter(apart).map_values(wall).push(
                between(way[n - 2], way[n - 1]),
            ));
        }
    }
}

/// **A way has a segment to each two neighbouring points of it that differ**, from its
/// first point to its last. Which of the two comes first makes no difference.
pub proof fn law_a_way_has_its_segments(way: Seq<u64>, p: u64, q: u64)
    requires
        way.len() >= 1,
    ensures
        steps(way, way.len()) == Seq::new((way.len() - 1) as nat, |i: int| (way[i], way[i + 1])).filter(
            |pq: (u64, u64)| pq.0 != pq.1,
        ).map_values(|pq: (u64, u64)| between(pq.0, pq.1)),
        between(p, q) == between(q, p),
        touches(between(p, q), p) && touches(between(p, q), q),
        between(p, q).a <= between(p, q).b,
{
    lemma_steps(way, way.len());
}

proof fn lemma_all_steps_same(ways: Seq<Seq<u64>>, more: Seq<Seq<u64>>, n: nat)
    requires
        n <= ways.len(),
        n <= more.len(),
        forall|i: int| 0 <= i < n ==> #[trigger] ways[i] == more[i],
    ensures
        all_steps(ways, n) == all_steps(more, n),
    decreases n,
{
    if n > 0 {
        lemma_all_steps_same(ways, more, (n - 1) as nat);
        assert(ways[n - 1] == more[n - 1]);
    }
}

/// **The walls of some ways are the walls of each of them.**
pub proof fn law_walls_of_ways_add_up(ways: Seq<Seq<u64>>, way: Seq<u64>)
    ensures
        all_steps(Seq::empty(), 0) == Seq::<Segment>::empty(),
        all_steps(ways.push(way), ways.len() + 1) == all_steps(ways, ways.len()) + steps(way, way.len()),
{
    lemma_all_steps_same(ways, ways.push(way), ways.len());
}

/// **A ring goes on along the first unused wall that ends where it stands.**
pub proof fn law_the_first_unused_wall_is_taken(kept: Seq<Segment>, used: Seq<bool>, v: u64, from: int, k: int)
    requires
        0 <= from,
    ensures
        next_at(kept, used, v, from) == Some(k) <==> from <= k < kept.len() && !used[k] && touches(kept[k], v) && (
        forall|j: int| from <= j < k && touches(#[trigger] kept[j], v) ==> used[j]),
        next_at(kept, used, v, from) is None <==> forall|j: int|
            from <= j < kept.len() && touches(#[trigger] kept[j], v) ==> used[j],
    decreases kept.len() - from,
{
    lemma_next_at(kept, used, v, from);
    if from < kept.len() && (used[from] || !touches(kept[from], v)) {
        law_the_first_unused_wall_is_taken(kept, used, v, from + 1, k);
    } else if from < kept.len() {
        assert(touches(kept[from], v));
    }
}

} // verus!
