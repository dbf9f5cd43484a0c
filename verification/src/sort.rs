//! Sorting by an integer rank.

use vstd::prelude::*;

verus! {

/// A value with a place in a line: smaller ranks come first.
pub trait Rank: Copy {
    spec fn rank(self) -> int;

    /// Whether this comes no later than `other`.
    fn at_most(self, other: Self) -> (r: bool)
        ensures
            r == (self.rank() <= other.rank()),
    ;
}

impl Rank for u64 {
    open spec fn rank(self) -> int {
        self as int
    }

    fn at_most(self, other: u64) -> (r: bool) {
        self <= other
    }
}

impl Rank for i64 {
    open spec fn rank(self) -> int {
        self as int
    }

    fn at_most(self, other: i64) -> (r: bool) {
        self <= other
    }
}

/// Whether no value comes before the one ahead of it.
pub open spec fn sorted<T: Rank>(s: Seq<T>) -> bool {
    forall|i: int, j: int| 0 <= i < j < s.len() ==> s[i].rank() <= s[j].rank()
}

/// Merges two sorted lists into one.
fn merge<T: Rank>(a: &Vec<T>, b: &Vec<T>) -> (out: Vec<T>)
    requires
        sorted(a@),
        sorted(b@),
    ensures
        sorted(out@),
        out@.to_multiset() == a@.to_multiset().add(b@.to_multiset()),
{
    broadcast use vstd::seq_lib::group_to_multiset_ensures;

    let mut out: Vec<T> = Vec::new();
    let mut i: usize = 0;
    let mut j: usize = 0;
    proof {
        assert(a@.take(0) =~= Seq::empty());
        assert(b@.take(0) =~= Seq::empty());
        assert(out@.to_multiset() =~= a@.take(0).to_multiset().add(b@.take(0).to_multiset()));
    }
    while i < a.len() || j < b.len()
        invariant
            i <= a@.len(),
            j <= b@.len(),
            sorted(a@),
            sorted(b@),
            sorted(out@),
            out@.to_multiset() == a@.take(i as int).to_multiset().add(
                b@.take(j as int).to_multiset(),
            ),
            forall|p: int, q: int|
                0 <= p < out@.len() && i <= q < a@.len() ==> (#[trigger] out@[p]).rank() <= (
                #[trigger] a@[q]).rank(),
            forall|p: int, q: int|
                0 <= p < out@.len() && j <= q < b@.len() ==> (#[trigger] out@[p]).rank() <= (
                #[trigger] b@[q]).rank(),
        decreases a@.len() - i + b@.len() - j,
    {
        let ghost before = out@;
        if j >= b.len() || (i < a.len() && a[i].at_most(b[j])) {
            let next: T = a[i];
            out.push(next);
            i = i + 1;
            proof {
                broadcast use vstd::multiset::group_multiset_axioms;

                vstd::seq_lib::to_multiset_build(before, next);
                vstd::seq_lib::to_multiset_build(a@.take(i - 1), next);
                assert(a@.take(i as int) =~= a@.take(i - 1).push(next));
                assert(out@.to_multiset() =~= a@.take(i as int).to_multiset().add(
                    b@.take(j as int).to_multiset(),
                ));
            }
        } else {
            let next: T = b[j];
            out.push(next);
            j = j + 1;
            proof {
                broadcast use vstd::multiset::group_multiset_axioms;

                vstd::seq_lib::to_multiset_build(before, next);
                vstd::seq_lib::to_multiset_build(b@.take(j - 1), next);
                assert(b@.take(j as int) =~= b@.take(j - 1).push(next));
                assert(out@.to_multiset() =~= a@.take(i as int).to_multiset().add(
                    b@.take(j as int).to_multiset(),
                ));
            }
        }
    }
    assert(a@.take(a@.len() as int) =~= a@);
    assert(b@.take(b@.len() as int) =~= b@);
    out
}

fn sort_range<T: Rank>(values: &Vec<T>, from: usize, to: usize) -> (out: Vec<T>)
    requires
        from <= to <= values@.len(),
    ensures
        sorted(out@),
        out@.to_multiset() == values@.subrange(from as int, to as int).to_multiset(),
    decreases to - from,
{
    broadcast use vstd::seq_lib::group_to_multiset_ensures;

    if to - from < 2 {
        let mut out: Vec<T> = Vec::new();
        if from < to {
            out.push(values[from]);
        }
        assert(out@ =~= values@.subrange(from as int, to as int));
        out
    } else {
        let mid: usize = from + (to - from) / 2;
        let a: Vec<T> = sort_range(values, from, mid);
        let b: Vec<T> = sort_range(values, mid, to);
        proof {
            let left = values@.subrange(from as int, mid as int);
            let right = values@.subrange(mid as int, to as int);
            assert(values@.subrange(from as int, to as int) =~= left + right);
            vstd::seq_lib::lemma_multiset_commutative(left, right);
        }
        merge(&a, &b)
    }
}

/// The same values in order of rank.
pub fn sort<T: Rank>(values: &Vec<T>) -> (out: Vec<T>)
    ensures
        sorted(out@),
        out@.to_multiset() == values@.to_multiset(),
{
    assert(values@.subrange(0, values@.len() as int) =~= values@);
    sort_range(values, 0, values.len())
}

/// Sorting neither adds nor loses a value.
pub(crate) proof fn lemma_same_values<T>(a: Seq<T>, b: Seq<T>, v: T)
    requires
        a.to_multiset() == b.to_multiset(),
    ensures
        a.contains(v) <==> b.contains(v),
        a.len() == b.len(),
{
    vstd::seq_lib::to_multiset_contains(a, v);
    vstd::seq_lib::to_multiset_contains(b, v);
    vstd::seq_lib::to_multiset_len(a);
    vstd::seq_lib::to_multiset_len(b);
}

} // verus!
