//! Lists of names: the order of texts, and sorting by it.

use crate::text;
use vstd::prelude::*;

verus! {

/// Whether a text comes before another one: at the first character in which they
/// differ, or because it ends first.
pub open spec fn precedes(a: Seq<char>, b: Seq<char>) -> bool
    decreases a.len(),
{
    if b.len() == 0 {
        false
    } else if a.len() == 0 {
        true
    } else if a[0] != b[0] {
        a[0] < b[0]
    } else {
        precedes(a.skip(1), b.skip(1))
    }
}

/// No text comes before itself, and of two different ones exactly one comes first.
pub proof fn law_names_are_ordered(a: Seq<char>, b: Seq<char>)
    ensures
        !precedes(a, a),
        a != b ==> precedes(a, b) != precedes(b, a),
    decreases a.len(),
{
    if a.len() > 0 {
        law_names_are_ordered(a.skip(1), a.skip(1));
    }
    if a.len() > 0 && b.len() > 0 && a[0] == b[0] {
        law_names_are_ordered(a.skip(1), b.skip(1));
        if a != b {
            assert(a.skip(1) != b.skip(1)) by {
                if a.skip(1) == b.skip(1) {
                    assert(a =~= seq![a[0]] + a.skip(1));
                    assert(b =~= seq![b[0]] + b.skip(1));
                }
            }
        }
    } else if a.len() == 0 && b.len() == 0 {
        assert(a =~= b);
    }
}

/// What comes before something that comes before a third comes before the third.
pub proof fn law_order_carries_over(a: Seq<char>, b: Seq<char>, c: Seq<char>)
    requires
        precedes(a, b),
        precedes(b, c),
    ensures
        precedes(a, c),
    decreases a.len(),
{
    if a.len() > 0 && a[0] == b[0] && b[0] == c[0] {
        law_order_carries_over(a.skip(1), b.skip(1), c.skip(1));
    }
}

/// Whether a text comes before another one.
pub fn is_before(a: &str, b: &str) -> (r: bool)
    ensures
        r == precedes(a@, b@),
{
    let x: Vec<char> = text::chars(a);
    let y: Vec<char> = text::chars(b);
    let mut i: usize = 0;
    assert(x@.skip(0) =~= x@);
    assert(y@.skip(0) =~= y@);
    while i < x.len() && i < y.len()
        invariant
            i <= x@.len(),
            i <= y@.len(),
            x@ == a@,
            y@ == b@,
            precedes(a@, b@) == precedes(x@.skip(i as int), y@.skip(i as int)),
        decreases x@.len() - i,
    {
        if x[i] != y[i] {
            return x[i] < y[i];
        }
        assert(x@.skip(i as int).skip(1) =~= x@.skip(i + 1));
        assert(y@.skip(i as int).skip(1) =~= y@.skip(i + 1));
        i = i + 1;
    }
    i < y.len()
}

/// Texts in order, the same one possibly more than once.
pub open spec fn ascending(list: Seq<Seq<char>>) -> bool {
    forall|i: int, j: int| 0 <= i < j < list.len() ==> !precedes(#[trigger] list[j], #[trigger] list[i])
}

/// Texts in order, each one once.
pub open spec fn strictly_ascending(list: Seq<Seq<char>>) -> bool {
    forall|i: int, j: int| 0 <= i < j < list.len() ==> precedes(#[trigger] list[i], #[trigger] list[j])
}

/// The first place in a sorted list where a text may go: everything in front comes
/// before it and nothing behind does.
fn place_for(list: &Vec<String>, s: &str) -> (at: usize)
    requires
        ascending(text::texts(list@)),
    ensures
        at <= list@.len(),
        forall|i: int| 0 <= i < at ==> precedes(#[trigger] text::texts(list@)[i], s@),
        forall|i: int| at <= i < list@.len() ==> !precedes(#[trigger] text::texts(list@)[i], s@),
{
    let mut at: usize = 0;
    while at < list.len() && is_before(list[at].as_str(), s)
        invariant
            at <= list@.len(),
            forall|i: int| 0 <= i < at ==> precedes(#[trigger] text::texts(list@)[i], s@),
        decreases list@.len() - at,
    {
        at = at + 1;
    }
    proof {
        let t = text::texts(list@);
        assert forall|i: int| at <= i < list@.len() implies !precedes(#[trigger] t[i], s@) by {
            assert(t[at as int] == list@[at as int]@);
            if i > at && precedes(t[i], s@) {
                law_names_are_ordered(t[at as int], s@);
                law_names_are_ordered(t[i], t[at as int]);
                assert(!precedes(t[i], t[at as int]));
                if t[at as int] != s@ {
                    law_order_carries_over(t[i], s@, t[at as int]);
                }
            }
        }
    }
    at
}

/// Sorts names.
pub fn sort(list: Vec<String>) -> (out: Vec<String>)
    ensures
        ascending(text::texts(out@)),
        text::texts(out@).to_multiset() == text::texts(list@).to_multiset(),
{
    broadcast use vstd::seq_lib::group_to_multiset_ensures;

    let mut out: Vec<String> = Vec::new();
    let mut n: usize = 0;
    let ghost all = text::texts(list@);
    assert(text::texts(out@) =~= all.take(0));
    while n < list.len()
        invariant
            n <= list@.len(),
            all == text::texts(list@),
            ascending(text::texts(out@)),
            text::texts(out@).to_multiset() == all.take(n as int).to_multiset(),
        decreases list@.len() - n,
    {
        let at: usize = place_for(&out, list[n].as_str());
        let name: String = list[n].clone();
        let ghost before = text::texts(out@);
        out.insert(at, name);
        proof {
            let t = text::texts(out@);
            let s = list@[n as int]@;
            assert(t =~= before.insert(at as int, s));
            assert forall|i: int, j: int| 0 <= i < j < t.len() implies !precedes(#[trigger] t[j], #[trigger] t[i]) by {
                law_names_are_ordered(s, s);
                if i == at {
                    assert(t[j] == before[j - 1]);
                } else if j == at {
                    assert(t[i] == before[i]);
                    law_names_are_ordered(before[i], s);
                    if before[i] == s {
                        law_names_are_ordered(s, s);
                    }
                } else {
                    assert(t[i] == before[if i < at { i } else { i - 1 }]);
                    assert(t[j] == before[if j < at { j } else { j - 1 }]);
                }
            }
            vstd::seq_lib::to_multiset_insert(before, at as int, s);
            assert(all.take(n + 1) =~= all.take(n as int).push(s));
            vstd::seq_lib::to_multiset_build(all.take(n as int), s);
            assert(t.to_multiset() =~= all.take(n + 1).to_multiset());
        }
        n = n + 1;
    }
    assert(all.take(n as int) =~= all);
    out
}

/// Sorts names, each one once.
pub fn distinct(list: Vec<String>) -> (out: Vec<String>)
    ensures
        strictly_ascending(text::texts(out@)),
        forall|s: Seq<char>| text::texts(out@).contains(s) <==> text::texts(list@).contains(s),
{
    let mut out: Vec<String> = Vec::new();
    let mut n: usize = 0;
    let ghost all = text::texts(list@);
    while n < list.len()
        invariant
            n <= list@.len(),
            all == text::texts(list@),
            strictly_ascending(text::texts(out@)),
            forall|s: Seq<char>| text::texts(out@).contains(s) <==> all.take(n as int).contains(s),
        decreases list@.len() - n,
    {
        let ghost before = text::texts(out@);
        let ghost s = list@[n as int]@;
        proof {
            assert forall|i: int, j: int| 0 <= i < j < before.len() implies !precedes(
                #[trigger] before[j],
                #[trigger] before[i],
            ) by {
                law_names_are_ordered(before[i], before[j]);
            }
            assert(all.take(n + 1) =~= all.take(n as int).push(s));
            assert forall|x: Seq<char>| all.take(n + 1).contains(x) <==> (all.take(n as int).contains(x) || x == s) by {
                if all.take(n as int).contains(x) {
                    let k = choose|k: int| 0 <= k < n && all.take(n as int)[k] == x;
                    assert(all.take(n + 1)[k] == x);
                }
                assert(all.take(n + 1)[n as int] == s);
            }
        }
        let at: usize = place_for(&out, list[n].as_str());
        if at < out.len() && text::same(out[at].as_str(), list[n].as_str()) {
            assert(before[at as int] == s);
        } else {
            let name: String = list[n].clone();
            out.insert(at, name);
            proof {
                let t = text::texts(out@);
                assert(t =~= before.insert(at as int, s));
                assert forall|i: int, j: int| 0 <= i < j < t.len() implies precedes(#[trigger] t[i], #[trigger] t[j]) by {
                    if i == at {
                        let k = j - 1;
                        assert(t[j] == before[k]);
                        if k > at {
                            assert(before[at as int] != s);
                            law_names_are_ordered(before[at as int], s);
                            law_order_carries_over(s, before[at as int], before[k]);
                        } else {
                            law_names_are_ordered(before[at as int], s);
                        }
                    } else if j == at {
                        assert(t[i] == before[i]);
                    } else {
                        assert(t[i] == before[if i < at { i } else { i - 1 }]);
                        assert(t[j] == before[if j < at { j } else { j - 1 }]);
                    }
                }
                assert forall|x: Seq<char>| t.contains(x) <==> (before.contains(x) || x == s) by {
                    if before.contains(x) {
                        let k = choose|k: int| 0 <= k < before.len() && before[k] == x;
                        assert(t[if k < at { k } else { k + 1 }] == x);
                    }
                    assert(t[at as int] == s);
                    if t.contains(x) && x != s {
                        let k = choose|k: int| 0 <= k < t.len() && t[k] == x;
                        assert(before[if k < at { k } else { k - 1 }] == x);
                    }
                }
            }
        }
        n = n + 1;
    }
    assert(all.take(n as int) =~= all);
    out
}

/// **Names go by their first difference**: a name comes before one that it begins, and
/// of two others the one with the smaller character where they first differ.
pub proof fn law_the_first_difference_decides(front: Seq<char>, a: Seq<char>, b: Seq<char>)
    ensures
        a.len() == 0 && b.len() > 0 ==> precedes(front + a, front + b),
        a.len() > 0 && b.len() > 0 && a[0] < b[0] ==> precedes(front + a, front + b) && !precedes(front + b, front + a),
    decreases front.len(),
{
    if front.len() == 0 {
        assert(front + a =~= a);
        assert(front + b =~= b);
    } else {
        law_the_first_difference_decides(front.skip(1), a, b);
        assert((front + a).skip(1) =~= front.skip(1) + a);
        assert((front + b).skip(1) =~= front.skip(1) + b);
    }
}

} // verus!
