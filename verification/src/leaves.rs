//! The leaf cache: decoded directories, bounded by a budget of bytes.
//!
//! A leaf is inflated and parsed on first touch, and a hit is then a binary
//! search. Past its budget the cache drops the least recently used leaf, so a
//! client that walks the whole map cannot grow the process without bound.

use crate::directory::Entry;
use std::collections::HashMap;
use vstd::prelude::*;

verus! {

broadcast use vstd::std_specs::hash::group_hash_axioms;

/// How much decoded leaf directory one archive may hold by default, in bytes.
pub const LEAF_CACHE_BYTES: usize = 134217728;

/// Bytes one decoded entry takes.
pub const ENTRY_BYTES: usize = 24;

/// One decoded leaf directory, and when it was last read.
pub struct Leaf {
    pub entries: Vec<Entry>,
    pub used: u64,
}

/// The leaf cache: decoded directories keyed by their offset in the leaf
/// section, bounded by `budget` bytes of entries.
pub struct Leaves {
    pub by_offset: HashMap<u64, Leaf>,
    /// Bytes of entries held.
    pub bytes: usize,
    pub budget: usize,
    /// A logical clock: every lookup stamps the leaf it used, and eviction
    /// takes the smallest stamp.
    pub clock: u64,
}

/// Bytes a leaf of `n` entries takes, or as many as can be counted.
pub open spec fn leaf_bytes(n: nat) -> int {
    if ENTRY_BYTES * n <= usize::MAX {
        (ENTRY_BYTES * n) as int
    } else {
        usize::MAX as int
    }
}

/// Bytes all the leaves of a cache take.
pub open spec fn weight(held: Map<u64, Leaf>) -> int
    decreases held.dom().len(),
    when held.dom().finite()
{
    if held.dom().is_empty() {
        0
    } else {
        let key = held.dom().choose();
        leaf_bytes(held[key].entries@.len()) + weight(held.remove(key))
    }
}

/// Whether no held leaf was used before the one at `key`.
pub open spec fn oldest(held: Map<u64, Leaf>, key: u64) -> bool {
    &&& held.contains_key(key)
    &&& forall|k: u64| #[trigger] held.contains_key(k) ==> held[key].used <= held[k].used
}

/// Whether `kept` is what is left of a cache that made room for `size` bytes:
/// while they do not fit and anything is held, a least recently used leaf goes.
pub open spec fn makes_room(held: Map<u64, Leaf>, size: int, budget: int, kept: Map<u64, Leaf>) -> bool
    decreases held.dom().len(),
    when held.dom().finite()
{
    if weight(held) + size <= budget || held.dom().is_empty() {
        kept == held
    } else {
        exists|key: u64|
            #[trigger] oldest(held, key) && held.dom().contains(key) && makes_room(
                held.remove(key),
                size,
                budget,
                kept,
            )
    }
}

proof fn lemma_weight_remove(held: Map<u64, Leaf>, key: u64)
    requires
        held.dom().finite(),
        held.contains_key(key),
    ensures
        weight(held) == leaf_bytes(held[key].entries@.len()) + weight(held.remove(key)),
        weight(held.remove(key)) >= 0,
    decreases held.dom().len(),
{
    let first = held.dom().choose();
    assert(held.dom().contains(key));
    assert(held.dom().contains(first));
    if first == key {
        lemma_weight_positive(held.remove(key));
    } else {
        let rest = held.remove(first);
        lemma_weight_remove(rest, key);
        assert(rest.remove(key) =~= held.remove(key).remove(first));
        assert(held.remove(key).contains_key(first));
        lemma_weight_remove(held.remove(key), first);
    }
}

proof fn lemma_weight_positive(held: Map<u64, Leaf>)
    requires
        held.dom().finite(),
    ensures
        weight(held) >= 0,
    decreases held.dom().len(),
{
    if !held.dom().is_empty() {
        lemma_weight_positive(held.remove(held.dom().choose()));
    }
}

proof fn lemma_weight_insert(held: Map<u64, Leaf>, key: u64, leaf: Leaf)
    requires
        held.dom().finite(),
        !held.contains_key(key),
    ensures
        weight(held.insert(key, leaf)) == weight(held) + leaf_bytes(leaf.entries@.len()),
{
    lemma_weight_remove(held.insert(key, leaf), key);
    assert(held.insert(key, leaf).remove(key) =~= held);
}

/// What makes room keeps every other leaf as it was.
pub proof fn law_making_room_only_drops(
    held: Map<u64, Leaf>,
    size: int,
    budget: int,
    kept: Map<u64, Leaf>,
)
    requires
        held.dom().finite(),
        makes_room(held, size, budget, kept),
    ensures
        kept.dom().finite(),
        kept.submap_of(held),
        weight(kept) + size <= budget || kept.dom().is_empty(),
    decreases held.dom().len(),
{
    if !(weight(held) + size <= budget || held.dom().is_empty()) {
        let key = choose|key: u64|
            #[trigger] oldest(held, key) && held.dom().contains(key) && makes_room(
                held.remove(key),
                size,
                budget,
                kept,
            );
        law_making_room_only_drops(held.remove(key), size, budget, kept);
    }
}

/// A cache drops only what was least recently used: no leaf that goes was read
/// later than one that stays.
pub proof fn law_the_least_recently_used_goes(
    held: Map<u64, Leaf>,
    size: int,
    budget: int,
    kept: Map<u64, Leaf>,
    gone: u64,
    stays: u64,
)
    requires
        held.dom().finite(),
        makes_room(held, size, budget, kept),
        held.contains_key(gone),
        !kept.contains_key(gone),
        kept.contains_key(stays),
    ensures
        held[gone].used <= held[stays].used,
    decreases held.dom().len(),
{
    law_making_room_only_drops(held, size, budget, kept);
    let key = choose|key: u64|
        #[trigger] oldest(held, key) && held.dom().contains(key) && makes_room(
            held.remove(key),
            size,
            budget,
            kept,
        );
    assert(held.contains_key(stays)) by {
        assert(kept.dom().contains(stays));
    }
    if key != gone {
        let rest = held.remove(key);
        law_making_room_only_drops(rest, size, budget, kept);
        assert(rest.contains_key(stays)) by {
            assert(kept.dom().contains(stays));
        }
        law_the_least_recently_used_goes(rest, size, budget, kept, gone, stays);
    }
}

/// Bytes a decoded leaf takes.
fn size_of(entries: &Vec<Entry>) -> (n: usize)
    ensures
        n == leaf_bytes(entries@.len()),
{
    if entries.len() > usize::MAX / ENTRY_BYTES {
        usize::MAX
    } else {
        entries.len() * ENTRY_BYTES
    }
}

impl Leaves {
    /// The books are straight, and the budget holds unless one leaf alone is
    /// larger than it.
    pub open spec fn wf(self) -> bool {
        &&& self.bytes == weight(self.by_offset@)
        &&& self.bytes <= self.budget || self.by_offset@.dom().len() == 1
    }

    pub fn new(budget: usize) -> (leaves: Leaves)
        ensures
            leaves.wf(),
            leaves.by_offset@ == Map::<u64, Leaf>::empty(),
            leaves.bytes == 0,
            leaves.budget == budget,
            leaves.clock == 0,
    {
        let leaves = Leaves { by_offset: HashMap::new(), bytes: 0, budget, clock: 0 };
        assert(leaves.by_offset@.dom() =~= Set::<u64>::empty());
        leaves
    }

    /// A key that was used no later than any other.
    fn least_recent(&self) -> (key: u64)
        requires
            !self.by_offset@.dom().is_empty(),
        ensures
            oldest(self.by_offset@, key),
    {
        let mut best: Option<(u64, u64)> = None;
        let ghost held = self.by_offset@;
        for k in it: self.by_offset.keys()
            invariant
                held == self.by_offset@,
                it.seq().unref().to_set() == held.dom(),
                forall|i: int| 0 <= i < it.index() ==> held.contains_key(*(#[trigger] it.seq()[i])),
                match best {
                    None => it.index() == 0,
                    Some((key, used)) => {
                        &&& held.contains_key(key)
                        &&& held[key].used == used
                        &&& forall|i: int|
                            0 <= i < it.index() ==> used <= held[*(#[trigger] it.seq()[i])].used
                    },
                },
        {
            assert(held.dom().contains(*k)) by {
                let keys = it.seq().unref();
                assert(keys[it.index()] == *k);
                assert(keys.to_set().contains(keys[it.index()]));
            }
            match self.by_offset.get(k) {
                Some(leaf) => {
                    match best {
                        Some((_, used)) => {
                            if leaf.used < used {
                                best = Some((*k, leaf.used));
                            }
                        },
                        None => {
                            best = Some((*k, leaf.used));
                        },
                    }
                },
                None => {},
            }
        }
        proof {
            let any = held.dom().choose();
            assert(held.dom().contains(any));
        }
        match best {
            Some((key, _)) => key,
            None => 0,
        }
    }

    /// Holds `entries` under `key`, stamped with the current time, after making
    /// room for them. A leaf larger than the whole budget still lands, and is
    /// then the only thing held.
    pub fn insert(&mut self, key: u64, entries: Vec<Entry>)
        requires
            old(self).wf(),
        ensures
            final(self).wf(),
            final(self).budget == old(self).budget,
            final(self).clock == old(self).clock,
            exists|kept: Map<u64, Leaf>|
                #[trigger] makes_room(
                    old(self).by_offset@.remove(key),
                    leaf_bytes(entries@.len()),
                    old(self).budget as int,
                    kept,
                ) && final(self).by_offset@ == kept.insert(
                    key,
                    Leaf { entries, used: old(self).clock },
                ),
    {
        let size: usize = size_of(&entries);
        let ghost before = self.by_offset@;
        proof {
            if before.contains_key(key) {
                lemma_weight_remove(before, key);
            } else {
                assert(before.remove(key) =~= before);
            }
        }
        match self.by_offset.remove(&key) {
            Some(gone) => {
                self.bytes = self.bytes - size_of(&gone.entries);
            },
            None => {},
        }
        let ghost start = self.by_offset@;
        assert(start =~= before.remove(key));
        let ghost budget = self.budget as int;
        while !self.by_offset.is_empty() && (size > self.budget || self.bytes > self.budget - size)
            invariant
                self.budget == old(self).budget,
                self.clock == old(self).clock,
                budget == self.budget,
                size == leaf_bytes(entries@.len()),
                self.bytes == weight(self.by_offset@),
                self.by_offset@.submap_of(start),
                !start.contains_key(key),
                forall|kept: Map<u64, Leaf>|
                    makes_room(self.by_offset@, size as int, budget, kept) ==> #[trigger] makes_room(
                        start,
                        size as int,
                        budget,
                        kept,
                    ),
            decreases self.by_offset@.dom().len(),
        {
            let ghost held = self.by_offset@;
            let oldest_key: u64 = self.least_recent();
            proof {
                lemma_weight_remove(held, oldest_key);
                assert(held.dom().contains(oldest_key));
            }
            match self.by_offset.remove(&oldest_key) {
                Some(gone) => {
                    self.bytes = self.bytes - size_of(&gone.entries);
                },
                None => {},
            }
            proof {
                assert(self.by_offset@ =~= held.remove(oldest_key));
                assert forall|kept: Map<u64, Leaf>|
                    makes_room(
                        self.by_offset@,
                        size as int,
                        budget,
                        kept,
                    ) implies #[trigger] makes_room(start, size as int, budget, kept) by {
                    assert(oldest(held, oldest_key));
                    assert(makes_room(held, size as int, budget, kept));
                }
            }
        }
        let ghost kept = self.by_offset@;
        proof {
            assert(makes_room(kept, size as int, budget, kept));
            assert(makes_room(start, size as int, budget, kept));
            assert(kept.dom().is_empty() ==> weight(kept) == 0);
            assert(!kept.contains_key(key)) by {
                if kept.contains_key(key) {
                    assert(kept.dom().contains(key));
                }
            }
            lemma_weight_insert(kept, key, Leaf { entries, used: self.clock });
            if kept.dom().is_empty() {
                assert(kept.insert(key, Leaf { entries, used: self.clock }).dom() =~= set![key]);
            }
        }
        self.bytes = self.bytes + size;
        let leaf = Leaf { entries, used: self.clock };
        self.by_offset.insert(key, leaf);
    }

    /// Stamps the leaf at `key` with the current time.
    pub fn touch(&mut self, key: u64)
        requires
            old(self).wf(),
        ensures
            final(self).wf(),
            final(self).bytes == old(self).bytes,
            final(self).budget == old(self).budget,
            final(self).clock == old(self).clock,
            !old(self).by_offset@.contains_key(key) ==> final(self).by_offset@
                == old(self).by_offset@,
            old(self).by_offset@.contains_key(key) ==> final(self).by_offset@
                == old(self).by_offset@.insert(
                key,
                Leaf { entries: old(self).by_offset@[key].entries, used: old(self).clock },
            ),
    {
        let ghost before = self.by_offset@;
        match self.by_offset.remove(&key) {
            Some(leaf) => {
                let ghost without = self.by_offset@;
                proof {
                    assert(without =~= before.remove(key));
                    lemma_weight_remove(before, key);
                    lemma_weight_insert(
                        without,
                        key,
                        Leaf { entries: leaf.entries, used: self.clock },
                    );
                }
                self.by_offset.insert(key, Leaf { entries: leaf.entries, used: self.clock });
                assert(self.by_offset@ =~= before.insert(
                    key,
                    Leaf { entries: leaf.entries, used: self.clock },
                ));
                assert(self.by_offset@.dom() =~= before.dom());
            },
            None => {
                assert(self.by_offset@ =~= before);
            },
        }
    }

    /// The directory held under `key`.
    pub fn entries(&self, key: u64) -> (r: Option<&Vec<Entry>>)
        ensures
            match r {
                Some(entries) => self.by_offset@.contains_key(key) && *entries
                    == self.by_offset@[key].entries,
                None => !self.by_offset@.contains_key(key),
            },
    {
        match self.by_offset.get(&key) {
            Some(leaf) => Some(&leaf.entries),
            None => None,
        }
    }
}

} // verus!
