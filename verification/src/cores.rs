//! Taken cores and free cores: the cores that the scanned processes are
//! pinned to, and the candidates that are left.

use std::collections::HashSet;
use vstd::prelude::*;

verus! {

broadcast use vstd::std_specs::hash::group_hash_axioms;

/// A process that is pinned to a single core.
#[derive(Clone, Debug, PartialEq, Eq)]
pub struct AffinityRecord {
    /// The name of the process among the running processes.
    pub process: String,
    /// The core that it is pinned to.
    pub core: u32,
}

/// The cores of the first `n` records.
pub open spec fn taken_among(records: Seq<AffinityRecord>, n: int) -> Set<u32> {
    Set::new(|core: u32| exists|i: int| 0 <= i < n && (#[trigger] records[i]).core == core)
}

/// The taken cores: those that at least one record names.
pub open spec fn taken_set(records: Seq<AffinityRecord>) -> Set<u32> {
    taken_among(records, records.len() as int)
}

/// The free cores: the candidates that are not taken, in the order of the
/// candidates, each as often as it stands among them.
pub open spec fn free_list(candidates: Seq<u32>, taken: Set<u32>) -> Seq<u32> {
    candidates.filter(|core: u32| !taken.contains(core))
}

/// Merges the records into the set of taken cores.
pub fn taken_cores(records: &Vec<AffinityRecord>) -> (taken: HashSet<u32>)
    ensures
        taken@ == taken_set(records@),
{
    let mut taken: HashSet<u32> = HashSet::new();
    let n: usize = records.len();
    let mut i: usize = 0;
    assert(taken@ =~= taken_among(records@, 0));
    while i < n
        invariant
            i <= n,
            n == records@.len(),
            taken@ == taken_among(records@, i as int),
        decreases n - i,
    {
        let core: u32 = records[i].core;
        taken.insert(core);
        i = i + 1;
        assert(taken@ =~= taken_among(records@, i as int)) by {
            assert forall|c: u32| taken_among(records@, i as int).contains(c) implies taken@.contains(
                c,
            ) by {
                let j = choose|j: int| 0 <= j < i && (#[trigger] records@[j]).core == c;
                if j < i - 1 {
                    assert(taken_among(records@, i - 1).contains(c));
                }
            }
            assert forall|c: u32| taken@.contains(c) implies taken_among(
                records@,
                i as int,
            ).contains(c) by {
                if c == core {
                    assert(records@[i - 1].core == c);
                } else {
                    assert(taken_among(records@, i - 1).contains(c));
                    let j = choose|j: int| 0 <= j < i - 1 && (#[trigger] records@[j]).core == c;
                    assert(records@[j].core == c);
                }
            }
        }
    }
    taken
}

/// Leaves out the candidates that are taken.
pub fn free_cores(candidates: &Vec<u32>, taken: &HashSet<u32>) -> (free: Vec<u32>)
    ensures
        free@ == free_list(candidates@, taken@),
{
    let mut free: Vec<u32> = Vec::new();
    let n: usize = candidates.len();
    let mut i: usize = 0;
    let ghost is_free = |core: u32| !taken@.contains(core);
    proof {
        reveal(Seq::filter);
        assert(candidates@.take(0) =~= Seq::<u32>::empty());
    }
    while i < n
        invariant
            i <= n,
            n == candidates@.len(),
            is_free == |core: u32| !taken@.contains(core),
            free@ == candidates@.take(i as int).filter(is_free),
        decreases n - i,
    {
        let core: u32 = candidates[i];
        proof {
            reveal(Seq::filter);
            let longer = candidates@.take(i + 1);
            assert(longer.drop_last() =~= candidates@.take(i as int));
            assert(longer.last() == core);
        }
        if !taken.contains(&core) {
            free.push(core);
        }
        i = i + 1;
    }
    assert(candidates@.take(n as int) =~= candidates@);
    free
}

/// Merging two lots of records gives the union of their taken cores.
pub proof fn lemma_taken_set_of_both(first: Seq<AffinityRecord>, second: Seq<AffinityRecord>)
    ensures
        taken_set(first + second) == taken_set(first).union(taken_set(second)),
{
    let both = first + second;
    assert forall|core: u32| taken_set(both).contains(core) implies taken_set(first).union(
        taken_set(second),
    ).contains(core) by {
        let i = choose|i: int| 0 <= i < both.len() && (#[trigger] both[i]).core == core;
        if i < first.len() {
            assert(first[i].core == core);
        } else {
            assert(second[i - first.len()].core == core);
        }
    }
    assert forall|core: u32|
        taken_set(first).union(taken_set(second)).contains(core) implies taken_set(both).contains(
        core,
    ) by {
        if taken_set(first).contains(core) {
            let i = choose|i: int| 0 <= i < first.len() && (#[trigger] first[i]).core == core;
            assert(both[i].core == core);
        } else {
            let i = choose|i: int| 0 <= i < second.len() && (#[trigger] second[i]).core == core;
            assert(both[i + first.len()].core == core);
        }
    }
    assert(taken_set(both) =~= taken_set(first).union(taken_set(second)));
}

/// The order in which the records arrive does not matter: the same records
/// in another order give the same taken cores.
pub proof fn lemma_taken_set_ignores_order(records: Seq<AffinityRecord>, other: Seq<AffinityRecord>)
    requires
        records.to_multiset() == other.to_multiset(),
    ensures
        taken_set(records) == taken_set(other),
{
    lemma_taken_subset(records, other);
    lemma_taken_subset(other, records);
    assert(taken_set(records) =~= taken_set(other));
}

/// Every core that `records` name is named by `other`, if `other` holds the
/// same records.
proof fn lemma_taken_subset(records: Seq<AffinityRecord>, other: Seq<AffinityRecord>)
    requires
        records.to_multiset() == other.to_multiset(),
    ensures
        forall|core: u32| taken_set(records).contains(core) ==> taken_set(other).contains(core),
{
    broadcast use vstd::seq_lib::group_to_multiset_ensures;

    assert forall|core: u32| taken_set(records).contains(core) implies taken_set(other).contains(
        core,
    ) by {
        let i = choose|i: int| 0 <= i < records.len() && (#[trigger] records[i]).core == core;
        let record = records[i];
        assert(records.contains(record));
        assert(other.to_multiset().count(record) > 0);
        assert(other.contains(record));
        let j = choose|j: int| 0 <= j < other.len() && other[j] == record;
        assert(other[j].core == core);
    }
}

/// A core is free exactly if it is a candidate that no record names.
pub proof fn lemma_free_cores_are_untaken_candidates(
    candidates: Seq<u32>,
    taken: Set<u32>,
    core: u32,
)
    ensures
        free_list(candidates, taken).contains(core) <==> candidates.contains(core)
            && !taken.contains(core),
{
    let is_free = |c: u32| !taken.contains(c);
    let free = free_list(candidates, taken);
    if free.contains(core) {
        let i = choose|i: int| 0 <= i < free.len() && free[i] == core;
        candidates.lemma_filter_pred(is_free, i);
        candidates.lemma_filter_contains_rev(is_free, core);
    }
    if candidates.contains(core) && !taken.contains(core) {
        let i = choose|i: int| 0 <= i < candidates.len() && candidates[i] == core;
        candidates.lemma_filter_contains(is_free, i);
    }
}

} // verus!
