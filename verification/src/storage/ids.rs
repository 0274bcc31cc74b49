//! Sets of series ids.
use std::collections::BTreeSet;
use vstd::prelude::*;
use vstd::std_specs::iter::IteratorSpec;

verus! {

broadcast use vstd::laws_cmp::group_laws_cmp;

/// The ids stand in increasing order, each once.
pub open spec fn increasing(s: Seq<u64>) -> bool {
    forall|i: int, j: int| 0 <= i < j < s.len() ==> s[i] < s[j]
}

/// Adds ids to a set.
pub fn add_ids(set: &mut BTreeSet<u64>, ids: &[u64])
    ensures
        final(set)@ == old(set)@.union(ids@.to_set()),
{
    let ghost before = set@;
    let mut i: usize = 0;
    assert(set@ =~= before.union(ids@.take(0).to_set()));
    while i < ids.len()
        invariant
            i <= ids@.len(),
            set@ == before.union(ids@.take(i as int).to_set()),
        decreases ids@.len() - i,
    {
        let id = ids[i];
        let ghost grown = ids@.take(i + 1);
        let ghost sofar = ids@.take(i as int);
        set.insert(id);
        proof {
            assert(grown =~= sofar.push(id));
            assert(grown.to_set() =~= sofar.to_set().insert(id)) by {
                assert forall|x: u64| grown.contains(x) <==> sofar.contains(x) || x == id by {
                    if sofar.contains(x) {
                        let k = choose|k: int| 0 <= k < sofar.len() && sofar[k] == x;
                        assert(grown[k] == x);
                    }
                    if x == id {
                        assert(grown[sofar.len() as int] == x);
                    }
                }
            }
            assert(set@ =~= before.union(grown.to_set()));
        }
        i = i + 1;
    }
    assert(ids@.take(i as int) =~= ids@);
}

/// Lists a set of ids in increasing order.
pub fn ordered(set: &BTreeSet<u64>) -> (out: Vec<u64>)
    ensures
        increasing(out@),
        out@.to_set() == set@,
        out@.len() == set@.len(),
{
    broadcast use vstd::std_specs::btree::group_btree_axioms;

    let mut out: Vec<u64> = Vec::new();
    let it = set.iter();
    let ghost all = it.remaining();
    for id in iter: set.iter()
        invariant
            iter.seq() == all,
            out@.len() == iter.index(),
            forall|k: int| 0 <= k < out@.len() ==> out@[k] == *all[k],
    {
        out.push(*id);
    }
    proof {
        assert forall|i: int, j: int| 0 <= i < j < out@.len() implies out@[i] < out@[j] by {
            assert(vstd::std_specs::cmp::OrdSpec::cmp_spec(&all[i], &all[j]) is Less);
        }
        assert(out@ =~= all.unref());
    }
    out
}

} // verus!
