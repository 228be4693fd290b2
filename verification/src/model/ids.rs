//! Lookup of items by id: the first item with a given id is the one found.
use vstd::prelude::*;

verus! {

/// Position of the first `id` in `ids`, or `ids.len()` when `id` does not occur.
pub open spec fn first_pos(ids: Seq<u64>, id: u64) -> nat
    decreases ids.len(),
{
    if ids.len() == 0 {
        0
    } else if ids[0] == id {
        0
    } else {
        1 + first_pos(ids.drop_first(), id)
    }
}

/// `first_pos` is the first occurrence, or the length when there is none.
pub proof fn lemma_first_pos(ids: Seq<u64>, id: u64)
    ensures
        first_pos(ids, id) <= ids.len(),
        first_pos(ids, id) < ids.len() ==> ids[first_pos(ids, id) as int] == id,
        forall|j: int| 0 <= j < first_pos(ids, id) ==> ids[j] != id,
    decreases ids.len(),
{
    if ids.len() > 0 && ids[0] != id {
        lemma_first_pos(ids.drop_first(), id);
        assert forall|j: int| 0 <= j < first_pos(ids, id) implies ids[j] != id by {
            if j > 0 {
                assert(ids[j] == ids.drop_first()[j - 1]);
            }
        }
    }
}

/// A position before which `id` does not occur, and at which it occurs or the
/// sequence ends, is `first_pos`.
pub proof fn lemma_first_pos_at(ids: Seq<u64>, id: u64, i: int)
    requires
        0 <= i <= ids.len(),
        i == ids.len() || ids[i] == id,
        forall|j: int| 0 <= j < i ==> ids[j] != id,
    ensures
        first_pos(ids, id) == i,
    decreases ids.len(),
{
    if ids.len() > 0 && i > 0 {
        assert(ids[0] != id);
        assert forall|j: int| 0 <= j < i - 1 implies ids.drop_first()[j] != id by {
            assert(ids.drop_first()[j] == ids[j + 1]);
        }
        lemma_first_pos_at(ids.drop_first(), id, i - 1);
    }
}

/// `id` occurs in `ids`.
pub open spec fn has_id(ids: Seq<u64>, id: u64) -> bool {
    first_pos(ids, id) < ids.len()
}


/// Whether `v` holds `id`.
pub fn contains_id(v: &Vec<u64>, id: u64) -> (r: bool)
    ensures
        r == v@.contains(id),
{
    for i in 0..v.len()
        invariant
            forall|j: int| 0 <= j < i ==> v@[j] != id,
    {
        if v[i] == id {
            assert(v@[i as int] == id);
            return true;
        }
    }
    false
}

} // verus!
