//! Registry-wide laws, stated over the registry's map model. The functions
//! of the registry relate to this model through their contracts: `set` and
//! a successful `update` make the map `old(self)@.insert(key@, value@)`, and
//! `get` returns the map's value for the key. These laws connect those
//! contracts across calls.

use vstd::prelude::*;

use crate::model::ValModel;

verus! {

/// After binding a key, reading that key finds exactly the bound value: the
/// map that `set` leaves behind answers `get` for that key with the value
/// that was bound.
pub proof fn lemma_set_then_get(m: Map<Seq<char>, ValModel>, k: Seq<char>, v: ValModel)
    ensures
        m.insert(k, v).dom().contains(k),
        m.insert(k, v)[k] == v,
{
}

/// Later writes win: two updates of the same key leave exactly the second
/// value, whatever was bound before. Updates of one key are serialized by
/// the registry, and any serialization order ends with the last value.
pub proof fn lemma_last_write_wins(
    m: Map<Seq<char>, ValModel>,
    k: Seq<char>,
    v1: ValModel,
    v2: ValModel,
)
    ensures
        m.insert(k, v1).insert(k, v2) == m.insert(k, v2),
{
    assert(m.insert(k, v1).insert(k, v2) =~= m.insert(k, v2));
}

/// Updates of distinct keys commute: operations on different keys are
/// independent, so the registry cannot observe their order.
pub proof fn lemma_distinct_keys_commute(
    m: Map<Seq<char>, ValModel>,
    k1: Seq<char>,
    v1: ValModel,
    k2: Seq<char>,
    v2: ValModel,
)
    requires
        k1 != k2,
    ensures
        m.insert(k1, v1).insert(k2, v2) == m.insert(k2, v2).insert(k1, v1),
{
    assert(m.insert(k1, v1).insert(k2, v2) =~= m.insert(k2, v2).insert(k1, v1));
}

/// The map after a sequence of updates of one key, applied in order.
pub open spec fn apply_same_key(
    m: Map<Seq<char>, ValModel>,
    k: Seq<char>,
    vs: Seq<ValModel>,
) -> Map<Seq<char>, ValModel>
    decreases vs.len(),
{
    if vs.len() == 0 {
        m
    } else {
        apply_same_key(m, k, vs.drop_last()).insert(k, vs.last())
    }
}

/// However many updates of one key are serialized by its slot, the slot ends
/// holding exactly the last written value in that order — always one of the
/// written values, never a mixture.
pub proof fn lemma_same_key_serialization(
    m: Map<Seq<char>, ValModel>,
    k: Seq<char>,
    vs: Seq<ValModel>,
)
    requires
        vs.len() > 0,
    ensures
        apply_same_key(m, k, vs) == m.insert(k, vs.last()),
    decreases vs.len(),
{
    if vs.len() == 1 {
        reveal_with_fuel(apply_same_key, 2);
    } else {
        lemma_same_key_serialization(m, k, vs.drop_last());
        assert(m.insert(k, vs.drop_last().last()).insert(k, vs.last()) =~= m.insert(k, vs.last()));
    }
}

} // verus!
