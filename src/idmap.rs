//! Lists of (identifier, value) pairs with distinct identifiers, read as maps.

use vstd::prelude::*;

verus! {

/// The map that a list of (identifier, value) pairs describes, the later pair winning.
pub open spec fn id_map<V>(s: Seq<(usize, V)>) -> Map<usize, V>
    decreases s.len(),
{
    if s.len() == 0 {
        Map::empty()
    } else {
        id_map(s.drop_last()).insert(s.last().0, s.last().1)
    }
}

pub open spec fn unique_ids<V>(s: Seq<(usize, V)>) -> bool {
    forall|i: int, j: int| 0 <= i < j < s.len() ==> s[i].0 != s[j].0
}

pub proof fn lemma_id_absent<V>(s: Seq<(usize, V)>, id: usize)
    requires
        forall|j: int| 0 <= j < s.len() ==> s[j].0 != id,
    ensures
        !id_map(s).contains_key(id),
    decreases s.len(),
{
    if s.len() > 0 {
        lemma_id_absent(s.drop_last(), id);
    }
}

pub proof fn lemma_id_at<V>(s: Seq<(usize, V)>, i: int)
    requires
        unique_ids(s),
        0 <= i < s.len(),
    ensures
        id_map(s).contains_key(s[i].0),
        id_map(s)[s[i].0] == s[i].1,
    decreases s.len(),
{
    if i < s.len() - 1 {
        lemma_id_at(s.drop_last(), i);
    }
}

pub proof fn lemma_id_remove<V>(s: Seq<(usize, V)>, i: int)
    requires
        unique_ids(s),
        0 <= i < s.len(),
    ensures
        id_map(s.remove(i)) == id_map(s).remove(s[i].0),
        unique_ids(s.remove(i)),
    decreases s.len(),
{
    let id = s[i].0;
    if i == s.len() - 1 {
        assert(s.remove(i) =~= s.drop_last());
        lemma_id_absent(s.drop_last(), id);
        assert(id_map(s.remove(i)) =~= id_map(s).remove(id));
    } else {
        lemma_id_remove(s.drop_last(), i);
        assert(s.remove(i) =~= s.drop_last().remove(i).push(s.last()));
        assert(s.remove(i).drop_last() =~= s.drop_last().remove(i));
        assert(id_map(s.remove(i)) =~= id_map(s).remove(id));
    }
}

/// Every key of the map is the identifier of some pair.
pub proof fn lemma_id_keys<V>(s: Seq<(usize, V)>, id: usize)
    requires
        id_map(s).contains_key(id),
    ensures
        exists|j: int| 0 <= j < s.len() && s[j].0 == id,
    decreases s.len(),
{
    if s.last().0 != id {
        lemma_id_keys(s.drop_last(), id);
        let j = choose|j: int| 0 <= j < s.drop_last().len() && s.drop_last()[j].0 == id;
        assert(s[j] == s.drop_last()[j]);
    } else {
        assert(s[s.len() - 1].0 == id);
    }
}

/// The identifier of every pair is a key of the map.
pub proof fn lemma_id_contains<V>(s: Seq<(usize, V)>, i: int)
    requires
        0 <= i < s.len(),
    ensures
        id_map(s).contains_key(s[i].0),
    decreases s.len(),
{
    if i < s.len() - 1 {
        lemma_id_contains(s.drop_last(), i);
        assert(s.drop_last()[i] == s[i]);
    }
}

} // verus!
