use vstd::prelude::*;

verus! {

/// First entry for `k` in an association list.
pub open spec fn assoc_get<V>(e: Seq<(Seq<char>, V)>, k: Seq<char>) -> Option<V>
    decreases e.len(),
{
    if e.len() == 0 {
        None
    } else if e[0].0 == k {
        Some(e[0].1)
    } else {
        assoc_get(e.drop_first(), k)
    }
}

/// The association list as a map.
pub open spec fn assoc_map<V>(e: Seq<(Seq<char>, V)>) -> Map<Seq<char>, V> {
    Map::new(|k: Seq<char>| assoc_get(e, k) is Some, |k: Seq<char>| assoc_get(e, k).unwrap())
}

pub proof fn lemma_assoc_get_prefix<V>(e: Seq<(Seq<char>, V)>, k: Seq<char>, i: int)
    requires
        0 <= i <= e.len(),
        forall|j: int| 0 <= j < i ==> e[j].0 != k,
    ensures
        assoc_get(e, k) == assoc_get(e.subrange(i, e.len() as int), k),
    decreases i,
{
    if i > 0 {
        lemma_assoc_get_prefix(e.drop_first(), k, i - 1);
        assert(e.drop_first().subrange(i - 1, e.drop_first().len() as int) == e.subrange(
            i,
            e.len() as int,
        ));
    } else {
        assert(e.subrange(0, e.len() as int) == e);
    }
}

pub proof fn lemma_assoc_get_update<V>(e: Seq<(Seq<char>, V)>, i: int, k: Seq<char>, v: V, q: Seq<char>)
    requires
        0 <= i < e.len(),
        e[i].0 == k,
        forall|j: int| 0 <= j < i ==> e[j].0 != k,
    ensures
        assoc_get(e.update(i, (k, v)), q) == if q == k {
            Some(v)
        } else {
            assoc_get(e, q)
        },
    decreases i,
{
    if i > 0 {
        lemma_assoc_get_update(e.drop_first(), i - 1, k, v, q);
        assert(e.update(i, (k, v)).drop_first() == e.drop_first().update(i - 1, (k, v)));
        assert(e.update(i, (k, v))[0] == e[0]);
    } else {
        assert(e.update(0, (k, v)).drop_first() == e.drop_first());
    }
}

pub proof fn lemma_assoc_get_push<V>(e: Seq<(Seq<char>, V)>, k: Seq<char>, v: V, q: Seq<char>)
    requires
        assoc_get(e, k) is None,
    ensures
        assoc_get(e.push((k, v)), q) == if q == k {
            Some(v)
        } else {
            assoc_get(e, q)
        },
    decreases e.len(),
{
    if e.len() > 0 {
        assert(e[0].0 != k);
        lemma_assoc_get_push(e.drop_first(), k, v, q);
        assert(e.push((k, v)).drop_first() == e.drop_first().push((k, v)));
        assert(e.push((k, v))[0] == e[0]);
    } else {
        assert(e.push((k, v)).drop_first() =~= e);
    }
}

} // verus!
