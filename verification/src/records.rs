//! The mathematical model of records and record groups.
//!
//! A record is an opaque line of bytes, modelled as `Seq<u8>`. Documents,
//! cells and shards are all groups of records, modelled as `Seq<Seq<u8>>`;
//! a collection of groups is a `Seq<Seq<Seq<u8>>>`. Since records may
//! repeat, the contents of a collection is a `Multiset<Seq<u8>>`.

use vstd::multiset::Multiset;
use vstd::prelude::*;
use vstd::seq_lib::group_to_multiset_ensures;

verus! {

broadcast use vstd::multiset::group_multiset_axioms;

/// The multiset of records held across a collection of record groups
/// (the cells of a shuffler, or a batch of input documents).
pub open spec fn group_records(gs: Seq<Seq<Seq<u8>>>) -> Multiset<Seq<u8>>
    decreases gs.len(),
{
    if gs.len() == 0 {
        Multiset::<Seq<u8>>::empty()
    } else {
        group_records(gs.drop_last()).add(gs.last().to_multiset())
    }
}

/// The total number of records held across a collection of record groups.
pub open spec fn total_records(gs: Seq<Seq<Seq<u8>>>) -> nat
    decreases gs.len(),
{
    if gs.len() == 0 {
        0
    } else {
        total_records(gs.drop_last()) + gs.last().len()
    }
}

/// Appending a whole group adds exactly its records to the collection.
pub proof fn lemma_group_records_push(gs: Seq<Seq<Seq<u8>>>, g: Seq<Seq<u8>>)
    ensures
        group_records(gs.push(g)) == group_records(gs).add(g.to_multiset()),
        total_records(gs.push(g)) == total_records(gs) + g.len(),
{
    assert(gs.push(g).drop_last() =~= gs);
    assert(gs.push(g).last() == g);
}

/// Appending one record to one group of a collection adds exactly that
/// record to the collection's contents.
pub proof fn lemma_group_records_update_push(gs: Seq<Seq<Seq<u8>>>, i: int, r: Seq<u8>)
    requires
        0 <= i < gs.len(),
    ensures
        group_records(gs.update(i, gs[i].push(r))) == group_records(gs).insert(r),
        total_records(gs.update(i, gs[i].push(r))) == total_records(gs) + 1,
    decreases gs.len(),
{
    broadcast use group_to_multiset_ensures;

    let gs2 = gs.update(i, gs[i].push(r));
    if i == gs.len() - 1 {
        assert(gs2.drop_last() =~= gs.drop_last());
        assert(gs2.last() == gs.last().push(r));
        assert(gs.last().push(r).to_multiset() =~= gs.last().to_multiset().insert(r));
        assert(group_records(gs.drop_last()).add(gs.last().to_multiset().insert(r)) =~= group_records(
            gs.drop_last(),
        ).add(gs.last().to_multiset()).insert(r));
    } else {
        lemma_group_records_update_push(gs.drop_last(), i, r);
        assert(gs2.drop_last() =~= gs.drop_last().update(i, gs.drop_last()[i].push(r)));
        assert(gs2.last() == gs.last());
        assert(group_records(gs.drop_last()).insert(r).add(gs.last().to_multiset()) =~= group_records(
            gs.drop_last(),
        ).add(gs.last().to_multiset()).insert(r));
    }
}

/// A collection of empty groups holds no records.
pub proof fn lemma_group_records_empty(gs: Seq<Seq<Seq<u8>>>)
    requires
        forall|i: int| 0 <= i < gs.len() ==> #[trigger] gs[i].len() == 0,
    ensures
        group_records(gs) == Multiset::<Seq<u8>>::empty(),
        total_records(gs) == 0,
    decreases gs.len(),
{
    broadcast use group_to_multiset_ensures;

    if gs.len() > 0 {
        lemma_group_records_empty(gs.drop_last());
        assert(gs.last().to_multiset().len() == 0);
        assert(gs.last().to_multiset() =~= Multiset::<Seq<u8>>::empty());
        assert(Multiset::<Seq<u8>>::empty().add(Multiset::<Seq<u8>>::empty())
            =~= Multiset::<Seq<u8>>::empty());
    }
}

/// The contents of a collection is the multiset of its flattening.
pub proof fn lemma_group_records_flatten(gs: Seq<Seq<Seq<u8>>>)
    ensures
        group_records(gs) == gs.flatten().to_multiset(),
    decreases gs.len(),
{
    broadcast use group_to_multiset_ensures;

    if gs.len() == 0 {
        assert(gs.flatten() =~= Seq::<Seq<u8>>::empty());
        assert(Seq::<Seq<u8>>::empty().to_multiset().len() == 0);
        assert(Seq::<Seq<u8>>::empty().to_multiset() =~= Multiset::<Seq<u8>>::empty());
    } else {
        lemma_group_records_flatten(gs.drop_last());
        gs.drop_last().lemma_flatten_and_flatten_alt_are_equivalent();
        gs.lemma_flatten_and_flatten_alt_are_equivalent();
        assert(gs.flatten_alt() == gs.drop_last().flatten_alt() + gs.last());
        vstd::seq_lib::lemma_multiset_commutative(
            gs.drop_last().flatten_alt(),
            gs.last(),
        );
        assert(group_records(gs) == group_records(gs.drop_last()).add(gs.last().to_multiset()));
        assert(group_records(gs.drop_last()) == gs.drop_last().flatten().to_multiset());
        assert(gs.drop_last().flatten() == gs.drop_last().flatten_alt());
        assert(gs.flatten_alt().to_multiset() == gs.drop_last().flatten_alt().to_multiset().add(
            gs.last().to_multiset(),
        ));
        assert(gs.flatten() == gs.flatten_alt());
    }
}

/// A collection's contents can also be read off front group first.
pub proof fn lemma_group_records_drop_first(gs: Seq<Seq<Seq<u8>>>)
    requires
        gs.len() > 0,
    ensures
        group_records(gs) == gs.first().to_multiset().add(group_records(gs.drop_first())),
        total_records(gs) == gs.first().len() + total_records(gs.drop_first()),
    decreases gs.len(),
{
    if gs.len() == 1 {
        assert(gs.drop_last() =~= Seq::<Seq<Seq<u8>>>::empty());
        assert(gs.drop_first() =~= Seq::<Seq<Seq<u8>>>::empty());
        assert(gs.last() == gs.first());
        assert(Multiset::<Seq<u8>>::empty().add(gs.first().to_multiset()) =~= gs.first().to_multiset().add(
            Multiset::<Seq<u8>>::empty(),
        ));
    } else {
        lemma_group_records_drop_first(gs.drop_last());
        assert(gs.drop_last().first() == gs.first());
        assert(gs.drop_last().drop_first() =~= gs.drop_first().drop_last());
        assert(gs.drop_first().last() == gs.last());
        assert(gs.first().to_multiset().add(group_records(gs.drop_first().drop_last())).add(
            gs.last().to_multiset(),
        ) =~= gs.first().to_multiset().add(
            group_records(gs.drop_first().drop_last()).add(gs.last().to_multiset()),
        ));
    }
}

/// The byte sequences a vector of records stands for.
pub proof fn lemma_records_deep_view(v: Vec<Vec<u8>>)
    ensures
        v.deep_view().len() == v@.len(),
        forall|i: int| 0 <= i < v@.len() ==> v.deep_view()[i] == v@[i]@,
{
    assert forall|i: int| 0 <= i < v@.len() implies v.deep_view()[i] == v@[i]@ by {
        assert(v@[i].deep_view() =~= v@[i]@);
    }
}

/// The record groups a vector of record vectors stands for.
pub proof fn lemma_groups_deep_view(v: Vec<Vec<Vec<u8>>>)
    ensures
        v.deep_view().len() == v@.len(),
        forall|i: int| 0 <= i < v@.len() ==> v.deep_view()[i] == v@[i].deep_view(),
{
}

} // verus!
