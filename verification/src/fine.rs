//! The fine phase: one cell at a time is fully permuted in memory and cut
//! into shards of at most a fixed number of records. Every shard draws its
//! number from a counter shared by all cell tasks, so shard numbers are
//! dense and collision-free no matter which cell produced which shard.

use crate::ceil_div;
use crate::records::{
    group_records, lemma_group_records_flatten, lemma_group_records_push, lemma_groups_deep_view,
    lemma_records_deep_view,
};
use rand::seq::SliceRandom;
use vstd::arithmetic::div_mod::{lemma_basic_div, lemma_fundamental_div_mod_converse};
use vstd::multiset::Multiset;
use vstd::prelude::*;

verus! {

broadcast use vstd::multiset::group_multiset_axioms, vstd::seq_lib::group_to_multiset_ensures;

/// Relies on `rand::seq::SliceRandom::shuffle`: an in-place Fisher-Yates
/// permutation of the slice, drawn from the thread-local generator. The
/// records are rearranged; none is added, dropped or changed.
#[verifier::external_body]
fn shuffle_in_place(recs: &mut Vec<Vec<u8>>)
    ensures
        final(recs).deep_view().to_multiset() == old(recs).deep_view().to_multiset(),
        final(recs)@.len() == old(recs)@.len(),
{
    recs.as_mut_slice().shuffle(&mut rand::thread_rng());
}

/// The shared source of shard numbers: hands out 0, 1, 2, … in order, so
/// the numbers handed out are always exactly the range `[0, allocated)`.
pub struct ShardCounter {
    next: usize,
}

impl ShardCounter {
    /// How many numbers have been handed out so far.
    pub closed spec fn allocated(&self) -> nat {
        self.next as nat
    }

    /// A fresh counter; the first number it hands out is 0.
    pub fn new() -> (c: Self)
        ensures
            c.allocated() == 0,
    {
        ShardCounter { next: 0 }
    }

    /// How many numbers have been handed out, as a machine word.
    pub fn count(&self) -> (n: usize)
        ensures
            n == self.allocated(),
    {
        self.next
    }

    /// Hand out the next shard number.
    pub fn allocate(&mut self) -> (id: usize)
        requires
            old(self).allocated() < usize::MAX,
        ensures
            id == old(self).allocated(),
            final(self).allocated() == old(self).allocated() + 1,
    {
        let id = self.next;
        self.next = self.next + 1;
        id
    }
}

/// One output shard: a bounded batch of records under a globally unique,
/// densely assigned sequence number, from which its file name derives.
#[derive(Debug)]
pub struct Shard {
    /// The shard's number in the dense range `[0, total_shards)`.
    pub seq_num: usize,
    /// The records of the shard, one output line each.
    pub records: Vec<Vec<u8>>,
}

/// The multiset of records held across a sequence of shards.
pub open spec fn shard_records(ss: Seq<Shard>) -> Multiset<Seq<u8>>
    decreases ss.len(),
{
    if ss.len() == 0 {
        Multiset::<Seq<u8>>::empty()
    } else {
        shard_records(ss.drop_last()).add(ss.last().records.deep_view().to_multiset())
    }
}

/// Appending a shard adds exactly its records.
pub proof fn lemma_shard_records_push(ss: Seq<Shard>, s: Shard)
    ensures
        shard_records(ss.push(s)) == shard_records(ss).add(s.records.deep_view().to_multiset()),
{
    assert(ss.push(s).drop_last() =~= ss);
    assert(ss.push(s).last() == s);
}

/// Concatenating shard sequences adds their contents.
pub proof fn lemma_shard_records_concat(a: Seq<Shard>, b: Seq<Shard>)
    ensures
        shard_records(a + b) == shard_records(a).add(shard_records(b)),
    decreases b.len(),
{
    if b.len() == 0 {
        assert(a + b =~= a);
        assert(shard_records(a).add(Multiset::<Seq<u8>>::empty()) =~= shard_records(a));
    } else {
        lemma_shard_records_concat(a, b.drop_last());
        assert((a + b).drop_last() =~= a + b.drop_last());
        assert((a + b).last() == b.last());
        assert(shard_records(a).add(shard_records(b.drop_last())).add(
            b.last().records.deep_view().to_multiset(),
        ) =~= shard_records(a).add(
            shard_records(b.drop_last()).add(b.last().records.deep_view().to_multiset()),
        ));
    }
}

/// Split a sequence of records into contiguous chunks of at most `cap`
/// records: all chunks are exactly `cap` long except possibly the last,
/// and their concatenation is the input unchanged.
pub fn chunk_records(recs: Vec<Vec<u8>>, cap: usize) -> (chunks: Vec<Vec<Vec<u8>>>)
    requires
        cap > 0,
    ensures
        chunks.deep_view().flatten() == recs.deep_view(),
        chunks@.len() == ceil_div(recs@.len() as nat, cap as nat),
        forall|i: int|
            0 <= i < chunks@.len() ==> (#[trigger] chunks.deep_view()[i]).len() <= cap,
        forall|i: int|
            0 <= i < chunks@.len() - 1 ==> (#[trigger] chunks.deep_view()[i]).len() == cap,
{
    let ghost all = recs.deep_view();
    let mut chunks: Vec<Vec<Vec<u8>>> = Vec::new();
    let mut rest = recs;
    proof {
        lemma_records_deep_view(rest);
    }
    if rest.len() == 0 {
        proof {
            lemma_groups_deep_view(chunks);
            assert(chunks.deep_view() =~= Seq::<Seq<Seq<u8>>>::empty());
            assert(chunks.deep_view().flatten() =~= all);
            lemma_basic_div(cap - 1, cap as int);
        }
        return chunks;
    }
    proof {
        lemma_groups_deep_view(chunks);
        assert(chunks.deep_view() =~= Seq::<Seq<Seq<u8>>>::empty());
        assert(chunks.deep_view().flatten() =~= Seq::<Seq<u8>>::empty());
        assert(all =~= chunks.deep_view().flatten() + rest.deep_view());
    }
    while rest.len() > cap
        invariant
            cap > 0,
            rest@.len() > 0,
            rest.deep_view().len() == rest@.len(),
            chunks.deep_view().len() == chunks@.len(),
            all == chunks.deep_view().flatten() + rest.deep_view(),
            chunks.deep_view().flatten().len() == chunks@.len() * cap,
            forall|i: int|
                0 <= i < chunks@.len() ==> (#[trigger] chunks.deep_view()[i]).len() == cap,
        decreases rest@.len(),
    {
        let ghost chunks0 = chunks;
        let ghost rest0 = rest;
        let tail = rest.split_off(cap);
        let head = rest;
        rest = tail;
        proof {
            lemma_records_deep_view(rest0);
            lemma_records_deep_view(head);
            lemma_records_deep_view(rest);
            assert(head.deep_view() =~= rest0.deep_view().subrange(0, cap as int));
            assert(rest.deep_view() =~= rest0.deep_view().subrange(
                cap as int,
                rest0.deep_view().len() as int,
            ));
            assert(rest0.deep_view() =~= head.deep_view() + rest.deep_view());
        }
        chunks.push(head);
        proof {
            lemma_groups_deep_view(chunks0);
            lemma_groups_deep_view(chunks);
            assert(chunks.deep_view() =~= chunks0.deep_view().push(head.deep_view()));
            chunks0.deep_view().lemma_flatten_push(head.deep_view());
            assert(chunks.deep_view().flatten() =~= chunks0.deep_view().flatten()
                + head.deep_view());
            assert(all =~= chunks.deep_view().flatten() + rest.deep_view());
            assert(chunks@.len() * cap == chunks0@.len() * cap + cap) by (nonlinear_arith)
                requires
                    chunks@.len() == chunks0@.len() + 1,
            ;
        }
    }
    let ghost chunks0 = chunks;
    let ghost last_len = rest@.len() as int;
    let ghost full = chunks0@.len() as int;
    chunks.push(rest);
    proof {
        lemma_groups_deep_view(chunks0);
        lemma_groups_deep_view(chunks);
        lemma_records_deep_view(rest);
        assert(chunks.deep_view() =~= chunks0.deep_view().push(rest.deep_view()));
        chunks0.deep_view().lemma_flatten_push(rest.deep_view());
        assert(chunks.deep_view().flatten() =~= chunks0.deep_view().flatten()
            + rest.deep_view());
        assert(chunks.deep_view().flatten() =~= all);
        assert(all.len() == full * cap + last_len);
        assert((all.len() + cap - 1) as int == (full + 1) * (cap as int) + (last_len - 1))
            by (nonlinear_arith)
            requires
                all.len() == full * cap + last_len,
        ;
        lemma_fundamental_div_mod_converse(
            (all.len() + cap - 1) as int,
            cap as int,
            full + 1,
            last_len - 1,
        );
        assert(chunks@.len() == ceil_div(recs@.len() as nat, cap as nat));
    }
    chunks
}

/// The whole fine phase for one cell: permute its records uniformly at
/// random, cut the permuted sequence into chunks of at most `cap` records,
/// and number each chunk from the shared counter. The shards returned hold
/// exactly the cell's records; their numbers are the consecutive range
/// the counter advanced over.
pub fn fine_shuffle_cell(cell: Vec<Vec<u8>>, cap: usize, counter: &mut ShardCounter) -> (shards:
    Vec<Shard>)
    requires
        cap > 0,
        old(counter).allocated() + ceil_div(cell@.len() as nat, cap as nat) <= usize::MAX,
    ensures
        shards@.len() == ceil_div(cell@.len() as nat, cap as nat),
        final(counter).allocated() == old(counter).allocated() + shards@.len(),
        forall|i: int|
            0 <= i < shards@.len() ==> (#[trigger] shards@[i]).seq_num == old(
                counter,
            ).allocated() + i,
        forall|i: int|
            0 <= i < shards@.len() ==> (#[trigger] shards@[i]).records@.len() <= cap,
        forall|i: int|
            0 <= i < shards@.len() - 1 ==> (#[trigger] shards@[i]).records@.len() == cap,
        shard_records(shards@) == cell.deep_view().to_multiset(),
{
    let ghost cell_ms = cell.deep_view().to_multiset();
    let mut recs = cell;
    shuffle_in_place(&mut recs);
    let mut chunks = chunk_records(recs, cap);
    let ghost chunks0 = chunks;
    let ghost odv = chunks0.deep_view();
    let ghost total = chunks0@.len() as int;
    let ghost base = counter.allocated();
    proof {
        lemma_groups_deep_view(chunks0);
        lemma_group_records_flatten(odv);
    }
    let mut shards: Vec<Shard> = Vec::new();
    proof {
        assert(chunks@ =~= chunks0@.subrange(0, total));
        assert(odv.subrange(0, 0) =~= Seq::<Seq<Seq<u8>>>::empty());
    }
    while chunks.len() > 0
        invariant
            total == chunks0@.len(),
            odv == chunks0.deep_view(),
            odv.len() == total,
            shards@.len() + chunks@.len() == total,
            chunks@ == chunks0@.subrange(shards@.len() as int, total),
            counter.allocated() == base + shards@.len(),
            base + total <= usize::MAX,
            forall|i: int|
                0 <= i < shards@.len() ==> (#[trigger] shards@[i]).seq_num == base + i,
            forall|i: int|
                0 <= i < shards@.len() ==> (#[trigger] shards@[i]).records == chunks0@[i],
            shard_records(shards@) == group_records(odv.subrange(0, shards@.len() as int)),
        decreases chunks@.len(),
    {
        let ghost shards0 = shards;
        let ghost done = shards0@.len() as int;
        let chunk = chunks.remove(0);
        let id = counter.allocate();
        shards.push(Shard { seq_num: id, records: chunk });
        proof {
            assert(chunks@ =~= chunks0@.subrange(done + 1, total));
            lemma_shard_records_push(shards0@, shards@.last());
            lemma_groups_deep_view(chunks0);
            assert(chunk.deep_view() == odv[done]);
            assert(odv.subrange(0, done + 1) =~= odv.subrange(0, done).push(odv[done]));
            lemma_group_records_push(odv.subrange(0, done), odv[done]);
        }
    }
    proof {
        assert(odv.subrange(0, total) =~= odv);
        lemma_groups_deep_view(chunks0);
        assert forall|i: int|
            0 <= i < shards@.len() implies (#[trigger] shards@[i]).records@.len() <= cap by {
            lemma_records_deep_view(shards@[i].records);
            assert(shards@[i].records.deep_view() == odv[i]);
        }
        assert forall|i: int|
            0 <= i < shards@.len() - 1 implies (#[trigger] shards@[i]).records@.len() == cap by {
            lemma_records_deep_view(shards@[i].records);
            assert(shards@[i].records.deep_view() == odv[i]);
        }
    }
    shards
}

} // verus!
