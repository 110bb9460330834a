//! The orchestrator: run the coarse phase over every input document to
//! completion, then the fine phase over every sealed cell. The two phases
//! are strictly sequential; a cell is handed to the fine phase only once
//! no document can contribute to it any more.

use crate::ceil_div;
use crate::coarse::CoarseShuffler;
use crate::fine::{fine_shuffle_cell, lemma_shard_records_concat, shard_records, Shard,
    ShardCounter};
use crate::lemma_ceil_div_le;
use crate::records::{
    group_records, lemma_group_records_drop_first, lemma_group_records_push,
    lemma_groups_deep_view, lemma_records_deep_view, total_records,
};
use vstd::multiset::Multiset;
use vstd::prelude::*;

verus! {

broadcast use vstd::multiset::group_multiset_axioms, vstd::seq_lib::group_to_multiset_ensures;

/// Why a run was rejected before any work was done.
#[derive(Clone, Copy, Debug, PartialEq, Eq, Structural)]
pub enum ShuffleError {
    /// The configuration is unusable: no cells to scatter into, or no
    /// room in a shard for even one record.
    ConfigError,
}

/// What a completed run hands back: the shards in sequence-number order,
/// and how many records each cell of the coarse phase received.
#[derive(Debug)]
pub struct ShuffleReport {
    /// All output shards; the shard at index `i` carries `seq_num == i`.
    pub shards: Vec<Shard>,
    /// Records per cell after the coarse phase, cell by cell.
    pub cell_sizes: Vec<usize>,
}

/// The records all the cells of `sizes` add up to.
pub open spec fn sum_counts(sizes: Seq<usize>) -> nat
    decreases sizes.len(),
{
    if sizes.len() == 0 {
        0
    } else {
        sum_counts(sizes.drop_last()) + sizes.last() as nat
    }
}

/// The shards the cells of `sizes` yield in all: each cell contributes
/// its record count divided by `cap`, rounded up.
pub open spec fn sum_shard_counts(sizes: Seq<usize>, cap: nat) -> nat
    decreases sizes.len(),
{
    if sizes.len() == 0 {
        0
    } else {
        sum_shard_counts(sizes.drop_last(), cap) + ceil_div(sizes.last() as nat, cap)
    }
}

/// Cell sizes add up to the records the cells hold.
proof fn lemma_sum_counts_total(cdv: Seq<Seq<Seq<u8>>>, sizes: Seq<usize>)
    requires
        sizes.len() == cdv.len(),
        forall|j: int| 0 <= j < cdv.len() ==> #[trigger] sizes[j] as nat == cdv[j].len(),
    ensures
        sum_counts(sizes) == total_records(cdv),
    decreases sizes.len(),
{
    if sizes.len() > 0 {
        lemma_sum_counts_total(cdv.drop_last(), sizes.drop_last());
    }
}

/// The coarse phase over a whole batch of documents: every record of
/// every document lands in exactly one of the `k` cells, so the cells are
/// pairwise disjoint as record holders and together hold exactly the
/// input multiset.
pub fn coarse_phase(docs: Vec<Vec<Vec<u8>>>, k: usize) -> (cells: Vec<Vec<Vec<u8>>>)
    requires
        k > 0,
    ensures
        cells.deep_view().len() == k,
        group_records(cells.deep_view()) == group_records(docs.deep_view()),
        total_records(cells.deep_view()) == total_records(docs.deep_view()),
{
    let ghost all = docs.deep_view();
    let mut docs = docs;
    let mut shuffler = CoarseShuffler::new(k);
    proof {
        lemma_groups_deep_view(docs);
        assert(docs.deep_view() =~= all.subrange(0, docs@.len() as int));
        assert(group_records(shuffler@).add(group_records(docs.deep_view())) =~= group_records(
            all,
        ));
    }
    while docs.len() > 0
        invariant
            shuffler@.len() == k,
            k > 0,
            docs@.len() <= all.len(),
            docs.deep_view() == all.subrange(0, docs@.len() as int),
            docs.deep_view().len() == docs@.len(),
            group_records(shuffler@).add(group_records(docs.deep_view())) == group_records(all),
            total_records(shuffler@) + total_records(docs.deep_view()) == total_records(all),
        decreases docs@.len(),
    {
        let ghost docs0 = docs;
        let ghost sh0 = shuffler@;
        let doc = docs.pop().unwrap();
        proof {
            lemma_groups_deep_view(docs0);
            lemma_groups_deep_view(docs);
            assert(docs.deep_view() =~= all.subrange(0, docs@.len() as int));
            assert(docs0.deep_view() =~= docs.deep_view().push(doc.deep_view()));
        }
        shuffler.process_document(doc);
        proof {
            lemma_group_records_push(docs.deep_view(), doc.deep_view());
            assert(group_records(sh0).add(doc.deep_view().to_multiset()).add(
                group_records(docs.deep_view()),
            ) =~= group_records(sh0).add(
                group_records(docs.deep_view()).add(doc.deep_view().to_multiset()),
            ));
        }
    }
    proof {
        assert(docs.deep_view() =~= Seq::<Seq<Seq<u8>>>::empty());
        assert(group_records(shuffler@).add(Multiset::<Seq<u8>>::empty()) =~= group_records(
            shuffler@,
        ));
    }
    shuffler.finalize()
}

/// The whole two-phase run over in-memory documents: scatter all records
/// into `k` cells at random, then permute and cut each cell into shards
/// of at most `cap` records. The shards hand back exactly the input
/// records; shard numbers are the dense range `[0, total)`, with the
/// total the sum over cells of their record count divided by `cap`,
/// rounded up.
pub fn run_shuffle(docs: Vec<Vec<Vec<u8>>>, k: usize, cap: usize) -> (r: Result<
    ShuffleReport,
    ShuffleError,
>)
    requires
        total_records(docs.deep_view()) <= usize::MAX,
    ensures
        r is Err <==> (k == 0 || cap == 0),
        (r matches Err(e) ==> e == ShuffleError::ConfigError),
        (r matches Ok(rep) ==> rep.cell_sizes@.len() == k),
        (r matches Ok(rep) ==> sum_counts(rep.cell_sizes@) == total_records(docs.deep_view())),
        (r matches Ok(rep) ==> rep.shards@.len() == sum_shard_counts(
            rep.cell_sizes@,
            cap as nat,
        )),
        (r matches Ok(rep) ==> forall|i: int|
            0 <= i < rep.shards@.len() ==> (#[trigger] rep.shards@[i]).seq_num == i),
        (r matches Ok(rep) ==> forall|i: int|
            0 <= i < rep.shards@.len() ==> (#[trigger] rep.shards@[i]).records@.len() <= cap),
        (r matches Ok(rep) ==> shard_records(rep.shards@) == group_records(docs.deep_view())),
{
    if k == 0 || cap == 0 {
        return Err(ShuffleError::ConfigError);
    }
    let ghost docs_ms = group_records(docs.deep_view());
    let ghost docs_total = total_records(docs.deep_view());
    let cells = coarse_phase(docs, k);

    let mut sizes: Vec<usize> = Vec::new();
    let mut i: usize = 0;
    proof {
        lemma_groups_deep_view(cells);
    }
    while i < cells.len()
        invariant
            i <= cells@.len(),
            sizes@.len() == i,
            cells.deep_view().len() == cells@.len(),
            forall|j: int|
                0 <= j < cells@.len() ==> #[trigger] cells.deep_view()[j].len()
                    == cells@[j]@.len(),
            forall|j: int| 0 <= j < i ==> #[trigger] sizes@[j] == cells@[j]@.len(),
        decreases cells@.len() - i,
    {
        sizes.push(cells[i].len());
        i = i + 1;
    }

    let ghost cdv = cells.deep_view();
    let ghost n = cells@.len() as int;
    proof {
        assert forall|j: int| 0 <= j < n implies #[trigger] sizes@[j] as nat == cdv[j].len() by {
            lemma_records_deep_view(cells@[j]);
        }
        lemma_sum_counts_total(cdv, sizes@);
    }

    let mut counter = ShardCounter::new();
    let mut shards: Vec<Shard> = Vec::new();
    let mut remaining = cells;
    let ghost cells0 = remaining;
    proof {
        assert(remaining@ =~= cells0@.subrange(0, n));
        assert(cdv.subrange(0, n) =~= cdv);
        assert(cdv.subrange(0, 0) =~= Seq::<Seq<Seq<u8>>>::empty());
        assert(sizes@.subrange(0, 0) =~= Seq::<usize>::empty());
    }
    while remaining.len() > 0
        invariant
            cap > 0,
            n == cells0@.len(),
            cdv == cells0.deep_view(),
            cdv.len() == n,
            sizes@.len() == n,
            forall|j: int| 0 <= j < n ==> #[trigger] sizes@[j] as nat == cdv[j].len(),
            forall|j: int| 0 <= j < n ==> #[trigger] cells0@[j]@.len() == cdv[j].len(),
            remaining@.len() <= n,
            remaining@ == cells0@.subrange(n - remaining@.len(), n),
            counter.allocated() == shards@.len(),
            counter.allocated() == sum_shard_counts(
                sizes@.subrange(0, n - remaining@.len() as int),
                cap as nat,
            ),
            counter.allocated() + total_records(cdv.subrange(n - remaining@.len(), n))
                <= usize::MAX,
            forall|i: int|
                0 <= i < shards@.len() ==> (#[trigger] shards@[i]).seq_num == i,
            forall|i: int|
                0 <= i < shards@.len() ==> (#[trigger] shards@[i]).records@.len() <= cap,
            shard_records(shards@) == group_records(cdv.subrange(0, n - remaining@.len())),
        decreases remaining@.len(),
    {
        let ghost p = n - remaining@.len();
        let ghost shards0 = shards;
        let cell = remaining.remove(0);
        proof {
            assert(cell == cells0@[p]);
            lemma_records_deep_view(cell);
            assert(cell.deep_view() == cdv[p]);
            assert(remaining@ =~= cells0@.subrange(p + 1, n));
            assert(cdv.subrange(p, n).first() == cdv[p]);
            assert(cdv.subrange(p, n).drop_first() =~= cdv.subrange(p + 1, n));
            lemma_group_records_drop_first(cdv.subrange(p, n));
            lemma_ceil_div_le(cell@.len() as nat, cap as nat);
        }
        let mut batch = fine_shuffle_cell(cell, cap, &mut counter);
        let ghost batch0 = batch@;
        shards.append(&mut batch);
        proof {
            lemma_shard_records_concat(shards0@, batch0);
            assert(sizes@.subrange(0, p + 1).drop_last() =~= sizes@.subrange(0, p));
            assert(sizes@.subrange(0, p + 1).last() == sizes@[p]);
            assert(sum_shard_counts(sizes@.subrange(0, p + 1), cap as nat) == sum_shard_counts(
                sizes@.subrange(0, p),
                cap as nat,
            ) + ceil_div(sizes@[p] as nat, cap as nat));
            assert(cdv.subrange(0, p + 1) =~= cdv.subrange(0, p).push(cdv[p]));
            lemma_group_records_push(cdv.subrange(0, p), cdv[p]);
        }
    }
    proof {
        assert(cdv.subrange(0, n) =~= cdv);
        assert(sizes@.subrange(0, n) =~= sizes@);
    }
    Ok(ShuffleReport { shards, cell_sizes: sizes })
}

} // verus!
