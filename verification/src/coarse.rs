//! The coarse phase: every record of every input document is appended to
//! one of K cells, the cell drawn independently and uniformly at random
//! per record. The cells together hold exactly the input records; which
//! cell holds which record is the only thing left to chance.

use crate::records::{
    group_records, lemma_group_records_empty, lemma_group_records_update_push,
    lemma_groups_deep_view, lemma_records_deep_view, total_records,
};
use vstd::multiset::Multiset;
use vstd::prelude::*;
use vstd::seq_lib::group_to_multiset_ensures;

verus! {

broadcast use vstd::multiset::group_multiset_axioms, group_to_multiset_ensures;

/// Relies on `rand::random`: one machine word from the thread-local
/// generator. Nothing is promised of its value.
#[verifier::external_body]
fn random_word() -> usize {
    rand::random::<usize>()
}

/// Draw a cell index uniformly from `{0, …, k-1}`: a random machine word
/// reduced modulo `k`.
pub fn draw_cell_index(k: usize) -> (idx: usize)
    requires
        k > 0,
    ensures
        idx < k,
{
    random_word() % k
}

/// The K cells of the coarse phase: append-only accumulation targets for
/// records until the coarse/fine barrier seals them.
pub struct CoarseShuffler {
    cells: Vec<Vec<Vec<u8>>>,
}

impl CoarseShuffler {
    /// The cells, each an ordered sequence of records.
    pub closed spec fn view(&self) -> Seq<Seq<Seq<u8>>> {
        self.cells.deep_view()
    }

    /// Create `k` empty cells.
    pub fn new(k: usize) -> (s: Self)
        ensures
            s@.len() == k,
            forall|i: int| 0 <= i < k ==> #[trigger] s@[i].len() == 0,
            group_records(s@) == Multiset::<Seq<u8>>::empty(),
            total_records(s@) == 0,
    {
        let mut cells: Vec<Vec<Vec<u8>>> = Vec::new();
        let mut i: usize = 0;
        while i < k
            invariant
                i <= k,
                cells@.len() == i,
                forall|j: int| 0 <= j < i ==> #[trigger] cells@[j]@.len() == 0,
            decreases k - i,
        {
            cells.push(Vec::new());
            i = i + 1;
        }
        let s = CoarseShuffler { cells };
        proof {
            lemma_groups_deep_view(s.cells);
            assert forall|j: int| 0 <= j < k implies #[trigger] s@[j].len() == 0 by {
                lemma_records_deep_view(s.cells@[j]);
            }
            lemma_group_records_empty(s@);
        }
        s
    }

    /// How many cells there are.
    pub fn cell_count(&self) -> (k: usize)
        ensures
            k == self@.len(),
    {
        proof {
            lemma_groups_deep_view(self.cells);
        }
        self.cells.len()
    }

    /// Append one record to the cell at `idx`.
    pub fn append_record(&mut self, idx: usize, rec: Vec<u8>)
        requires
            idx < old(self)@.len(),
        ensures
            final(self)@ == old(self)@.update(
                idx as int,
                old(self)@[idx as int].push(rec@),
            ),
    {
        proof {
            lemma_groups_deep_view(self.cells);
        }
        let ghost before = self.cells;
        self.cells[idx].push(rec);
        proof {
            lemma_groups_deep_view(before);
            lemma_groups_deep_view(self.cells);
            lemma_records_deep_view(before@[idx as int]);
            lemma_records_deep_view(self.cells@[idx as int]);
            assert(self.cells@[idx as int].deep_view() =~= before@[idx as int].deep_view().push(
                rec@,
            ));
            assert(self.cells.deep_view() =~= before.deep_view().update(
                idx as int,
                before.deep_view()[idx as int].push(rec@),
            ));
        }
    }

    /// Scatter every record of one input document: for each record an
    /// independent uniform draw picks the cell it is appended to. The
    /// document is consumed whole; every one of its records is in the
    /// cells when the call returns, and nothing else changes.
    pub fn process_document(&mut self, doc: Vec<Vec<u8>>)
        requires
            old(self)@.len() > 0,
        ensures
            final(self)@.len() == old(self)@.len(),
            group_records(final(self)@) == group_records(old(self)@).add(
                doc.deep_view().to_multiset(),
            ),
            total_records(final(self)@) == total_records(old(self)@) + doc@.len(),
            forall|i: int|
                0 <= i < old(self)@.len() ==> (#[trigger] old(self)@[i]).is_prefix_of(
                    final(self)@[i],
                ),
    {
        let ghost init = self@;
        let ghost orig = doc.deep_view();
        let mut doc = doc;
        proof {
            lemma_records_deep_view(doc);
        }
        while doc.len() != 0
            invariant
                self@.len() == init.len(),
                init.len() > 0,
                doc@.len() <= orig.len(),
                doc.deep_view() == orig.subrange(0, doc@.len() as int),
                doc.deep_view().len() == doc@.len(),
                group_records(self@).add(doc.deep_view().to_multiset()) == group_records(
                    init,
                ).add(orig.to_multiset()),
                total_records(self@) + doc@.len() == total_records(init) + orig.len(),
                forall|i: int|
                    0 <= i < init.len() ==> (#[trigger] init[i]).is_prefix_of(self@[i]),
            decreases doc@.len(),
        {
            let ghost doc0 = doc;
            let ghost cells0 = self@;
            let rec = doc.pop().unwrap();
            let k = self.cell_count();
            let idx = draw_cell_index(k);
            self.append_record(idx, rec);
            proof {
                lemma_records_deep_view(doc0);
                lemma_records_deep_view(doc);
                assert(doc.deep_view() =~= orig.subrange(0, doc@.len() as int));
                assert(doc0.deep_view() =~= doc.deep_view().push(rec@));
                assert(doc.deep_view().push(rec@).to_multiset() =~= doc.deep_view().to_multiset().insert(
                    rec@,
                ));
                lemma_group_records_update_push(cells0, idx as int, rec@);
                assert(group_records(cells0).insert(rec@).add(doc.deep_view().to_multiset())
                    =~= group_records(cells0).add(doc.deep_view().to_multiset().insert(rec@)));
                assert forall|i: int|
                    0 <= i < init.len() implies (#[trigger] init[i]).is_prefix_of(self@[i]) by {
                    if i == idx as int {
                        assert(init[i].is_prefix_of(cells0[i]));
                        assert(cells0[i].push(rec@).subrange(0, init[i].len() as int)
                            =~= cells0[i].subrange(0, init[i].len() as int));
                    }
                }
            }
        }
        proof {
            assert(doc.deep_view() =~= Seq::<Seq<u8>>::empty());
            assert(doc.deep_view().to_multiset().len() == 0);
            assert(doc.deep_view().to_multiset() =~= Multiset::<Seq<u8>>::empty());
            assert(group_records(self@).add(Multiset::<Seq<u8>>::empty()) =~= group_records(
                self@,
            ));
            assert(orig.to_multiset() =~= Multiset::<Seq<u8>>::empty().add(orig.to_multiset()));
            assert(group_records(init).add(orig.to_multiset()) == group_records(self@));
        }
    }

    /// Seal the cells at the coarse/fine barrier and hand them over to the
    /// fine phase.
    pub fn finalize(self) -> (cells: Vec<Vec<Vec<u8>>>)
        ensures
            cells.deep_view() == self@,
    {
        self.cells
    }
}

} // verus!
