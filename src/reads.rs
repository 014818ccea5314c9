use vstd::prelude::*;
use std::collections::HashMap;
use crate::genome::{lemma_occurrences_concat, occurrences};
use crate::sampler::{extract_markers, markers, MAX_K};

verus! {

broadcast use vstd::std_specs::hash::group_hash_axioms;

/// Count of `x` in a marker table, zero when absent.
pub open spec fn count_of(m: Map<u64, u64>, x: u64) -> nat {
    if m.contains_key(x) {
        m[x] as nat
    } else {
        0
    }
}

/// Markers of each sequence in turn, concatenated.
pub open spec fn batch_spec(seqs: Seq<Seq<u8>>, c: nat, k: nat) -> Seq<u64>
    decreases seqs.len(),
{
    if seqs.len() == 0 {
        Seq::empty()
    } else {
        batch_spec(seqs.drop_last(), c, k) + markers(seqs.last(), c, k)
    }
}

/// Sketch of a read set: how many times each marker was observed.
pub struct SequencesSketch {
    pub kmer_counts: HashMap<u64, u64>,
    pub file_name: String,
    pub c: usize,
    pub k: usize,
}

impl SequencesSketch {
    /// Every marker in the table has a positive count.
    pub open spec fn wf(&self) -> bool {
        forall|x: u64| #[trigger] self.kmer_counts@.contains_key(x) ==> self.kmer_counts@[x] > 0
    }

    /// An empty sketch for the sample file `file_name`.
    pub fn new(file_name: String, c: usize, k: usize) -> (r: SequencesSketch)
        ensures
            r.wf(),
            r.file_name == file_name,
            r.c == c,
            r.k == k,
            r.kmer_counts@ == Map::<u64, u64>::empty(),
    {
        SequencesSketch { kmer_counts: HashMap::new(), file_name, c, k }
    }

    /// Counts one more observation of every marker in `batch`.
    pub fn add_markers(&mut self, batch: &Vec<u64>)
        requires
            old(self).wf(),
            forall|x: u64|
                count_of(old(self).kmer_counts@, x) + occurrences(batch@, x) <= u64::MAX,
        ensures
            final(self).wf(),
            final(self).file_name == old(self).file_name,
            final(self).c == old(self).c,
            final(self).k == old(self).k,
            forall|x: u64|
                #[trigger] count_of(final(self).kmer_counts@, x) == count_of(
                    old(self).kmer_counts@,
                    x,
                ) + occurrences(batch@, x),
    {
        let ghost start = self.kmer_counts@;
        let mut i: usize = 0;
        while i < batch.len()
            invariant
                i <= batch.len(),
                self.wf(),
                self.file_name == old(self).file_name,
                self.c == old(self).c,
                self.k == old(self).k,
                start == old(self).kmer_counts@,
                forall|x: u64| count_of(start, x) + occurrences(batch@, x) <= u64::MAX,
                forall|x: u64|
                    #[trigger] count_of(self.kmer_counts@, x) == count_of(start, x) + occurrences(
                        batch@.take(i as int),
                        x,
                    ),
            decreases batch.len() - i,
        {
            let v = batch[i];
            proof {
                assert(batch@.take(i + 1).drop_last() == batch@.take(i as int));
                lemma_occurrences_prefix(batch@, i as int + 1, v);
                assert(count_of(start, v) + occurrences(batch@, v) <= u64::MAX);
                assert(count_of(self.kmer_counts@, v) == count_of(start, v) + occurrences(
                    batch@.take(i as int),
                    v,
                ));
            }
            let ghost before = self.kmer_counts@;
            let n = match self.kmer_counts.get(&v) {
                Some(n) => *n,
                None => 0,
            };
            proof {
                assert(n == count_of(before, v));
            }
            self.kmer_counts.insert(v, n + 1);
            proof {
                assert forall|x: u64|
                    #[trigger] count_of(self.kmer_counts@, x) == count_of(start, x) + occurrences(
                        batch@.take(i + 1),
                        x,
                    ) by {
                    assert(count_of(before, x) == count_of(start, x) + occurrences(
                        batch@.take(i as int),
                        x,
                    ));
                }
            }
            i = i + 1;
        }
        proof {
            assert(batch@.take(batch.len() as int) == batch@);
        }
    }
}

/// A value occurs in a prefix no more often than in the whole sequence.
pub proof fn lemma_occurrences_prefix(s: Seq<u64>, n: int, x: u64)
    requires
        0 <= n <= s.len(),
    ensures
        occurrences(s.take(n), x) <= occurrences(s, x),
    decreases s.len(),
{
    if n < s.len() {
        assert(s.drop_last().take(n) == s.take(n));
        lemma_occurrences_prefix(s.drop_last(), n, x);
    } else {
        assert(s.take(n) == s);
    }
}

/// The markers of a batch of records, record after record.
pub fn batch_markers(seqs: &Vec<Vec<u8>>, c: usize, k: usize) -> (r: Vec<u64>)
    requires
        c >= 1,
        1 <= k <= MAX_K,
    ensures
        r@ == batch_spec(seqs@.map_values(|v: Vec<u8>| v@), c as nat, k as nat),
{
    let ghost all = seqs@.map_values(|v: Vec<u8>| v@);
    let mut out: Vec<u64> = Vec::new();
    let mut i: usize = 0;
    while i < seqs.len()
        invariant
            i <= seqs.len(),
            c >= 1,
            1 <= k <= MAX_K,
            all == seqs@.map_values(|v: Vec<u8>| v@),
            out@ == batch_spec(all.take(i as int), c as nat, k as nat),
        decreases seqs.len() - i,
    {
        proof {
            assert(all.take(i + 1).drop_last() == all.take(i as int));
        }
        extract_markers(seqs[i].as_slice(), &mut out, c, k);
        i = i + 1;
    }
    proof {
        assert(all.take(seqs.len() as int) == all);
    }
    out
}


/// Sum over the records of how often the sampler produced `x` for each.
pub open spec fn record_total(seqs: Seq<Seq<u8>>, c: nat, k: nat, x: u64) -> nat
    decreases seqs.len(),
{
    if seqs.len() == 0 {
        0
    } else {
        record_total(seqs.drop_last(), c, k, x) + occurrences(markers(seqs.last(), c, k), x)
    }
}

/// A batch's markers hold `x` exactly as often as the sampler produced it over the batch's
/// records, so counting a batch's markers counts every record's markers.
pub proof fn lemma_batch_counts(seqs: Seq<Seq<u8>>, c: nat, k: nat, x: u64)
    ensures
        occurrences(batch_spec(seqs, c, k), x) == record_total(seqs, c, k, x),
    decreases seqs.len(),
{
    if seqs.len() > 0 {
        lemma_batch_counts(seqs.drop_last(), c, k, x);
        lemma_occurrences_concat(batch_spec(seqs.drop_last(), c, k), markers(seqs.last(), c, k), x);
    }
}

} // verus!
