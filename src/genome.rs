use vstd::prelude::*;
use crate::sampler::{extract_markers, markers, MAX_K};

verus! {

broadcast use vstd::std_specs::hash::group_hash_axioms;

/// Number of times `x` occurs in `s`.
pub open spec fn occurrences(s: Seq<u64>, x: u64) -> nat
    decreases s.len(),
{
    if s.len() == 0 {
        0
    } else {
        occurrences(s.drop_last(), x) + if s.last() == x {
            1nat
        } else {
            0nat
        }
    }
}

/// The elements of `s`, in order, that occur exactly once in `all`.
pub open spec fn singles(s: Seq<u64>, all: Seq<u64>) -> Seq<u64>
    decreases s.len(),
{
    if s.len() == 0 {
        Seq::empty()
    } else {
        let prev = singles(s.drop_last(), all);
        if occurrences(all, s.last()) == 1 {
            prev.push(s.last())
        } else {
            prev
        }
    }
}

/// Sketch of a reference genome: the markers that occur exactly once over all its records.
pub struct GenomeSketch {
    pub c: usize,
    pub k: usize,
    pub file_name: String,
    pub first_contig_name: String,
    pub genome_kmers: Vec<u64>,
}

/// Keeps, in order, the values of `all` that occur exactly once in it; every occurrence of a
/// repeated value is left out.
pub fn unique_markers(all: &Vec<u64>) -> (r: Vec<u64>)
    ensures
        r@ == singles(all@, all@),
{
    let mut seen: std::collections::HashSet<u64> = std::collections::HashSet::new();
    let mut repeated: std::collections::HashSet<u64> = std::collections::HashSet::new();
    let mut i: usize = 0;
    while i < all.len()
        invariant
            i <= all.len(),
            forall|x: u64| #[trigger]
                seen@.contains(x) <==> occurrences(all@.take(i as int), x) >= 1,
            forall|x: u64| #[trigger]
                repeated@.contains(x) <==> occurrences(all@.take(i as int), x) >= 2,
        decreases all.len() - i,
    {
        let v = all[i];
        proof {
            assert(all@.take(i + 1).drop_last() == all@.take(i as int));
        }
        if seen.contains(&v) {
            repeated.insert(v);
        } else {
            seen.insert(v);
        }
        i = i + 1;
    }
    proof {
        assert(all@.take(all.len() as int) == all@);
    }
    let mut r: Vec<u64> = Vec::new();
    let mut j: usize = 0;
    while j < all.len()
        invariant
            j <= all.len(),
            forall|x: u64| #[trigger]
                repeated@.contains(x) <==> occurrences(all@, x) >= 2,
            forall|x: u64| #[trigger]
                seen@.contains(x) <==> occurrences(all@, x) >= 1,
            r@ == singles(all@.take(j as int), all@),
        decreases all.len() - j,
    {
        let v = all[j];
        proof {
            assert(all@.take(j + 1).drop_last() == all@.take(j as int));
            lemma_occurrences_of_member(all@, j as int);
        }
        if !repeated.contains(&v) {
            r.push(v);
        }
        j = j + 1;
    }
    proof {
        assert(all@.take(all.len() as int) == all@);
    }
    r
}

/// An element of a sequence occurs in it at least once.
pub proof fn lemma_occurrences_of_member(s: Seq<u64>, i: int)
    requires
        0 <= i < s.len(),
    ensures
        occurrences(s, s[i]) >= 1,
    decreases s.len(),
{
    if i < s.len() - 1 {
        lemma_occurrences_of_member(s.drop_last(), i);
    }
}


/// Two equal elements at different places make a value occur at least twice.
pub proof fn lemma_occurrences_of_pair(s: Seq<u64>, i: int, j: int)
    requires
        0 <= i < j < s.len(),
        s[i] == s[j],
    ensures
        occurrences(s, s[i]) >= 2,
    decreases s.len(),
{
    if j < s.len() - 1 {
        lemma_occurrences_of_pair(s.drop_last(), i, j);
    } else {
        lemma_occurrences_of_member(s.drop_last(), i);
    }
}

proof fn lemma_occurrences_singles(s: Seq<u64>, all: Seq<u64>, x: u64)
    ensures
        occurrences(singles(s, all), x) == if occurrences(all, x) == 1 {
            occurrences(s, x)
        } else {
            0
        },
    decreases s.len(),
{
    if s.len() > 0 {
        lemma_occurrences_singles(s.drop_last(), all, x);
        let prev = singles(s.drop_last(), all);
        if occurrences(all, s.last()) == 1 {
            assert(prev.push(s.last()).drop_last() == prev);
        }
    }
}

/// The markers kept for a genome hold no value twice, and a value is kept (once) exactly when
/// it occurs once in the genome's raw markers: a repeated marker is dropped entirely.
pub proof fn lemma_genome_dedup(all: Seq<u64>)
    ensures
        singles(all, all).no_duplicates(),
        forall|x: u64|
            #[trigger] occurrences(singles(all, all), x) == if occurrences(all, x) == 1 {
                1nat
            } else {
                0nat
            },
{
    let r = singles(all, all);
    assert forall|x: u64|
        #[trigger] occurrences(r, x) == if occurrences(all, x) == 1 {
            1nat
        } else {
            0nat
        } by {
        lemma_occurrences_singles(all, all, x);
    }
    assert forall|i: int, j: int| 0 <= i < r.len() && 0 <= j < r.len() && i != j implies r[i]
        != r[j] by {
        if r[i] == r[j] {
            lemma_occurrences_singles(all, all, r[i]);
            if i < j {
                lemma_occurrences_of_pair(r, i, j);
            } else {
                lemma_occurrences_of_pair(r, j, i);
            }
        }
    }
}

/// Collects the markers of one genome file, record by record, before duplicates are removed.
pub struct GenomeSketchBuilder {
    pub c: usize,
    pub k: usize,
    pub file_name: String,
    pub first_contig_name: Option<String>,
    pub markers: Vec<u64>,
}

impl GenomeSketchBuilder {
    /// Parameters that the sampler accepts.
    pub open spec fn wf(&self) -> bool {
        self.c >= 1 && 1 <= self.k <= MAX_K
    }

    /// Starts the sketch of the genome file `file_name`.
    pub fn new(c: usize, k: usize, file_name: String) -> (r: GenomeSketchBuilder)
        requires
            c >= 1,
            1 <= k <= MAX_K,
        ensures
            r.wf(),
            r.c == c,
            r.k == k,
            r.file_name == file_name,
            r.first_contig_name is None,
            r.markers@ == Seq::<u64>::empty(),
    {
        GenomeSketchBuilder { c, k, file_name, first_contig_name: None, markers: Vec::new() }
    }

    /// Adds one record: the first record's name becomes the genome's contig name, and the
    /// record's markers join those of the earlier records.
    pub fn add_record(&mut self, id: String, seq: &[u8])
        requires
            old(self).wf(),
        ensures
            final(self).wf(),
            final(self).c == old(self).c,
            final(self).k == old(self).k,
            final(self).file_name == old(self).file_name,
            final(self).first_contig_name == (match old(self).first_contig_name {
                Some(n) => Some(n),
                None => Some(id),
            }),
            final(self).markers@ == old(self).markers@ + markers(
                seq@,
                old(self).c as nat,
                old(self).k as nat,
            ),
    {
        if self.first_contig_name.is_none() {
            self.first_contig_name = Some(id);
        }
        extract_markers(seq, &mut self.markers, self.c, self.k);
    }

    /// The genome sketch: every marker that occurs exactly once among the records' markers.
    pub fn finish(self) -> (r: GenomeSketch)
        ensures
            r.c == self.c,
            r.k == self.k,
            r.file_name == self.file_name,
            r.first_contig_name@ == (match self.first_contig_name {
                Some(n) => n@,
                None => Seq::<char>::empty(),
            }),
            r.genome_kmers@ == singles(self.markers@, self.markers@),
            r.genome_kmers@.no_duplicates(),
            forall|x: u64|
                #[trigger] occurrences(r.genome_kmers@, x) == if occurrences(self.markers@, x) == 1 {
                    1nat
                } else {
                    0nat
                },
    {
        proof {
            lemma_genome_dedup(self.markers@);
        }
        let genome_kmers = unique_markers(&self.markers);
        let first_contig_name = match self.first_contig_name {
            Some(n) => n,
            None => String::new(),
        };
        GenomeSketch {
            c: self.c,
            k: self.k,
            file_name: self.file_name,
            first_contig_name,
            genome_kmers,
        }
    }
}


/// Occurrences add up over a concatenation, so a count does not depend on the order in which
/// batches of markers arrive.
pub proof fn lemma_occurrences_concat(a: Seq<u64>, b: Seq<u64>, x: u64)
    ensures
        occurrences(a + b, x) == occurrences(a, x) + occurrences(b, x),
        occurrences(a + b, x) == occurrences(b + a, x),
{
    lemma_occurrences_concat_left(a, b, x);
    lemma_occurrences_concat_left(b, a, x);
}

proof fn lemma_occurrences_concat_left(a: Seq<u64>, b: Seq<u64>, x: u64)
    ensures
        occurrences(a + b, x) == occurrences(a, x) + occurrences(b, x),
    decreases b.len(),
{
    if b.len() == 0 {
        assert(a + b == a);
    } else {
        assert((a + b).drop_last() == a + b.drop_last());
        lemma_occurrences_concat_left(a, b.drop_last(), x);
    }
}

} // verus!
