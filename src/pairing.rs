use vstd::prelude::*;
use std::collections::HashMap;
use crate::reads::{count_of, SequencesSketch};
use vstd::std_specs::hash::spec_hash_map_iter;
use vstd::std_specs::iter::IteratorSpec;
use vstd::string::StrSliceExecFns;
use vstd::string::StringExecFns;

verus! {

broadcast use vstd::std_specs::hash::group_hash_axioms;

/// Every marker in the table has a positive count.
pub open spec fn positive_counts(m: Map<u64, u64>) -> bool {
    forall|x: u64| #[trigger] m.contains_key(x) ==> m[x] > 0
}

/// Adding the two tables fits in 64 bits.
pub open spec fn sum_fits(a: Map<u64, u64>, b: Map<u64, u64>) -> bool {
    forall|x: u64| count_of(a, x) + count_of(b, x) <= u64::MAX
}

/// Adds every count of `other` into `acc`.
pub fn merge_counts(acc: &mut HashMap<u64, u64>, other: &HashMap<u64, u64>)
    requires
        positive_counts(old(acc)@),
        positive_counts(other@),
        sum_fits(old(acc)@, other@),
    ensures
        positive_counts(final(acc)@),
        forall|x: u64|
            #[trigger] count_of(final(acc)@, x) == count_of(old(acc)@, x) + count_of(other@, x),
{
    let ghost start = acc@;
    let ghost all = spec_hash_map_iter(other).remaining();
    let ghost mut done: int = 0;
    let keys_iter = other.iter();
    proof {
        assert(all.no_duplicates());
    }
    for kv in it: keys_iter
        invariant
            start == old(acc)@,
            positive_counts(acc@),
            positive_counts(other@),
            sum_fits(start, other@),
            it.seq() == all,
            all == spec_hash_map_iter(other).remaining(),
            done == it.index(),
            all.no_duplicates(),
            forall|x: u64|
                #[trigger] count_of(acc@, x) == count_of(start, x) + if exists|j: int|
                    0 <= j < done && *all[j].0 == x {
                    count_of(other@, x)
                } else {
                    0
                },
    {
        let (key, val) = kv;
        let ghost v = it.seq();
        let ghost idx = it.index() as int;
        proof {
            assert(*v[idx].0 == *key);
            assert(other@.contains_key(*key) && other@[*key] == *val);
            assert(!exists|j: int| 0 <= j < idx && *v[j].0 == *key) by {
                if exists|j: int| 0 <= j < idx && *v[j].0 == *key {
                    let j = choose|j: int| 0 <= j < idx && *v[j].0 == *key;
                    assert(other@.contains_key(*v[j].0) && other@[*v[j].0] == *v[j].1);
                    assert(v[j] == v[idx]);
                }
            }
            assert(count_of(start, *key) + count_of(other@, *key) <= u64::MAX);
        }
        let ghost before = acc@;
        let n = match acc.get(key) {
            Some(n) => *n,
            None => 0,
        };
        proof {
            assert(n == count_of(before, *key));
        }
        acc.insert(*key, n + *val);
        proof {
            assert forall|x: u64|
                #[trigger] count_of(acc@, x) == count_of(start, x) + if exists|j: int|
                    0 <= j < idx + 1 && *v[j].0 == x {
                    count_of(other@, x)
                } else {
                    0
                } by {
                assert(count_of(before, x) == count_of(start, x) + if exists|j: int|
                    0 <= j < idx && *v[j].0 == x {
                    count_of(other@, x)
                } else {
                    0
                });
                assert(done == idx);
                if x != *key {
                    if exists|j: int| 0 <= j < idx + 1 && *v[j].0 == x {
                        let j = choose|j: int| 0 <= j < idx + 1 && *v[j].0 == x;
                        assert(j < idx);
                    }
                } else {
                    assert(0 <= idx < idx + 1 && *v[idx].0 == x);
                }
            }
            done = done + 1;
        }
    }
    proof {
        assert(done == all.len());
        assert forall|x: u64|
            #[trigger] count_of(acc@, x) == count_of(old(acc)@, x) + count_of(other@, x) by {
            if other@.contains_key(x) {
                let v = all;
                assert(v.contains((&x, &other@[x])));
                let j = choose|j: int| 0 <= j < v.len() && v[j] == (&x, &other@[x]);
                assert(*v[j].0 == x);
            }
        }
    }
}


/// Position `p` holds the pairing digit: a non-empty prefix before it, the digit `1` or `2`,
/// then an extension made of `.` and at least one more character.
pub open spec fn mate_digit_at(s: Seq<char>, p: int) -> bool {
    1 <= p && p + 2 < s.len() && (s[p] == '1' || s[p] == '2') && s[p + 1] == '.'
}

/// The last pairing-digit position before `n`.
pub open spec fn last_mate_digit(s: Seq<char>, n: nat) -> Option<int>
    decreases n,
{
    if n == 0 {
        None
    } else if mate_digit_at(s, n - 1) {
        Some(n - 1)
    } else {
        last_mate_digit(s, (n - 1) as nat)
    }
}

/// Where the pairing digit of a file name stands: the last position that fits the pattern.
pub open spec fn mate_digit(s: Seq<char>) -> Option<int> {
    last_mate_digit(s, s.len())
}

/// The sample stem of a file name that fits the pairing pattern: everything before the digit.
pub open spec fn mate_stem(s: Seq<char>) -> Option<Seq<char>> {
    match mate_digit(s) {
        Some(p) => Some(s.take(p)),
        None => None,
    }
}

/// A stem without the `_` that separates it from the pairing digit.
pub open spec fn trim_separator(t: Seq<char>) -> Seq<char> {
    if t.len() > 0 && t.last() == '_' {
        t.drop_last()
    } else {
        t
    }
}

/// A file name with its pairing digit, and a `_` just before it, removed; a name that does not
/// fit the pattern is kept.
pub open spec fn unpaired_name(s: Seq<char>) -> Seq<char> {
    match mate_digit(s) {
        Some(p) => trim_separator(s.take(p)) + s.skip(p + 1),
        None => s,
    }
}

proof fn lemma_last_mate_digit_bound(s: Seq<char>, n: nat)
    ensures
        last_mate_digit(s, n) matches Some(p) ==> mate_digit_at(s, p) && 0 <= p < n,
    decreases n,
{
    if n > 0 {
        lemma_last_mate_digit_bound(s, (n - 1) as nat);
    }
}

/// Finds the position of the pairing digit in `name`.
pub fn mate_digit_position(name: &str) -> (r: Option<usize>)
    ensures
        match r {
            Some(p) => mate_digit(name@) == Some(p as int),
            None => mate_digit(name@) is None,
        },
{
    let len = name.unicode_len();
    let mut n = len;
    while n > 0
        invariant
            n <= len,
            len == name@.len(),
            last_mate_digit(name@, len as nat) == last_mate_digit(name@, n as nat),
        decreases n,
    {
        let p = n - 1;
        if p >= 1 && len >= 3 && p < len - 2 {
            let d = name.get_char(p);
            let dot = name.get_char(p + 1);
            if (d == '1' || d == '2') && dot == '.' {
                return Some(p);
            }
        }
        n = p;
    }
    None
}

/// The sample stem of `name`, when it fits the pairing pattern.
pub fn pair_stem(name: &str) -> (r: Option<String>)
    ensures
        match r {
            Some(t) => mate_stem(name@) == Some(t@),
            None => mate_stem(name@) is None,
        },
{
    match mate_digit_position(name) {
        Some(p) => {
            proof {
                lemma_last_mate_digit_bound(name@, name@.len());
            }
            Some(name.substring_char(0, p).to_owned())
        },
        None => None,
    }
}

/// `name` with its pairing digit and a `_` just before it removed (`sample_1.fastq` becomes
/// `sample.fastq`); a name that does not fit the pattern is returned as it is.
pub fn unpaired_file_name(name: &str) -> (r: String)
    ensures
        r@ == unpaired_name(name@),
{
    match mate_digit_position(name) {
        Some(p) => {
            proof {
                lemma_last_mate_digit_bound(name@, name@.len());
            }
            let len = name.unicode_len();
            let stem_end = if name.get_char(p - 1) == '_' {
                p - 1
            } else {
                p
            };
            let mut r = name.substring_char(0, stem_end).to_owned();
            r.append(name.substring_char(p + 1, len));
            proof {
                assert(name@.subrange(p + 1, len as int) == name@.skip(p + 1));
                assert(name@.take(p as int).last() == name@[p - 1]);
                assert(name@.take(p as int).drop_last() == name@.subrange(0, p - 1));
            }
            r
        },
        None => name.to_owned(),
    }
}

/// Sum of the counts of `x` over all the sketches.
pub open spec fn total_count(sketches: Seq<SequencesSketch>, x: u64) -> nat
    decreases sketches.len(),
{
    if sketches.len() == 0 {
        0
    } else {
        total_count(sketches.drop_last(), x) + count_of(sketches.last().kmer_counts@, x)
    }
}

proof fn lemma_total_count_prefix(sketches: Seq<SequencesSketch>, n: int, x: u64)
    requires
        0 <= n <= sketches.len(),
    ensures
        total_count(sketches.take(n), x) <= total_count(sketches, x),
    decreases sketches.len(),
{
    if n < sketches.len() {
        assert(sketches.drop_last().take(n) == sketches.take(n));
        lemma_total_count_prefix(sketches.drop_last(), n, x);
    } else {
        assert(sketches.take(n) == sketches);
    }
}

/// Merges the sketches of one sample's files: counts are summed marker by marker, and the
/// result keeps the first sketch's parameters and its file name with the pairing digit removed.
pub fn combine_sketches(sketches: Vec<SequencesSketch>) -> (r: SequencesSketch)
    requires
        sketches.len() >= 1,
        forall|i: int| 0 <= i < sketches.len() ==> #[trigger] sketches[i].wf(),
        forall|x: u64| total_count(sketches@, x) <= u64::MAX,
    ensures
        r.wf(),
        r.c == sketches[0].c,
        r.k == sketches[0].k,
        r.file_name@ == unpaired_name(sketches[0].file_name@),
        forall|x: u64| #[trigger] count_of(r.kmer_counts@, x) == total_count(sketches@, x),
{
    let ghost all = sketches@;
    let mut rest = sketches;
    let mut first = rest.remove(0);
    proof {
        assert(all.take(1).drop_last() == all.take(0));
        assert(first.wf());
        assert forall|x: u64| #[trigger]
            count_of(first.kmer_counts@, x) == total_count(all.take(1), x) by {
            assert(all.take(1).last() == all[0]);
            assert(total_count(all.take(0), x) == 0);
        }
    }
    let mut i: usize = 0;
    while i < rest.len()
        invariant
            i <= rest.len(),
            rest@ == all.skip(1),
            all.len() >= 1,
            first.c == all[0].c,
            first.k == all[0].k,
            first.file_name == all[0].file_name,
            forall|j: int| 0 <= j < all.len() ==> #[trigger] all[j].wf(),
            forall|x: u64| total_count(all, x) <= u64::MAX,
            positive_counts(first.kmer_counts@),
            forall|x: u64|
                #[trigger] count_of(first.kmer_counts@, x) == total_count(all.take(i + 1), x),
        decreases rest.len() - i,
    {
        proof {
            assert(all.take(i + 2).drop_last() == all.take(i + 1));
            assert(all.take(i + 2).last() == rest@[i as int]);
            assert(all[i + 1].wf());
            assert forall|x: u64|
                count_of(first.kmer_counts@, x) + count_of(rest@[i as int].kmer_counts@, x)
                    <= u64::MAX by {
                lemma_total_count_prefix(all, i + 2, x);
            }
        }
        merge_counts(&mut first.kmer_counts, &rest[i].kmer_counts);
        i = i + 1;
    }
    proof {
        assert(all.take(rest.len() + 1) == all);
    }
    first.file_name = unpaired_file_name(first.file_name.as_str());
    first
}


/// The sample stem of each file name, or `None` where a name does not fit the pairing pattern.
pub open spec fn stems(names: Seq<String>) -> Seq<Option<Seq<char>>> {
    names.map_values(|n: String| mate_stem(n@))
}

/// Number of the first `n` names whose stem is `t`.
pub open spec fn stem_count(ss: Seq<Option<Seq<char>>>, t: Seq<char>, n: nat) -> nat
    decreases n,
{
    if n == 0 {
        0
    } else {
        stem_count(ss, t, (n - 1) as nat) + if ss[n - 1] == Some(t) {
            1nat
        } else {
            0nat
        }
    }
}

/// Number of times `x` stands in the group `g`.
pub open spec fn hits(g: Seq<usize>, x: usize) -> nat
    decreases g.len(),
{
    if g.len() == 0 {
        0
    } else {
        hits(g.drop_last(), x) + if g.last() == x {
            1nat
        } else {
            0nat
        }
    }
}

/// Number of places where `x` stands over all the groups.
pub open spec fn placements(groups: Seq<Vec<usize>>, x: usize) -> nat
    decreases groups.len(),
{
    if groups.len() == 0 {
        0
    } else {
        placements(groups.drop_last(), x) + hits(groups.last()@, x)
    }
}

/// What the grouping promises of one group of the file names `names`: one or two indices; a
/// pair holds two names of one stem that no other name shares; a single name either does not
/// fit the pattern or does not share its stem with exactly one other name.
pub open spec fn valid_group(names: Seq<String>, g: Seq<usize>) -> bool {
    let ss = stems(names);
    let n = names.len();
    &&& 1 <= g.len() <= 2
    &&& forall|j: int| 0 <= j < g.len() ==> g[j] < n
    &&& g.len() == 2 ==> {
        &&& g[0] < g[1]
        &&& ss[g[0] as int] is Some
        &&& ss[g[0] as int] == ss[g[1] as int]
        &&& stem_count(ss, ss[g[0] as int]->0, n) == 2
    }
    &&& g.len() == 1 ==> (ss[g[0] as int] is None || stem_count(ss, ss[g[0] as int]->0, n) != 2)
}

proof fn lemma_stem_count_step(ss: Seq<Option<Seq<char>>>, t: Seq<char>, n: nat)
    ensures
        stem_count(ss, t, n + 1) == stem_count(ss, t, n) + if ss[n as int] == Some(t) {
            1nat
        } else {
            0nat
        },
{
}

proof fn lemma_stem_count_mono(ss: Seq<Option<Seq<char>>>, t: Seq<char>, a: nat, b: nat)
    requires
        a <= b,
    ensures
        stem_count(ss, t, a) <= stem_count(ss, t, b),
    decreases b,
{
    if a < b {
        lemma_stem_count_mono(ss, t, a, (b - 1) as nat);
    }
}

proof fn lemma_placements_push(groups: Seq<Vec<usize>>, g: Vec<usize>, x: usize)
    ensures
        placements(groups.push(g), x) == placements(groups, x) + hits(g@, x),
{
    assert(groups.push(g).drop_last() == groups);
}

proof fn lemma_hits_one(a: usize, x: usize)
    ensures
        hits(seq![a], x) == if a == x {
            1nat
        } else {
            0nat
        },
{
    assert(seq![a].drop_last() == Seq::<usize>::empty());
    assert(seq![a].last() == a);
    assert(hits(Seq::<usize>::empty(), x) == 0);
}

proof fn lemma_hits_two(a: usize, b: usize, x: usize)
    ensures
        hits(seq![a, b], x) == (if a == x {
            1nat
        } else {
            0nat
        }) + (if b == x {
            1nat
        } else {
            0nat
        }),
{
    assert(seq![a, b].drop_last() == seq![a]);
    assert(seq![a, b].last() == b);
    lemma_hits_one(a, x);
}

/// Whether index `x` already stands in a group once the first `i` names have been handled: it
/// was handled, or it is the second name of a pair whose first name was.
pub open spec fn placed(ss: Seq<Option<Seq<char>>>, n: nat, i: nat, x: int) -> bool {
    x < i || (ss[x] is Some && stem_count(ss, ss[x]->0, n) == 2 && stem_count(ss, ss[x]->0, i)
        >= 1)
}

/// The option's string content.
pub open spec fn opt_view(o: Option<String>) -> Option<Seq<char>> {
    match o {
        Some(t) => Some(t@),
        None => None,
    }
}

/// Counts the stems among the first `upto` that equal `t`.
fn count_stem(stems_v: &Vec<Option<String>>, t: &String, upto: usize) -> (r: usize)
    requires
        upto <= stems_v.len(),
    ensures
        r == stem_count(stems_v@.map_values(|o: Option<String>| opt_view(o)), t@, upto as nat),
{
    let ghost ss = stems_v@.map_values(|o: Option<String>| opt_view(o));
    let mut r: usize = 0;
    let mut j: usize = 0;
    while j < upto
        invariant
            j <= upto <= stems_v.len(),
            ss == stems_v@.map_values(|o: Option<String>| opt_view(o)),
            r == stem_count(ss, t@, j as nat),
            r <= j,
        decreases upto - j,
    {
        let same = match &stems_v[j] {
            Some(u) => u.eq(t),
            None => false,
        };
        proof {
            assert(ss[j as int] == opt_view(stems_v@[j as int]));
            lemma_stem_count_step(ss, t@, j as nat);
        }
        if same {
            r = r + 1;
        }
        j = j + 1;
    }
    r
}

/// Groups sample files into mate pairs. Each group lists the indices of its files in `files`.
/// A name of the form prefix, `1` or `2`, extension (`s_1.fq`) is grouped with the names of the
/// same prefix; a prefix shared by exactly two names makes a pair, and a prefix shared by more
/// is taken as a collision, and each of its files stands alone. Every index stands in exactly
/// one group.
pub fn collect_pairs_file_names(files: &Vec<String>) -> (r: Vec<Vec<usize>>)
    ensures
        forall|g: int| 0 <= g < r.len() ==> #[trigger] valid_group(files@, r[g]@),
        forall|x: usize| x < files.len() ==> #[trigger] placements(r@, x) == 1,
{
    let ghost ss = stems(files@);
    let n = files.len();
    let mut stems_v: Vec<Option<String>> = Vec::new();
    let mut i: usize = 0;
    while i < n
        invariant
            i <= n == files.len(),
            ss == stems(files@),
            stems_v.len() == i,
            forall|j: int| 0 <= j < i ==> opt_view(#[trigger] stems_v@[j]) == ss[j],
        decreases n - i,
    {
        let st = pair_stem(files[i].as_str());
        stems_v.push(st);
        i = i + 1;
    }
    proof {
        assert(stems_v@.map_values(|o: Option<String>| opt_view(o)) == ss);
    }
    let mut r: Vec<Vec<usize>> = Vec::new();
    let mut i: usize = 0;
    while i < n
        invariant
            i <= n == files.len(),
            ss == stems(files@),
            ss.len() == n,
            stems_v.len() == n,
            stems_v@.map_values(|o: Option<String>| opt_view(o)) == ss,
            forall|g: int| 0 <= g < r.len() ==> #[trigger] valid_group(files@, r[g]@),
            forall|x: usize|
                x < n ==> #[trigger] placements(r@, x) == if placed(ss, n as nat, i as nat, x as int) {
                    1nat
                } else {
                    0nat
                },
        decreases n - i,
    {
        proof {
            assert(opt_view(stems_v@[i as int]) == ss[i as int]);
        }
        match &stems_v[i] {
            None => {
                let g = vec![i];
                proof {
                    assert(g@ == seq![i]);
                    assert forall|x: usize| x < n implies #[trigger] placements(r@.push(g), x)
                        == if placed(ss, n as nat, (i + 1) as nat, x as int) {
                        1nat
                    } else {
                        0nat
                    } by {
                        lemma_placements_push(r@, g, x);
                        lemma_hits_one(i, x);
                        assert(ss[i as int] is None);
                        assert(placements(r@, x) == if placed(ss, n as nat, i as nat, x as int) {
                            1nat
                        } else {
                            0nat
                        });
                        if ss[x as int] is Some {
                            let t = ss[x as int]->0;
                            lemma_stem_count_step(ss, t, i as nat);
                            assert(stem_count(ss, t, (i + 1) as nat) == stem_count(
                                ss,
                                t,
                                i as nat,
                            ));
                        }
                    }
                }
                r.push(g);
            },
            Some(t) => {
                let total = count_stem(&stems_v, t, n);
                let before = count_stem(&stems_v, t, i);
                let ghost tv = t@;
                proof {
                    lemma_stem_count_step(ss, tv, i as nat);
                    assert(stem_count(ss, tv, (i + 1) as nat) == before + 1);
                    lemma_stem_count_mono(ss, tv, (i + 1) as nat, n as nat);
                }
                if total != 2 {
                    let g = vec![i];
                    proof {
                        assert(g@ == seq![i]);
                        assert forall|x: usize| x < n implies #[trigger] placements(
                            r@.push(g),
                            x,
                        ) == if placed(ss, n as nat, (i + 1) as nat, x as int) {
                            1nat
                        } else {
                            0nat
                        } by {
                            lemma_placements_push(r@, g, x);
                            lemma_hits_one(i, x);
                            assert(placements(r@, x) == if placed(ss, n as nat, i as nat, x as int) {
                                1nat
                            } else {
                                0nat
                            });
                            if ss[x as int] is Some {
                                let u = ss[x as int]->0;
                                lemma_stem_count_step(ss, u, i as nat);
                                if u != tv {
                                    assert(stem_count(ss, u, (i + 1) as nat) == stem_count(
                                        ss,
                                        u,
                                        i as nat,
                                    ));
                                }
                            }
                        }
                        assert(valid_group(files@, g@));
                    }
                    r.push(g);
                } else if before == 0 {
                    let j = find_partner(&stems_v, t, i + 1);
                    let g = vec![i, j];
                    proof {
                        assert(g@ == seq![i, j]);
                        assert forall|x: usize| x < n implies #[trigger] placements(
                            r@.push(g),
                            x,
                        ) == if placed(ss, n as nat, (i + 1) as nat, x as int) {
                            1nat
                        } else {
                            0nat
                        } by {
                            lemma_placements_push(r@, g, x);
                            lemma_hits_two(i, j, x);
                            if ss[x as int] is Some {
                                let u = ss[x as int]->0;
                                lemma_stem_count_step(ss, u, i as nat);
                                if u != tv {
                                    assert(stem_count(ss, u, (i + 1) as nat) == stem_count(
                                        ss,
                                        u,
                                        i as nat,
                                    ));
                                } else if x != i && x != j {
                                    if x < i {
                                        lemma_stem_count_mono(ss, tv, (x + 1) as nat, i as nat);
                                    } else if x < j {
                                        lemma_stem_count_mono(ss, tv, (i + 1) as nat, x as nat);
                                        lemma_stem_count_mono(ss, tv, (x + 1) as nat, j as nat);
                                    } else {
                                        lemma_stem_count_mono(ss, tv, (j + 1) as nat, x as nat);
                                        lemma_stem_count_mono(ss, tv, (x + 1) as nat, n as nat);
                                    }
                                }
                            }
                        }
                        assert(valid_group(files@, g@));
                    }
                    r.push(g);
                } else {
                    proof {
                        assert forall|x: usize| x < n implies #[trigger] placements(r@, x) == if placed(ss, n as nat, (i + 1) as nat, x as int) {
                            1nat
                        } else {
                            0nat
                        } by {
                            if ss[x as int] is Some {
                                let u = ss[x as int]->0;
                                lemma_stem_count_mono(ss, u, i as nat, (i + 1) as nat);
                                if u != tv {
                                    assert(stem_count(ss, u, (i + 1) as nat) == stem_count(
                                        ss,
                                        u,
                                        i as nat,
                                    ));
                                }
                            }
                        }
                    }
                }
            },
        }
        i = i + 1;
    }
    r
}

/// The index after `from` of the second name whose stem is `t`.
fn find_partner(stems_v: &Vec<Option<String>>, t: &String, from: usize) -> (r: usize)
    requires
        from <= stems_v.len(),
        stem_count(
            stems_v@.map_values(|o: Option<String>| opt_view(o)),
            t@,
            stems_v.len() as nat,
        ) == 2,
        stem_count(stems_v@.map_values(|o: Option<String>| opt_view(o)), t@, from as nat) == 1,
    ensures
        from <= r < stems_v.len(),
        stems_v@.map_values(|o: Option<String>| opt_view(o))[r as int] == Some(t@),
        stem_count(stems_v@.map_values(|o: Option<String>| opt_view(o)), t@, r as nat) == 1,
{
    let ghost ss = stems_v@.map_values(|o: Option<String>| opt_view(o));
    let mut j: usize = from;
    while j < stems_v.len()
        invariant
            from <= j <= stems_v.len(),
            ss == stems_v@.map_values(|o: Option<String>| opt_view(o)),
            stem_count(ss, t@, stems_v.len() as nat) == 2,
            stem_count(ss, t@, j as nat) == 1,
        decreases stems_v.len() - j,
    {
        let same = match &stems_v[j] {
            Some(u) => u.eq(t),
            None => false,
        };
        proof {
            assert(ss[j as int] == opt_view(stems_v@[j as int]));
            lemma_stem_count_step(ss, t@, j as nat);
        }
        if same {
            return j;
        }
        j = j + 1;
    }
    j
}

} // verus!
