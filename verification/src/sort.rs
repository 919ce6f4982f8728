//! Stable reordering of the ready queue.
//!
//! The queue holds indices into the job arena. Reordering is an insertion
//! sort keyed on one job field: each index is inserted directly after the
//! entries with an equal or smaller key, so entries with equal keys keep
//! their existing relative order (a stable sort).

use vstd::prelude::*;

use crate::job::{jobs_view, Job, JobView};

verus! {

/// Which field of a job a queue reordering is keyed on.
#[derive(Clone, Copy, Debug, PartialEq, Eq, Structural)]
pub enum SortKey {
    Arrival,
    Needed,
    Remaining,
}

/// The key of job `j` under the selected ordering.
pub open spec fn key_of(j: JobView, sel: SortKey) -> int {
    match sel {
        SortKey::Arrival => j.arrival,
        SortKey::Needed => j.needed,
        SortKey::Remaining => j.remaining,
    }
}

/// The position at which an entry with key `k` is inserted into the index
/// sequence `s`: the first position whose entry has a key larger than `k`.
pub open spec fn insert_pos(s: Seq<usize>, jobs: Seq<JobView>, sel: SortKey, k: int) -> int
    decreases s.len(),
{
    if s.len() == 0 {
        0
    } else if key_of(jobs[s[0] as int], sel) <= k {
        1 + insert_pos(s.drop_first(), jobs, sel, k)
    } else {
        0
    }
}

/// Index `x` inserted into `s` after every entry whose key is at most its
/// own.
pub open spec fn insert_stable(s: Seq<usize>, jobs: Seq<JobView>, sel: SortKey, x: usize) -> Seq<
    usize,
> {
    s.insert(insert_pos(s, jobs, sel, key_of(jobs[x as int], sel)), x)
}

/// Stable sort of job indices by the selected key: each element of `s`, in
/// order, is inserted after the entries with an equal or smaller key.
pub open spec fn sort_indices(s: Seq<usize>, jobs: Seq<JobView>, sel: SortKey) -> Seq<usize>
    decreases s.len(),
{
    if s.len() == 0 {
        s
    } else {
        insert_stable(sort_indices(s.drop_last(), jobs, sel), jobs, sel, s.last())
    }
}

/// The insertion position is within bounds, every entry before it has a key
/// of at most `k`, and the entry at it (when there is one) has a larger key.
pub proof fn lemma_insert_pos_props(s: Seq<usize>, jobs: Seq<JobView>, sel: SortKey, k: int)
    ensures
        0 <= insert_pos(s, jobs, sel, k) <= s.len(),
        forall|i: int|
            0 <= i < insert_pos(s, jobs, sel, k) ==> #[trigger] key_of(jobs[s[i] as int], sel) <= k,
        insert_pos(s, jobs, sel, k) < s.len() ==> key_of(
            jobs[s[insert_pos(s, jobs, sel, k)] as int],
            sel,
        ) > k,
    decreases s.len(),
{
    if s.len() == 0 {
    } else if key_of(jobs[s[0] as int], sel) <= k {
        lemma_insert_pos_props(s.drop_first(), jobs, sel, k);
        assert forall|i: int| 0 <= i < insert_pos(s, jobs, sel, k) implies #[trigger] key_of(
            jobs[s[i] as int],
            sel,
        ) <= k by {
            if i > 0 {
                assert(s.drop_first()[i - 1] == s[i]);
                assert(key_of(jobs[s.drop_first()[i - 1] as int], sel) <= k);
            }
        }
    } else {
    }
}

/// Sorting keeps exactly the entries of the input: the multiset of indices
/// and the length are unchanged.
pub proof fn lemma_sort_indices_multiset(s: Seq<usize>, jobs: Seq<JobView>, sel: SortKey)
    ensures
        sort_indices(s, jobs, sel).to_multiset() == s.to_multiset(),
        sort_indices(s, jobs, sel).len() == s.len(),
    decreases s.len(),
{
    broadcast use vstd::seq_lib::group_to_multiset_ensures;

    if s.len() == 0 {
    } else {
        let rest = sort_indices(s.drop_last(), jobs, sel);
        let x = s.last();
        lemma_sort_indices_multiset(s.drop_last(), jobs, sel);
        let p = insert_pos(rest, jobs, sel, key_of(jobs[x as int], sel));
        lemma_insert_pos_props(rest, jobs, sel, key_of(jobs[x as int], sel));
        vstd::seq_lib::to_multiset_insert(rest, p, x);
        assert(s.drop_last().push(x) =~= s);
        assert(sort_indices(s, jobs, sel).to_multiset() =~= s.to_multiset());
    }
}

/// Sorting keeps membership and freedom from duplicates.
pub proof fn lemma_sort_indices_entries(s: Seq<usize>, jobs: Seq<JobView>, sel: SortKey)
    requires
        s.no_duplicates(),
    ensures
        sort_indices(s, jobs, sel).no_duplicates(),
        forall|x: usize| sort_indices(s, jobs, sel).contains(x) <==> s.contains(x),
{
    broadcast use vstd::seq_lib::group_to_multiset_ensures;

    lemma_sort_indices_multiset(s, jobs, sel);
    s.lemma_multiset_has_no_duplicates();
    sort_indices(s, jobs, sel).lemma_multiset_has_no_duplicates_conv();
    assert forall|x: usize| sort_indices(s, jobs, sel).contains(x) <==> s.contains(x) by {
        assert(sort_indices(s, jobs, sel).to_multiset().count(x) == s.to_multiset().count(x));
    }
}

/// Whether the index sequence is ordered by the selected key.
pub open spec fn sorted_by(s: Seq<usize>, jobs: Seq<JobView>, sel: SortKey) -> bool {
    forall|i: int, j: int|
        0 <= i <= j < s.len() ==> key_of(jobs[#[trigger] s[i] as int], sel) <= key_of(
            jobs[#[trigger] s[j] as int],
            sel,
        )
}

/// Inserting at the insertion position keeps the sequence ordered.
proof fn lemma_insert_stable_sorted(s: Seq<usize>, jobs: Seq<JobView>, sel: SortKey, x: usize)
    requires
        sorted_by(s, jobs, sel),
    ensures
        sorted_by(insert_stable(s, jobs, sel, x), jobs, sel),
{
    let k = key_of(jobs[x as int], sel);
    let p = insert_pos(s, jobs, sel, k);
    lemma_insert_pos_props(s, jobs, sel, k);
    let t = insert_stable(s, jobs, sel, x);
    s.insert_ensures(p, x);
    assert forall|i: int, j: int| 0 <= i <= j < t.len() implies key_of(
        jobs[#[trigger] t[i] as int],
        sel,
    ) <= key_of(jobs[#[trigger] t[j] as int], sel) by {
        if i < p {
            assert(t[i] == s[i]);
        } else if i == p {
            assert(t[i] == x);
        } else {
            assert(t[i] == s[i - 1]);
        }
        if j < p {
            assert(t[j] == s[j]);
        } else if j == p {
            assert(t[j] == x);
        } else {
            assert(t[j] == s[j - 1]);
        }
        if i < p && j == p {
            assert(key_of(jobs[s[i] as int], sel) <= k);
        } else if i == p && j > p {
            if j - 1 >= p && p < s.len() {
                assert(key_of(jobs[s[p] as int], sel) > k);
                assert(key_of(jobs[s[p] as int], sel) <= key_of(jobs[s[j - 1] as int], sel));
            }
        } else if i < p && j > p {
            assert(key_of(jobs[s[i] as int], sel) <= key_of(jobs[s[j - 1] as int], sel));
        }
    }
}

/// The stable sort orders its output by the selected key.
pub proof fn lemma_sort_indices_sorted(s: Seq<usize>, jobs: Seq<JobView>, sel: SortKey)
    ensures
        sorted_by(sort_indices(s, jobs, sel), jobs, sel),
    decreases s.len(),
{
    if s.len() > 0 {
        lemma_sort_indices_sorted(s.drop_last(), jobs, sel);
        lemma_insert_stable_sorted(sort_indices(s.drop_last(), jobs, sel), jobs, sel, s.last());
    }
}

/// The key of the job at arena index `i`, as executable code.
fn key_exec(jobs: &Vec<Job>, i: usize, sel: SortKey) -> (k: u32)
    requires
        i < jobs@.len(),
    ensures
        k as int == key_of(jobs_view(jobs@)[i as int], sel),
{
    match sel {
        SortKey::Arrival => jobs[i].arrival_time,
        SortKey::Needed => jobs[i].needed_cpu_cycle,
        SortKey::Remaining => jobs[i].remaining_cpu_cycle,
    }
}

/// The first position in `out` whose entry's key exceeds `k`.
fn find_insert_pos(out: &Vec<usize>, jobs: &Vec<Job>, sel: SortKey, k: u32) -> (p: usize)
    requires
        forall|i: int| 0 <= i < out@.len() ==> #[trigger] out@[i] < jobs@.len(),
    ensures
        p == insert_pos(out@, jobs_view(jobs@), sel, k as int),
{
    let ghost jv = jobs_view(jobs@);
    let mut p: usize = 0;
    while p < out.len()
        invariant
            p <= out@.len(),
            jv == jobs_view(jobs@),
            forall|i: int| 0 <= i < out@.len() ==> #[trigger] out@[i] < jobs@.len(),
            forall|i: int| 0 <= i < p ==> #[trigger] key_of(jv[out@[i] as int], sel) <= k as int,
        decreases out@.len() - p,
    {
        if key_exec(jobs, out[p], sel) > k {
            proof {
                lemma_insert_pos_props(out@, jv, sel, k as int);
            }
            return p;
        }
        p = p + 1;
    }
    proof {
        lemma_insert_pos_props(out@, jv, sel, k as int);
    }
    p
}

/// A stably sorted copy of the index sequence `idxs`, keyed on the selected
/// field of the jobs in the arena.
pub(crate) fn sorted_indices(idxs: &Vec<usize>, jobs: &Vec<Job>, sel: SortKey) -> (out: Vec<usize>)
    requires
        forall|i: int| 0 <= i < idxs@.len() ==> #[trigger] idxs@[i] < jobs@.len(),
    ensures
        out@ == sort_indices(idxs@, jobs_view(jobs@), sel),
{
    let ghost jv = jobs_view(jobs@);
    let mut out: Vec<usize> = Vec::new();
    let mut i: usize = 0;
    while i < idxs.len()
        invariant
            i <= idxs@.len(),
            jv == jobs_view(jobs@),
            forall|k: int| 0 <= k < idxs@.len() ==> #[trigger] idxs@[k] < jobs@.len(),
            out@ == sort_indices(idxs@.take(i as int), jv, sel),
            forall|k: int| 0 <= k < out@.len() ==> #[trigger] out@[k] < jobs@.len(),
        decreases idxs@.len() - i,
    {
        let x = idxs[i];
        let k = key_exec(jobs, x, sel);
        let p = find_insert_pos(&out, jobs, sel, k);
        proof {
            lemma_insert_pos_props(out@, jv, sel, k as int);
        }
        out.insert(p, x);
        proof {
            assert(idxs@.take(i + 1).drop_last() =~= idxs@.take(i as int));
            assert(idxs@.take(i + 1).last() == idxs@[i as int]);
            assert(out@ == insert_stable(sort_indices(idxs@.take(i as int), jv, sel), jv, sel, x));
        }
        i = i + 1;
    }
    proof {
        assert(idxs@.take(idxs@.len() as int) =~= idxs@);
    }
    out
}

} // verus!
