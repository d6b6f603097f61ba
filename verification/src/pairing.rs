//! Pairing the commits named on a cherry-pick command line with the commits
//! the cherry-pick created.
//!
//! Pairing runs in two passes. The first anchors commits by their stable patch
//! id: each source, in order, takes the earliest new commit with the same patch
//! id that no earlier source took. The second pairs the sources and new commits
//! that are still unpaired, by position.
use vstd::prelude::*;
use crate::text::optional_strings_view;

verus! {

/// The earliest index `j >= from` of `targets` that is not yet `used` and
/// carries patch id `pid`.
pub open spec fn first_free_match(
    targets: Seq<Option<Seq<char>>>,
    used: Seq<bool>,
    pid: Seq<char>,
    from: int,
) -> Option<int>
    decreases targets.len() - from,
{
    if from < 0 || from >= targets.len() {
        None
    } else if !used[from] && targets[from] == Some(pid) {
        Some(from)
    } else {
        first_free_match(targets, used, pid, from + 1)
    }
}

/// The first pass over the first `k` sources: for each source, the new commit it
/// was anchored to (if any), and which new commits are taken afterwards.
pub open spec fn anchor_pass(
    sources: Seq<Option<Seq<char>>>,
    targets: Seq<Option<Seq<char>>>,
    k: int,
) -> (Seq<Option<int>>, Seq<bool>)
    decreases k,
{
    if k <= 0 {
        (Seq::empty(), all_false(targets.len()))
    } else {
        let (a, used) = anchor_pass(sources, targets, k - 1);
        match sources[k - 1] {
            Some(pid) => match first_free_match(targets, used, pid, 0) {
                Some(j) => (a.push(Some(j)), used.update(j, true)),
                None => (a.push(None), used),
            },
            None => (a.push(None), used),
        }
    }
}

/// The anchored pairs `(source index, new commit index)`, in source order.
pub open spec fn anchored_pairs(a: Seq<Option<int>>) -> Seq<(int, int)>
    decreases a.len(),
{
    if a.len() == 0 {
        Seq::empty()
    } else {
        let rest = anchored_pairs(a.drop_last());
        match a.last() {
            Some(j) => rest.push((a.len() - 1, j)),
            None => rest,
        }
    }
}

/// Which sources were anchored.
pub open spec fn anchored_flags(a: Seq<Option<int>>) -> Seq<bool> {
    a.map_values(|o: Option<int>| o is Some)
}

/// The indices `i` with `!flags[i]`, in increasing order.
pub open spec fn free_indices(flags: Seq<bool>) -> Seq<int>
    decreases flags.len(),
{
    if flags.len() == 0 {
        Seq::empty()
    } else {
        let rest = free_indices(flags.drop_last());
        if !flags.last() {
            rest.push(flags.len() - 1)
        } else {
            rest
        }
    }
}

/// `n` times `false`.
pub open spec fn all_false(n: nat) -> Seq<bool> {
    Seq::new(n, |j: int| false)
}

/// Pairs `xs[t]` with `ys[t]` for every `t` below both lengths.
pub open spec fn zip_indices(xs: Seq<int>, ys: Seq<int>) -> Seq<(int, int)> {
    Seq::new(
        if xs.len() <= ys.len() {
            xs.len()
        } else {
            ys.len()
        },
        |t: int| (xs[t], ys[t]),
    )
}

/// The full pairing, as `(source index, new commit index)` pairs: the anchored
/// pairs, then the positional pairs of what is left.
pub open spec fn cherry_pick_pair_indices(
    sources: Seq<Option<Seq<char>>>,
    targets: Seq<Option<Seq<char>>>,
) -> Seq<(int, int)> {
    let (a, used) = anchor_pass(sources, targets, sources.len() as int);
    anchored_pairs(a) + zip_indices(free_indices(anchored_flags(a)), free_indices(used))
}

/// The earliest free new commit whose patch id is `pid`.
fn find_free_match(
    new_patch_ids: &Vec<Option<String>>,
    matched_new: &Vec<bool>,
    pid: &String,
) -> (r: Option<usize>)
    requires
        matched_new.len() == new_patch_ids.len(),
    ensures
        match first_free_match(optional_strings_view(new_patch_ids@), matched_new@, pid@, 0) {
            Some(j) => r == Some(j as usize),
            None => r is None,
        },
{
    let ghost targets = optional_strings_view(new_patch_ids@);
    let mut j: usize = 0;
    while j < new_patch_ids.len()
        invariant
            j <= new_patch_ids.len(),
            matched_new.len() == new_patch_ids.len(),
            targets == optional_strings_view(new_patch_ids@),
            first_free_match(targets, matched_new@, pid@, 0) == first_free_match(
                targets,
                matched_new@,
                pid@,
                j as int,
            ),
        decreases new_patch_ids.len() - j,
    {
        if !matched_new[j] {
            match &new_patch_ids[j] {
                Some(q) => {
                    if *q == *pid {
                        return Some(j);
                    }
                },
                None => {},
            }
        }
        j = j + 1;
    }
    None
}

/// The indices of the `false` entries of `flags`, in increasing order.
fn free_positions(flags: &Vec<bool>) -> (r: Vec<usize>)
    ensures
        r.len() == free_indices(flags@).len(),
        forall|t: int| 0 <= t < r.len() ==> r@[t] as int == free_indices(flags@)[t],
{
    let mut r: Vec<usize> = Vec::new();
    let mut i: usize = 0;
    while i < flags.len()
        invariant
            i <= flags.len(),
            r.len() == free_indices(flags@.take(i as int)).len(),
            forall|t: int| 0 <= t < r.len() ==> r@[t] as int == free_indices(flags@.take(i as int))[t],
        decreases flags.len() - i,
    {
        assert(flags@.take(i + 1).drop_last() =~= flags@.take(i as int));
        if !flags[i] {
            r.push(i);
        }
        i = i + 1;
    }
    assert(flags@.take(flags.len() as int) =~= flags@);
    r
}

/// Pairs source commits with their cherry-picked counterparts.
///
/// `source_patch_ids[i]` is the stable patch id of `sources[i]` and
/// `new_patch_ids[j]` that of `new_commits[j]`, where one could be computed.
/// Identical patches are paired first; the remaining sources and new commits are
/// then paired by position. A source with no counterpart produces no pair.
pub fn match_cherry_pick_pairs(
    sources: &Vec<String>,
    new_commits: &Vec<String>,
    source_patch_ids: &Vec<Option<String>>,
    new_patch_ids: &Vec<Option<String>>,
) -> (pairs: Vec<(String, String)>)
    requires
        source_patch_ids.len() == sources.len(),
        new_patch_ids.len() == new_commits.len(),
    ensures
        pairs.len() == cherry_pick_pair_indices(
            optional_strings_view(source_patch_ids@),
            optional_strings_view(new_patch_ids@),
        ).len(),
        forall|t: int|
            #![trigger pairs@[t]]
            0 <= t < pairs.len() ==> {
                let ij = cherry_pick_pair_indices(
                    optional_strings_view(source_patch_ids@),
                    optional_strings_view(new_patch_ids@),
                )[t];
                &&& pairs@[t].0 == sources@[ij.0]
                &&& pairs@[t].1 == new_commits@[ij.1]
            },
{
    let ghost sp = optional_strings_view(source_patch_ids@);
    let ghost np = optional_strings_view(new_patch_ids@);
    if sources.len() == 0 || new_commits.len() == 0 {
        proof {
            lemma_pair_indices_len(sp, np);
        }
        return Vec::new();
    }
    let mut matched_new: Vec<bool> = Vec::new();
    let mut j: usize = 0;
    while j < new_commits.len()
        invariant
            j <= new_commits.len(),
            matched_new@ == Seq::new(j as nat, |x: int| false),
        decreases new_commits.len() - j,
    {
        matched_new.push(false);
        j = j + 1;
    }
    assert(matched_new@ =~= anchor_pass(sp, np, 0).1);

    // Pass 1: patch-id anchoring.
    let mut matched_sources: Vec<bool> = Vec::new();
    let mut pairs: Vec<(String, String)> = Vec::new();
    let mut i: usize = 0;
    while i < sources.len()
        invariant
            i <= sources.len(),
            source_patch_ids.len() == sources.len(),
            new_patch_ids.len() == new_commits.len(),
            sp == optional_strings_view(source_patch_ids@),
            np == optional_strings_view(new_patch_ids@),
            matched_sources@ == anchored_flags(anchor_pass(sp, np, i as int).0),
            matched_new@ == anchor_pass(sp, np, i as int).1,
            pairs.len() == anchored_pairs(anchor_pass(sp, np, i as int).0).len(),
            forall|t: int|
                #![trigger pairs@[t]]
                0 <= t < pairs.len() ==> {
                    let ij = anchored_pairs(anchor_pass(sp, np, i as int).0)[t];
                    &&& pairs@[t].0 == sources@[ij.0]
                    &&& pairs@[t].1 == new_commits@[ij.1]
                },
        decreases sources.len() - i,
    {
        proof {
            lemma_anchor_pass_shape(sp, np, i as int);
        }
        let ghost prev = anchor_pass(sp, np, i as int);
        let ghost prev_pairs = pairs@;
        match &source_patch_ids[i] {
            Some(pid) => {
                let found = find_free_match(new_patch_ids, &matched_new, pid);
                match found {
                    Some(jj) => {
                        proof {
                            lemma_first_free_match_bounds(np, matched_new@, pid@, 0);
                        }
                        pairs.push((sources[i].clone(), new_commits[jj].clone()));
                        matched_sources.push(true);
                        matched_new.set(jj, true);
                    },
                    None => {
                        matched_sources.push(false);
                    },
                }
            },
            None => {
                matched_sources.push(false);
            },
        }
        proof {
            let next = anchor_pass(sp, np, i + 1);
            assert(next.0.drop_last() == prev.0);
            assert(matched_sources@ =~= anchored_flags(next.0));
            assert(matched_new@ =~= next.1);
            assert forall|t: int|
                #![trigger pairs@[t]]
                0 <= t < pairs.len() implies {
                    let ij = anchored_pairs(next.0)[t];
                    &&& pairs@[t].0 == sources@[ij.0]
                    &&& pairs@[t].1 == new_commits@[ij.1]
                } by {
                if t < prev_pairs.len() {
                    assert(pairs@[t] == prev_pairs[t]);
                }
            }
        }
        i = i + 1;
    }

    // Pass 2: positional gap-fill.
    let unmatched_sources = free_positions(&matched_sources);
    let unmatched_new = free_positions(&matched_new);
    let ghost a = anchor_pass(sp, np, sources.len() as int).0;
    let ghost used = anchor_pass(sp, np, sources.len() as int).1;
    let ghost fs = free_indices(anchored_flags(a));
    let ghost ft = free_indices(used);
    let ghost anchored = pairs@;
    proof {
        assert forall|k: int|
            #![trigger anchored[k]]
            0 <= k < anchored.len() implies {
                let ij = anchored_pairs(a)[k];
                &&& anchored[k].0 == sources@[ij.0]
                &&& anchored[k].1 == new_commits@[ij.1]
            } by {
            assert(pairs@[k] == anchored[k]);
        }
        lemma_anchor_pass_shape(sp, np, sources.len() as int);
        lemma_free_indices_bounds(anchored_flags(a));
        lemma_free_indices_bounds(used);
    }
    let mut t: usize = 0;
    while t < unmatched_sources.len() && t < unmatched_new.len()
        invariant
            t <= unmatched_sources.len(),
            t <= unmatched_new.len(),
            unmatched_sources.len() == fs.len(),
            unmatched_new.len() == ft.len(),
            forall|k: int| 0 <= k < fs.len() ==> unmatched_sources@[k] as int == fs[k],
            forall|k: int| 0 <= k < ft.len() ==> unmatched_new@[k] as int == ft[k],
            forall|k: int| 0 <= k < fs.len() ==> 0 <= #[trigger] fs[k] < sources.len(),
            forall|k: int| 0 <= k < ft.len() ==> 0 <= #[trigger] ft[k] < new_commits.len(),
            pairs.len() == anchored.len() + t,
            forall|k: int| 0 <= k < anchored.len() ==> pairs@[k] == anchored[k],
            forall|k: int|
                0 <= k < t ==> #[trigger] pairs@[anchored.len() + k] == (
                    sources@[fs[k]],
                    new_commits@[ft[k]],
                ),
        decreases unmatched_sources.len() - t,
    {
        let s = unmatched_sources[t];
        let n = unmatched_new[t];
        assert(0 <= fs[t as int] < sources.len());
        assert(0 <= ft[t as int] < new_commits.len());
        pairs.push((sources[s].clone(), new_commits[n].clone()));
        t = t + 1;
    }
    proof {
        lemma_pair_indices_len(sp, np);
        let idx = cherry_pick_pair_indices(sp, np);
        let z = zip_indices(fs, ft);
        assert(idx == anchored_pairs(a) + z);
        assert forall|k: int|
            #![trigger pairs@[k]]
            0 <= k < pairs.len() implies {
                let ij = idx[k];
                &&& 0 <= ij.0 < sources.len()
                &&& 0 <= ij.1 < new_commits.len()
                &&& pairs@[k].0 == sources@[ij.0]
                &&& pairs@[k].1 == new_commits@[ij.1]
            } by {
            if k < anchored.len() {
                lemma_anchored_pairs_bounds(sp, np, sources.len() as int, k);
                assert(idx[k] == anchored_pairs(a)[k]);
                assert(pairs@[k] == anchored[k]);
            } else {
                assert(idx[k] == z[k - anchored.len()]);
                assert(z[k - anchored.len()] == (fs[k - anchored.len()], ft[k - anchored.len()]));
                assert(pairs@[anchored.len() + (k - anchored.len())] == (
                    sources@[fs[k - anchored.len()]],
                    new_commits@[ft[k - anchored.len()]],
                ));
            }
        }
        assert(sp == optional_strings_view(source_patch_ids@));
        assert(np == optional_strings_view(new_patch_ids@));
    }
    pairs
}

// ---------------------------------------------------------------------------
// Lemmas about the pairing spec.
/// Number of `true` entries.
pub open spec fn count_true(f: Seq<bool>) -> nat
    decreases f.len(),
{
    if f.len() == 0 {
        0
    } else {
        count_true(f.drop_last()) + if f.last() {
            1nat
        } else {
            0nat
        }
    }
}

proof fn lemma_count_true_le(f: Seq<bool>)
    ensures
        count_true(f) <= f.len(),
    decreases f.len(),
{
    if f.len() > 0 {
        lemma_count_true_le(f.drop_last());
    }
}

proof fn lemma_count_true_update(f: Seq<bool>, j: int)
    requires
        0 <= j < f.len(),
        !f[j],
    ensures
        count_true(f.update(j, true)) == count_true(f) + 1,
    decreases f.len(),
{
    let g = f.update(j, true);
    if j == f.len() - 1 {
        assert(g.drop_last() =~= f.drop_last());
    } else {
        assert(g.drop_last() =~= f.drop_last().update(j, true));
        lemma_count_true_update(f.drop_last(), j);
    }
}

proof fn lemma_count_true_all_false(n: nat)
    ensures
        count_true(all_false(n)) == 0,
    decreases n,
{
    if n > 0 {
        assert(all_false(n).drop_last() =~= all_false((n - 1) as nat));
        lemma_count_true_all_false((n - 1) as nat);
    }
}

proof fn lemma_free_indices_len(f: Seq<bool>)
    ensures
        free_indices(f).len() + count_true(f) == f.len(),
    decreases f.len(),
{
    if f.len() > 0 {
        lemma_free_indices_len(f.drop_last());
    }
}

/// The free indices are in bounds, strictly increasing, and are exactly the
/// `false` positions.
proof fn lemma_free_indices_bounds(f: Seq<bool>)
    ensures
        forall|k: int| 0 <= k < free_indices(f).len() ==> 0 <= #[trigger] free_indices(f)[k] < f.len(),
        forall|k: int| 0 <= k < free_indices(f).len() ==> !f[#[trigger] free_indices(f)[k]],
        forall|k1: int, k2: int|
            0 <= k1 < k2 < free_indices(f).len() ==> #[trigger] free_indices(f)[k1]
                < #[trigger] free_indices(f)[k2],
    decreases f.len(),
{
    if f.len() > 0 {
        lemma_free_indices_bounds(f.drop_last());
        let r = free_indices(f.drop_last());
        assert forall|k: int| 0 <= k < r.len() implies !f[#[trigger] r[k]] by {
            assert(f.drop_last()[r[k]] == f[r[k]]);
        }
    }
}

proof fn lemma_anchored_pairs_len(a: Seq<Option<int>>)
    ensures
        anchored_pairs(a).len() == count_true(anchored_flags(a)),
    decreases a.len(),
{
    if a.len() > 0 {
        assert(anchored_flags(a).drop_last() =~= anchored_flags(a.drop_last()));
        lemma_anchored_pairs_len(a.drop_last());
    }
}

proof fn lemma_first_free_match_bounds(
    targets: Seq<Option<Seq<char>>>,
    used: Seq<bool>,
    pid: Seq<char>,
    from: int,
)
    ensures
        first_free_match(targets, used, pid, from) matches Some(j) ==> {
            &&& from <= j < targets.len()
            &&& 0 <= j
            &&& !used[j]
            &&& targets[j] == Some(pid)
        },
    decreases targets.len() - from,
{
    if from < 0 || from >= targets.len() {
    } else if !used[from] && targets[from] == Some(pid) {
    } else {
        lemma_first_free_match_bounds(targets, used, pid, from + 1);
    }
}

proof fn lemma_first_free_match_none(
    targets: Seq<Option<Seq<char>>>,
    used: Seq<bool>,
    pid: Seq<char>,
    from: int,
)
    requires
        forall|j: int| 0 <= j < targets.len() ==> targets[j] is None,
    ensures
        first_free_match(targets, used, pid, from) is None,
    decreases targets.len() - from,
{
    if from < 0 || from >= targets.len() {
    } else {
        lemma_first_free_match_none(targets, used, pid, from + 1);
    }
}

/// What every prefix of the first pass looks like.
pub open spec fn anchor_shape(
    sources: Seq<Option<Seq<char>>>,
    targets: Seq<Option<Seq<char>>>,
    a: Seq<Option<int>>,
    used: Seq<bool>,
    k: int,
) -> bool {
    &&& a.len() == k
    &&& used.len() == targets.len()
    &&& count_true(used) == count_true(anchored_flags(a))
    &&& forall|t: int|
        #![trigger a[t]]
        0 <= t < k ==> (a[t] matches Some(j) ==> {
            &&& 0 <= j < targets.len()
            &&& used[j]
            &&& sources[t] is Some
            &&& targets[j] == sources[t]
        })
    &&& forall|t1: int, t2: int|
        0 <= t1 < t2 < k ==> (#[trigger] a[t1] matches Some(j1) ==> (#[trigger] a[t2] matches Some(
            j2,
        ) ==> j1 != j2))
}

proof fn lemma_anchor_pass_shape(
    sources: Seq<Option<Seq<char>>>,
    targets: Seq<Option<Seq<char>>>,
    k: int,
)
    requires
        0 <= k <= sources.len(),
    ensures
        anchor_shape(
            sources,
            targets,
            anchor_pass(sources, targets, k).0,
            anchor_pass(sources, targets, k).1,
            k,
        ),
    decreases k,
{
    if k <= 0 {
        lemma_count_true_all_false(targets.len());
        assert(anchored_flags(Seq::<Option<int>>::empty()) =~= Seq::<bool>::empty());
    } else {
        lemma_anchor_pass_shape(sources, targets, k - 1);
        let (a, used) = anchor_pass(sources, targets, k - 1);
        let (a2, used2) = anchor_pass(sources, targets, k);
        assert(anchored_flags(a2).drop_last() =~= anchored_flags(a));
        match sources[k - 1] {
            Some(pid) => {
                lemma_first_free_match_bounds(targets, used, pid, 0);
                match first_free_match(targets, used, pid, 0) {
                    Some(j) => {
                        lemma_count_true_update(used, j);
                        assert forall|t: int|
                            #![trigger a2[t]]
                            0 <= t < k implies (a2[t] matches Some(jj) ==> {
                                &&& 0 <= jj < targets.len()
                                &&& used2[jj]
                                &&& sources[t] is Some
                                &&& targets[jj] == sources[t]
                            }) by {
                            if t < k - 1 {
                                assert(a2[t] == a[t]);
                            }
                        }
                        assert forall|t1: int, t2: int|
                            0 <= t1 < t2 < k implies (#[trigger] a2[t1] matches Some(j1) ==> (
                            #[trigger] a2[t2] matches Some(j2) ==> j1 != j2)) by {
                            assert(a2[t1] == a[t1]);
                            if t2 < k - 1 {
                                assert(a2[t2] == a[t2]);
                            }
                        }
                    },
                    None => {
                        assert forall|t1: int, t2: int|
                            0 <= t1 < t2 < k implies (#[trigger] a2[t1] matches Some(j1) ==> (
                            #[trigger] a2[t2] matches Some(j2) ==> j1 != j2)) by {
                            assert(a2[t1] == a[t1]);
                            if t2 < k - 1 {
                                assert(a2[t2] == a[t2]);
                            }
                        }
                        assert forall|t: int| #![trigger a2[t]] 0 <= t < k - 1 implies a2[t] == a[t] by {}
                    },
                }
            },
            None => {
                assert forall|t1: int, t2: int|
                    0 <= t1 < t2 < k implies (#[trigger] a2[t1] matches Some(j1) ==> (
                    #[trigger] a2[t2] matches Some(j2) ==> j1 != j2)) by {
                    assert(a2[t1] == a[t1]);
                    if t2 < k - 1 {
                        assert(a2[t2] == a[t2]);
                    }
                }
                assert forall|t: int| #![trigger a2[t]] 0 <= t < k - 1 implies a2[t] == a[t] by {}
            },
        }
    }
}

/// Each anchored pair `(i, j)`: `a[i] == Some(j)`, pairs come in increasing `i`.
proof fn lemma_anchored_pairs_entries(a: Seq<Option<int>>)
    ensures
        forall|k: int|
            #![trigger anchored_pairs(a)[k]]
            0 <= k < anchored_pairs(a).len() ==> {
                &&& 0 <= anchored_pairs(a)[k].0 < a.len()
                &&& a[anchored_pairs(a)[k].0] == Some(anchored_pairs(a)[k].1)
            },
        forall|k1: int, k2: int|
            0 <= k1 < k2 < anchored_pairs(a).len() ==> #[trigger] anchored_pairs(a)[k1].0
                < #[trigger] anchored_pairs(a)[k2].0,
    decreases a.len(),
{
    if a.len() > 0 {
        lemma_anchored_pairs_entries(a.drop_last());
        let r = anchored_pairs(a.drop_last());
        assert forall|k: int| #![trigger r[k]] 0 <= k < r.len() implies a[r[k].0] == Some(r[k].1) by {
            assert(a.drop_last()[r[k].0] == a[r[k].0]);
        }
    }
}

proof fn lemma_anchored_pairs_bounds(
    sources: Seq<Option<Seq<char>>>,
    targets: Seq<Option<Seq<char>>>,
    k: int,
    t: int,
)
    requires
        0 <= k <= sources.len(),
        0 <= t < anchored_pairs(anchor_pass(sources, targets, k).0).len(),
    ensures
        0 <= anchored_pairs(anchor_pass(sources, targets, k).0)[t].0 < sources.len(),
        0 <= anchored_pairs(anchor_pass(sources, targets, k).0)[t].1 < targets.len(),
{
    let a = anchor_pass(sources, targets, k).0;
    lemma_anchor_pass_shape(sources, targets, k);
    lemma_anchored_pairs_entries(a);
    let p = anchored_pairs(a)[t];
    assert(a[p.0] == Some(p.1));
}

/// The pairing has one pair per source or per new commit, whichever is fewer.
proof fn lemma_pair_indices_len(sources: Seq<Option<Seq<char>>>, targets: Seq<Option<Seq<char>>>)
    ensures
        cherry_pick_pair_indices(sources, targets).len() == if sources.len() <= targets.len() {
            sources.len()
        } else {
            targets.len()
        },
{
    let (a, used) = anchor_pass(sources, targets, sources.len() as int);
    lemma_anchor_pass_shape(sources, targets, sources.len() as int);
    lemma_anchored_pairs_len(a);
    lemma_free_indices_len(anchored_flags(a));
    lemma_free_indices_len(used);
    lemma_count_true_le(used);
    lemma_count_true_le(anchored_flags(a));
}

// ---------------------------------------------------------------------------
// Laws of the pairing.
/// The pairing has exactly `min(#sources, #new commits)` pairs: every source is
/// paired while new commits remain, and no pair is made up.
pub proof fn law_pair_count(sources: Seq<Option<Seq<char>>>, targets: Seq<Option<Seq<char>>>)
    ensures
        cherry_pick_pair_indices(sources, targets).len() == if sources.len() <= targets.len() {
            sources.len()
        } else {
            targets.len()
        },
{
    lemma_pair_indices_len(sources, targets);
}

/// Every pair refers to a real source and a real new commit, and no source and
/// no new commit is used in two pairs.
pub proof fn law_pairs_are_one_to_one(
    sources: Seq<Option<Seq<char>>>,
    targets: Seq<Option<Seq<char>>>,
)
    ensures
        forall|t: int|
            #![trigger cherry_pick_pair_indices(sources, targets)[t]]
            0 <= t < cherry_pick_pair_indices(sources, targets).len() ==> {
                &&& 0 <= cherry_pick_pair_indices(sources, targets)[t].0 < sources.len()
                &&& 0 <= cherry_pick_pair_indices(sources, targets)[t].1 < targets.len()
            },
        forall|t1: int, t2: int|
            0 <= t1 < t2 < cherry_pick_pair_indices(sources, targets).len() ==> {
                &&& #[trigger] cherry_pick_pair_indices(sources, targets)[t1].0
                    != #[trigger] cherry_pick_pair_indices(sources, targets)[t2].0
                &&& cherry_pick_pair_indices(sources, targets)[t1].1 != cherry_pick_pair_indices(
                    sources,
                    targets,
                )[t2].1
            },
{
    let k = sources.len() as int;
    let (a, used) = anchor_pass(sources, targets, k);
    let idx = cherry_pick_pair_indices(sources, targets);
    let ap = anchored_pairs(a);
    let fs = free_indices(anchored_flags(a));
    let ft = free_indices(used);
    let z = zip_indices(fs, ft);
    lemma_anchor_pass_shape(sources, targets, k);
    lemma_anchored_pairs_entries(a);
    lemma_free_indices_bounds(anchored_flags(a));
    lemma_free_indices_bounds(used);
    assert(idx == ap + z);
    assert forall|t: int|
        #![trigger idx[t]]
        0 <= t < idx.len() implies {
            &&& 0 <= idx[t].0 < sources.len()
            &&& 0 <= idx[t].1 < targets.len()
        } by {
        if t < ap.len() {
            assert(idx[t] == ap[t]);
            assert(a[ap[t].0] == Some(ap[t].1));
        } else {
            assert(idx[t] == z[t - ap.len()]);
        }
    }
    assert forall|t1: int, t2: int|
        0 <= t1 < t2 < idx.len() implies {
            &&& #[trigger] idx[t1].0 != #[trigger] idx[t2].0
            &&& idx[t1].1 != idx[t2].1
        } by {
        if t2 < ap.len() {
            assert(idx[t1] == ap[t1] && idx[t2] == ap[t2]);
            assert(ap[t1].0 < ap[t2].0);
            let i1 = ap[t1].0;
            let i2 = ap[t2].0;
            assert(a[i1] == Some(ap[t1].1));
            assert(a[i2] == Some(ap[t2].1));
        } else if t1 < ap.len() {
            assert(idx[t1] == ap[t1]);
            assert(idx[t2] == z[t2 - ap.len()]);
            let i1 = ap[t1].0;
            assert(a[i1] == Some(ap[t1].1));
            assert(anchored_flags(a)[i1]);
            assert(!anchored_flags(a)[fs[t2 - ap.len()]]);
            assert(used[ap[t1].1]);
            assert(!used[ft[t2 - ap.len()]]);
        } else {
            assert(idx[t1] == z[t1 - ap.len()]);
            assert(idx[t2] == z[t2 - ap.len()]);
            assert(fs[t1 - ap.len()] < fs[t2 - ap.len()]);
            assert(ft[t1 - ap.len()] < ft[t2 - ap.len()]);
        }
    }
}

/// A pair made in the first pass joins a source and a new commit with the same
/// stable patch id.
pub proof fn law_anchored_pairs_share_patch_id(
    sources: Seq<Option<Seq<char>>>,
    targets: Seq<Option<Seq<char>>>,
)
    ensures
        ({
            let a = anchor_pass(sources, targets, sources.len() as int).0;
            forall|t: int|
                #![trigger cherry_pick_pair_indices(sources, targets)[t]]
                0 <= t < anchored_pairs(a).len() ==> {
                    let ij = cherry_pick_pair_indices(sources, targets)[t];
                    &&& sources[ij.0] is Some
                    &&& targets[ij.1] == sources[ij.0]
                }
        }),
{
    let k = sources.len() as int;
    let (a, used) = anchor_pass(sources, targets, k);
    let idx = cherry_pick_pair_indices(sources, targets);
    let ap = anchored_pairs(a);
    lemma_anchor_pass_shape(sources, targets, k);
    lemma_anchored_pairs_entries(a);
    assert forall|t: int|
        #![trigger idx[t]]
        0 <= t < ap.len() implies {
            &&& sources[idx[t].0] is Some
            &&& targets[idx[t].1] == sources[idx[t].0]
        } by {
        assert(idx[t] == ap[t]);
        assert(a[ap[t].0] == Some(ap[t].1));
    }
}

proof fn lemma_free_indices_all_false(n: nat)
    ensures
        free_indices(all_false(n)).len() == n,
        forall|k: int| 0 <= k < n ==> #[trigger] free_indices(all_false(n))[k] == k,
    decreases n,
{
    if n > 0 {
        assert(all_false(n).drop_last() =~= all_false((n - 1) as nat));
        lemma_free_indices_all_false((n - 1) as nat);
    }
}

proof fn lemma_anchor_pass_no_anchor(
    sources: Seq<Option<Seq<char>>>,
    targets: Seq<Option<Seq<char>>>,
    k: int,
)
    requires
        0 <= k <= sources.len(),
        (forall|i: int| 0 <= i < sources.len() ==> sources[i] is None) || (forall|j: int|
            0 <= j < targets.len() ==> targets[j] is None),
    ensures
        anchor_pass(sources, targets, k).0 =~= Seq::new(k as nat, |i: int| None::<int>),
        anchor_pass(sources, targets, k).1 =~= all_false(targets.len()),
    decreases k,
{
    if k > 0 {
        lemma_anchor_pass_no_anchor(sources, targets, k - 1);
        let used = anchor_pass(sources, targets, k - 1).1;
        match sources[k - 1] {
            Some(pid) => {
                lemma_first_free_match_none(targets, used, pid, 0);
            },
            None => {},
        }
    }
}

/// Without patch ids on either side, pairing is purely positional: the `t`-th
/// source is paired with the `t`-th new commit.
pub proof fn law_positional_without_patch_ids(
    sources: Seq<Option<Seq<char>>>,
    targets: Seq<Option<Seq<char>>>,
)
    requires
        (forall|i: int| 0 <= i < sources.len() ==> sources[i] is None) || (forall|j: int|
            0 <= j < targets.len() ==> targets[j] is None),
    ensures
        forall|t: int|
            0 <= t < cherry_pick_pair_indices(sources, targets).len() ==> #[trigger] cherry_pick_pair_indices(
                sources,
                targets,
            )[t] == (t, t),
{
    let k = sources.len() as int;
    lemma_anchor_pass_no_anchor(sources, targets, k);
    let (a, used) = anchor_pass(sources, targets, k);
    assert(anchored_flags(a) =~= all_false(sources.len()));
    lemma_free_indices_all_false(sources.len());
    lemma_free_indices_all_false(targets.len());
    lemma_anchored_pairs_len(a);
    lemma_count_true_all_false(sources.len());
    let idx = cherry_pick_pair_indices(sources, targets);
    assert(anchored_pairs(a).len() == 0);
    assert forall|t: int| 0 <= t < idx.len() implies #[trigger] idx[t] == (t, t) by {
        assert(idx[t] == zip_indices(free_indices(anchored_flags(a)), free_indices(used))[t]);
    }
}


/// Patch ids present on one side are all different.
pub open spec fn distinct_patch_ids(ids: Seq<Option<Seq<char>>>) -> bool {
    forall|a: int, b: int|
        0 <= a < ids.len() && 0 <= b < ids.len() && a != b && (#[trigger] ids[a]) is Some ==> ids[a]
            != #[trigger] ids[b]
}

proof fn lemma_anchor_pass_prefix(
    sources: Seq<Option<Seq<char>>>,
    targets: Seq<Option<Seq<char>>>,
    k: int,
    n: int,
)
    requires
        0 <= k < n <= sources.len(),
    ensures
        anchor_pass(sources, targets, n).0[k] == anchor_pass(sources, targets, k + 1).0[k],
    decreases n - k,
{
    lemma_anchor_pass_shape(sources, targets, n - 1);
    if n - 1 > k {
        lemma_anchor_pass_prefix(sources, targets, k, n - 1);
        assert(anchor_pass(sources, targets, n).0[k] == anchor_pass(sources, targets, n - 1).0[k]);
    }
}

proof fn lemma_used_has_anchor(
    sources: Seq<Option<Seq<char>>>,
    targets: Seq<Option<Seq<char>>>,
    k: int,
)
    requires
        0 <= k <= sources.len(),
    ensures
        forall|j: int|
            0 <= j < targets.len() && #[trigger] anchor_pass(sources, targets, k).1[j] ==> exists|
                t: int,
            |
                0 <= t < k && #[trigger] anchor_pass(sources, targets, k).0[t] == Some(j),
    decreases k,
{
    if k > 0 {
        lemma_used_has_anchor(sources, targets, k - 1);
        lemma_anchor_pass_shape(sources, targets, k - 1);
        let (a, used) = anchor_pass(sources, targets, k - 1);
        let (a2, used2) = anchor_pass(sources, targets, k);
        assert forall|j: int| 0 <= j < targets.len() && #[trigger] used2[j] implies exists|t: int|
            0 <= t < k && #[trigger] a2[t] == Some(j) by {
            if used[j] {
                let t = choose|t: int| 0 <= t < k - 1 && #[trigger] a[t] == Some(j);
                assert(a2[t] == a[t]);
            } else {
                match sources[k - 1] {
                    Some(pid) => {
                        lemma_first_free_match_bounds(targets, used, pid, 0);
                        match first_free_match(targets, used, pid, 0) {
                            Some(j1) => {
                                assert(used2 == used.update(j1, true));
                                assert(j1 == j);
                                assert(a2[k - 1] == Some(j));
                            },
                            None => {
                                assert(used2 == used);
                            },
                        }
                    },
                    None => {
                        assert(used2 == used);
                    },
                }
            }
        }
    }
}

proof fn lemma_first_free_unique(
    targets: Seq<Option<Seq<char>>>,
    used: Seq<bool>,
    pid: Seq<char>,
    from: int,
    j: int,
)
    requires
        0 <= from <= j < targets.len(),
        used.len() == targets.len(),
        targets[j] == Some(pid),
        !used[j],
        forall|x: int| 0 <= x < targets.len() && x != j ==> targets[x] != Some(pid),
    ensures
        first_free_match(targets, used, pid, from) == Some(j),
    decreases j - from,
{
    if from < j {
        lemma_first_free_unique(targets, used, pid, from + 1, j);
    }
}

proof fn lemma_anchored_pairs_has(a: Seq<Option<int>>, t: int, j: int)
    requires
        0 <= t < a.len(),
        a[t] == Some(j),
    ensures
        anchored_pairs(a).contains((t, j)),
    decreases a.len(),
{
    if t == a.len() - 1 {
        let r = anchored_pairs(a);
        assert(r[r.len() - 1] == (t, j));
    } else {
        assert(a.drop_last()[t] == a[t]);
        lemma_anchored_pairs_has(a.drop_last(), t, j);
        let r0 = anchored_pairs(a.drop_last());
        let w = choose|w: int| 0 <= w < r0.len() && r0[w] == (t, j);
        assert(anchored_pairs(a)[w] == (t, j));
    }
}

/// Identical patches are paired: when no patch id repeats on either side, a
/// source and a new commit with the same patch id are paired with each other.
pub proof fn law_identical_patches_are_paired(
    sources: Seq<Option<Seq<char>>>,
    targets: Seq<Option<Seq<char>>>,
    i: int,
    j: int,
)
    requires
        distinct_patch_ids(sources),
        distinct_patch_ids(targets),
        0 <= i < sources.len(),
        0 <= j < targets.len(),
        sources[i] is Some,
        targets[j] == sources[i],
    ensures
        cherry_pick_pair_indices(sources, targets).contains((i, j)),
{
    let pid = sources[i]->0;
    let (a, used) = anchor_pass(sources, targets, i);
    lemma_anchor_pass_shape(sources, targets, i);
    lemma_used_has_anchor(sources, targets, i);
    if used[j] {
        let t = choose|t: int| 0 <= t < i && #[trigger] a[t] == Some(j);
        assert(sources[t] == targets[j]);
        assert(sources[t] != sources[i]);
    }
    assert forall|x: int| 0 <= x < targets.len() && x != j implies targets[x] != Some(pid) by {
        assert(targets[j] != targets[x]);
    }
    lemma_first_free_unique(targets, used, pid, 0, j);
    let n = sources.len() as int;
    let af = anchor_pass(sources, targets, n).0;
    assert(anchor_pass(sources, targets, i + 1).0[i] == Some(j));
    if i + 1 < n {
        lemma_anchor_pass_prefix(sources, targets, i, n);
    }
    assert(af[i] == Some(j));
    lemma_anchor_pass_shape(sources, targets, n);
    lemma_anchored_pairs_has(af, i, j);
    let ap = anchored_pairs(af);
    let w = choose|w: int| 0 <= w < ap.len() && ap[w] == (i, j);
    let idx = cherry_pick_pair_indices(sources, targets);
    assert(idx[w] == (i, j));
}

} // verus!
