//! Rebuilding working-log attributions after history rewrites: a
//! `cherry-pick --no-commit`, and a reset that moves HEAD backwards.
use vstd::prelude::*;
use crate::attribution::{LineAttribution, override_all};
use crate::batch::keys_distinct;
use crate::text::{pairs_view, strings_view};
use crate::decode::{lossy_string, lossy_utf8};
use crate::authorship::{
    AuthorshipLog,
    CollectedAttributions,
    append_files,
    append_to_file,
    extract_attributions_from_log_shifted,
    extract_files, shifts_given,
    law_extract_keeps_one_entry_per_file,
    law_merge_first_record_wins,
    key_index,
    lemma_key_index_bounds,
    lemma_key_index_concat,
    attests,
    contributed_to,
    lemma_nothing_contributed,
    lemma_override_all_concat,
    law_extract_overrides_each_file,
    stated_for,
    lemma_nothing_stated,
    law_append_adds_each_file,
    files_view,
    merge_records,
    merge_records_into,
    raw_attributions,
};

verus! {

// ---------------------------------------------------------------------------
// cherry-pick --no-commit
/// The source logs that take part: those that could be read and attest
/// something.
pub open spec fn usable_logs(logs: Seq<Option<AuthorshipLog>>) -> Seq<AuthorshipLog>
    decreases logs.len(),
{
    if logs.len() == 0 {
        Seq::empty()
    } else {
        let rest = usable_logs(logs.drop_last());
        match logs.last() {
            Some(l) => if l.attestations.len() > 0 {
                rest.push(l)
            } else {
                rest
            },
            None => rest,
        }
    }
}

/// The per-file attributions of `logs`, all appended in order.
pub open spec fn appended_log_files(logs: Seq<AuthorshipLog>) -> Seq<
    (Seq<char>, Seq<LineAttribution>),
>
    decreases logs.len(),
{
    if logs.len() == 0 {
        Seq::empty()
    } else {
        append_files(
            appended_log_files(logs.drop_last()),
            logs.last().attestations@,
            logs.last().attestations.len() as int,
        )
    }
}

/// The records selected by `sel` of all `logs`, merged in order (first wins).
pub open spec fn merged_log_records(
    acc: Seq<(Seq<char>, Seq<char>)>,
    logs: Seq<AuthorshipLog>,
    sel: spec_fn(AuthorshipLog) -> Seq<(String, String)>,
) -> Seq<(Seq<char>, Seq<char>)>
    decreases logs.len(),
{
    if logs.len() == 0 {
        acc
    } else {
        merge_records(merged_log_records(acc, logs.drop_last(), sel), pairs_view(sel(logs.last())))
    }
}

/// The prompt records of `logs`, merged in order (first wins).
pub open spec fn merged_prompts(logs: Seq<AuthorshipLog>) -> Seq<(Seq<char>, Seq<char>)> {
    merged_log_records(Seq::empty(), logs, |l: AuthorshipLog| l.metadata.prompts@)
}

/// The session records of `logs`, merged in order (first wins).
pub open spec fn merged_sessions(logs: Seq<AuthorshipLog>) -> Seq<(Seq<char>, Seq<char>)> {
    merged_log_records(Seq::empty(), logs, |l: AuthorshipLog| l.metadata.sessions@)
}

/// The human records of `logs`, merged in order (first wins).
pub open spec fn merged_humans(logs: Seq<AuthorshipLog>) -> Seq<(Seq<char>, Seq<char>)> {
    merged_log_records(Seq::empty(), logs, |l: AuthorshipLog| l.metadata.humans@)
}

/// Appends all attestations of `log` to `files`.
fn append_log(files: &mut Vec<(String, Vec<LineAttribution>)>, log: &AuthorshipLog)
    ensures
        files_view(final(files)@) == append_files(
            files_view(old(files)@),
            log.attestations@,
            log.attestations.len() as int,
        ),
{
    let ghost start = files_view(files@);
    let mut k: usize = 0;
    while k < log.attestations.len()
        invariant
            k <= log.attestations.len(),
            files_view(files@) == append_files(start, log.attestations@, k as int),
        decreases log.attestations.len() - k,
    {
        let fa = &log.attestations[k];
        let attrs = raw_attributions(fa);
        append_to_file(files, &fa.file_path, attrs);
        k = k + 1;
    }
}

/// Gathers what a `cherry-pick --no-commit` should record as the initial
/// attributions of the working log on `head`.
///
/// `source_logs[i]` is the authorship log read for the `i`-th source commit, or
/// `None` where none could be read. Nothing is recorded (`None`) when there are
/// no sources, `head` is empty, no source log attests anything, or no file
/// results. Otherwise the attributions of every file are those of the usable
/// logs, appended in order (line numbers are those of the staged content, which
/// is the source commits' content), and the records are merged, first seen wins.
pub fn handle_cherry_pick_no_commit(
    sources: &Vec<String>,
    head: &str,
    source_logs: &Vec<Option<AuthorshipLog>>,
) -> (r: Option<CollectedAttributions>)
    ensures
        (sources.len() == 0 || head@.len() == 0) ==> r is None,
        (sources.len() > 0 && head@.len() > 0) ==> {
            let logs = usable_logs(source_logs@);
            let files = appended_log_files(logs);
            match r {
                None => logs.len() == 0 || files.len() == 0,
                Some(c) => {
                    &&& logs.len() > 0
                    &&& files.len() > 0
                    &&& files_view(c.files@) == files
                    &&& pairs_view(c.prompts@) == merged_prompts(logs)
                    &&& pairs_view(c.sessions@) == merged_sessions(logs)
                    &&& pairs_view(c.humans@) == merged_humans(logs)
                },
            }
        },
{
    if sources.len() == 0 || head.is_empty() {
        return None;
    }
    let mut files: Vec<(String, Vec<LineAttribution>)> = Vec::new();
    let mut prompts: Vec<(String, String)> = Vec::new();
    let mut sessions: Vec<(String, String)> = Vec::new();
    let mut humans: Vec<(String, String)> = Vec::new();
    let mut any_log = false;
    let mut i: usize = 0;
    while i < source_logs.len()
        invariant
            i <= source_logs.len(),
            any_log == (usable_logs(source_logs@.take(i as int)).len() > 0),
            files_view(files@) == appended_log_files(usable_logs(source_logs@.take(i as int))),
            pairs_view(prompts@) == merged_prompts(usable_logs(source_logs@.take(i as int))),
            pairs_view(sessions@) == merged_sessions(usable_logs(source_logs@.take(i as int))),
            pairs_view(humans@) == merged_humans(usable_logs(source_logs@.take(i as int))),
        decreases source_logs.len() - i,
    {
        assert(source_logs@.take(i + 1).drop_last() =~= source_logs@.take(i as int));
        let ghost ul = usable_logs(source_logs@.take(i as int));
        match &source_logs[i] {
            Some(log) => {
                if log.attestations.len() > 0 {
                    assert(usable_logs(source_logs@.take(i + 1)) == ul.push(*log));
                    assert(ul.push(*log).drop_last() =~= ul);
                    append_log(&mut files, log);
                    merge_records_into(&mut prompts, &log.metadata.prompts);
                    merge_records_into(&mut sessions, &log.metadata.sessions);
                    merge_records_into(&mut humans, &log.metadata.humans);
                    any_log = true;
                } else {
                    assert(usable_logs(source_logs@.take(i + 1)) == ul);
                }
            },
            None => {
                assert(usable_logs(source_logs@.take(i + 1)) == ul);
            },
        }
        i = i + 1;
    }
    assert(source_logs@.take(source_logs.len() as int) =~= source_logs@);
    if !any_log {
        return None;
    }
    if files.len() == 0 {
        return None;
    }
    Some(CollectedAttributions { files, prompts, sessions, humans })
}

/// File contents as `git show` prints them, decoded lossily.
pub open spec fn lossy_views(raw: Seq<Vec<u8>>) -> Seq<Seq<char>> {
    raw.map_values(|b: Vec<u8>| lossy_utf8(b@))
}

/// Decodes each file content lossily.
fn decode_contents(raw: &Vec<Vec<u8>>) -> (texts: Vec<String>)
    ensures
        texts.len() == raw.len(),
        strings_view(texts@) == lossy_views(raw@),
{
    let mut texts: Vec<String> = Vec::new();
    let mut i: usize = 0;
    while i < raw.len()
        invariant
            i <= raw.len(),
            texts.len() == i,
            strings_view(texts@) == lossy_views(raw@).take(i as int),
        decreases raw.len() - i,
    {
        let ghost before = texts@;
        texts.push(lossy_string(raw[i].as_slice()));
        assert(strings_view(texts@) =~= lossy_views(raw@).take(i + 1));
        i = i + 1;
    }
    assert(lossy_views(raw@).take(raw.len() as int) =~= lossy_views(raw@));
    texts
}

/// The staged contents worth recording: `(path, content)` for each file whose
/// staged content is not empty. `staged_stdout[i]` is what `git show :<path>`
/// printed for `files[i]` (empty where it failed), decoded lossily.
pub fn staged_file_blobs(
    files: &Vec<(String, Vec<LineAttribution>)>,
    staged_stdout: &Vec<Vec<u8>>,
) -> (blobs: Vec<(String, String)>)
    requires
        staged_stdout.len() == files.len(),
    ensures
        pairs_view(blobs@) == nonempty_blobs(files_view(files@), lossy_views(staged_stdout@)),
{
    let decoded = decode_contents(staged_stdout);
    let staged_contents = &decoded;
    let ghost contents = strings_view(staged_contents@);
    let mut blobs: Vec<(String, String)> = Vec::new();
    let mut i: usize = 0;
    while i < files.len()
        invariant
            i <= files.len(),
            staged_contents.len() == files.len(),
            contents == strings_view(staged_contents@),
            pairs_view(blobs@) == nonempty_blobs(
                files_view(files@).take(i as int),
                contents.take(i as int),
            ),
        decreases files.len() - i,
    {
        assert(files_view(files@).take(i + 1).drop_last() =~= files_view(files@).take(i as int));
        assert(contents.take(i + 1).drop_last() =~= contents.take(i as int));
        if !staged_contents[i].as_str().is_empty() {
            let ghost before = blobs@;
            blobs.push((files[i].0.clone(), staged_contents[i].clone()));
            assert(pairs_view(blobs@) =~= pairs_view(before).push(
                (files_view(files@)[i as int].0, contents[i as int]),
            ));
        }
        i = i + 1;
    }
    assert(files_view(files@).take(files.len() as int) =~= files_view(files@));
    assert(contents.take(files.len() as int) =~= contents);
    blobs
}

/// `(path, content)` for each file with non-empty content.
pub open spec fn nonempty_blobs(
    files: Seq<(Seq<char>, Seq<LineAttribution>)>,
    contents: Seq<Seq<char>>,
) -> Seq<(Seq<char>, Seq<char>)>
    decreases files.len(),
{
    if files.len() == 0 {
        Seq::empty()
    } else {
        let rest = nonempty_blobs(files.drop_last(), contents.drop_last());
        if contents.last().len() > 0 {
            rest.push((files.last().0, contents.last()))
        } else {
            rest
        }
    }
}

// ---------------------------------------------------------------------------
// Backward reset
/// What to do with the working logs after a backward reset.
pub enum ResetAction {
    /// Nothing was attributed; leave the working logs alone.
    Unchanged,
    /// No attributed file differs from the reset target: drop the working log
    /// of the commit reset from.
    DiscardOldLog,
    /// Replace the working log of the reset target by these attributions and
    /// contents, then drop the working log of the commit reset from.
    Rewrite { attributions: CollectedAttributions, file_blobs: Vec<(String, String)> },
}

/// The diffs needed to shift the attributions of the un-done commits into the
/// coordinate space of `old_tip`: one `(commit, old_tip)` per commit other
/// than `old_tip`.
pub open spec fn reset_diff_pairs_spec(shas: Seq<Seq<char>>, old_tip: Seq<char>) -> Seq<
    (Seq<char>, Seq<char>),
>
    decreases shas.len(),
{
    if shas.len() == 0 {
        Seq::empty()
    } else {
        let rest = reset_diff_pairs_spec(shas.drop_last(), old_tip);
        if shas.last() != old_tip {
            rest.push((shas.last(), old_tip))
        } else {
            rest
        }
    }
}

/// For each un-done commit with a log, in order, the pair `(commit, old_tip)`
/// unless the commit is `old_tip` itself.
pub fn reset_diff_pairs(commit_shas: &Vec<String>, old_tip: &String) -> (pairs: Vec<
    (String, String),
>)
    ensures
        pairs_view(pairs@) == reset_diff_pairs_spec(
            strings_view(commit_shas@),
            old_tip@,
        ),
{
    let ghost shas = strings_view(commit_shas@);
    let mut pairs: Vec<(String, String)> = Vec::new();
    let mut i: usize = 0;
    while i < commit_shas.len()
        invariant
            i <= commit_shas.len(),
            shas == strings_view(commit_shas@),
            pairs_view(pairs@) == reset_diff_pairs_spec(shas.take(i as int), old_tip@),
        decreases commit_shas.len() - i,
    {
        assert(shas.take(i + 1).drop_last() =~= shas.take(i as int));
        if commit_shas[i] != *old_tip {
            let ghost before = pairs@;
            pairs.push((commit_shas[i].clone(), old_tip.clone()));
            assert(pairs_view(pairs@) =~= pairs_view(before).push((shas[i as int], old_tip@)));
        }
        i = i + 1;
    }
    assert(shas.take(commit_shas.len() as int) =~= shas);
    pairs
}

/// For each un-done commit with a log, which diff of `reset_diff_pairs` shifts
/// its attributions: none for `old_tip` itself, else the index of its pair.
pub open spec fn reset_diff_index(shas: Seq<Seq<char>>, old_tip: Seq<char>, i: int) -> Option<int> {
    if shas[i] == old_tip {
        None
    } else {
        Some(reset_diff_pairs_spec(shas.take(i), old_tip).len() as int)
    }
}

proof fn lemma_reset_diff_pairs_len(shas: Seq<Seq<char>>, old_tip: Seq<char>)
    ensures
        reset_diff_pairs_spec(shas, old_tip).len() <= shas.len(),
    decreases shas.len(),
{
    if shas.len() > 0 {
        lemma_reset_diff_pairs_len(shas.drop_last(), old_tip);
    }
}

proof fn lemma_reset_diff_pairs_prefix(shas: Seq<Seq<char>>, old_tip: Seq<char>, i: int)
    requires
        0 <= i < shas.len(),
        shas[i] != old_tip,
    ensures
        reset_diff_pairs_spec(shas.take(i), old_tip).len() < reset_diff_pairs_spec(shas, old_tip).len(),
        reset_diff_pairs_spec(shas, old_tip)[reset_diff_pairs_spec(shas.take(i), old_tip).len() as int]
            == (shas[i], old_tip),
    decreases shas.len(),
{
    let n = shas.len() - 1;
    assert(shas.drop_last() =~= shas.take(n));
    if i == n {
    } else {
        assert(shas.take(n).take(i) =~= shas.take(i));
        assert(shas.take(n)[i] == shas[i]);
        lemma_reset_diff_pairs_prefix(shas.take(n), old_tip, i);
    }
}

/// For each un-done commit with a log, the index in `reset_diff_pairs` of the
/// diff that shifts its attributions into `old_tip`'s lines, or `None` when the
/// commit is `old_tip` (its lines need no shift).
pub fn reset_diff_indices(commit_shas: &Vec<String>, old_tip: &String) -> (idx: Vec<Option<usize>>)
    ensures
        idx.len() == commit_shas.len(),
        forall|i: int|
            0 <= i < idx.len() ==> match #[trigger] reset_diff_index(
                strings_view(commit_shas@),
                old_tip@,
                i,
            ) {
                Some(j) => idx@[i] == Some(j as usize),
                None => idx@[i] is None,
            },
        forall|i: int|
            0 <= i < idx.len() ==> (#[trigger] idx@[i] matches Some(j) ==> {
                let pairs = reset_diff_pairs_spec(strings_view(commit_shas@), old_tip@);
                &&& j < pairs.len()
                &&& pairs[j as int] == (commit_shas@[i]@, old_tip@)
            }),
{
    let ghost shas = strings_view(commit_shas@);
    let mut idx: Vec<Option<usize>> = Vec::new();
    let mut count: usize = 0;
    let mut i: usize = 0;
    while i < commit_shas.len()
        invariant
            i <= commit_shas.len(),
            shas == strings_view(commit_shas@),
            idx.len() == i,
            count == reset_diff_pairs_spec(shas.take(i as int), old_tip@).len(),
            count <= i,
            forall|j: int|
                0 <= j < i ==> match #[trigger] reset_diff_index(shas, old_tip@, j) {
                    Some(c) => idx@[j] == Some(c as usize),
                    None => idx@[j] is None,
                },
        decreases commit_shas.len() - i,
    {
        assert(shas.take(i + 1).drop_last() =~= shas.take(i as int));
        if commit_shas[i] != *old_tip {
            idx.push(Some(count));
            count = count + 1;
        } else {
            idx.push(None);
        }
        i = i + 1;
    }
    proof {
        assert forall|i: int| 0 <= i < idx.len() implies (#[trigger] idx@[i] matches Some(j) ==> {
            let pairs = reset_diff_pairs_spec(shas, old_tip@);
            &&& j < pairs.len()
            &&& pairs[j as int] == (commit_shas@[i]@, old_tip@)
        }) by {
            if shas[i] != old_tip@ {
                assert(reset_diff_index(shas, old_tip@, i) is Some);
                lemma_reset_diff_pairs_prefix(shas, old_tip@, i);
                lemma_reset_diff_pairs_len(shas.take(i), old_tip@);
                assert(shas[i] == commit_shas@[i]@);
            } else {
                assert(reset_diff_index(shas, old_tip@, i) is None);
            }
        }
    }
    idx
}

/// The per-file attributions of the first `n` logs, each log's attributions
/// overriding those of the logs before it. `hunks[i]` is the diff that shifts
/// the attributions of `logs[i]` (as hunks per file), `shifted[i]` their
/// shifted attributions.
pub open spec fn reset_files(
    logs: Seq<AuthorshipLog>,
    hunks: Seq<Option<Vec<(String, usize)>>>,
    shifted: Seq<Vec<Option<Vec<LineAttribution>>>>,
    n: int,
) -> Seq<(Seq<char>, Seq<LineAttribution>)>
    decreases n,
{
    if n <= 0 {
        Seq::empty()
    } else {
        extract_files(
            reset_files(logs, hunks, shifted, n - 1),
            logs[n - 1].attestations@,
            hunks[n - 1],
            shifted[n - 1]@,
            logs[n - 1].attestations.len() as int,
        )
    }
}

/// Gathers the attributions of the logs of the un-done commits, oldest first,
/// so that later commits override earlier ones on overlapping lines.
/// `hunks[i]` is the diff from the commit of `logs[i]` to the commit reset
/// from (hunks per file; `None` for that commit itself), and `shifted[i][k]`
/// is attestation `k` of `logs[i]` shifted through it, given at least where
/// the file has hunks.
pub fn collect_reset_attributions(
    logs: &Vec<AuthorshipLog>,
    hunks: &Vec<Option<Vec<(String, usize)>>>,
    shifted: &Vec<Vec<Option<Vec<LineAttribution>>>>,
) -> (c: CollectedAttributions)
    requires
        hunks.len() == logs.len(),
        shifted.len() == logs.len(),
        forall|i: int|
            0 <= i < logs.len() ==> shifts_given(
                #[trigger] logs@[i].attestations@,
                hunks@[i],
                shifted@[i]@,
            ),
    ensures
        files_view(c.files@) == reset_files(logs@, hunks@, shifted@, logs.len() as int),
        pairs_view(c.prompts@) == merged_prompts(logs@),
        pairs_view(c.sessions@) == merged_sessions(logs@),
        pairs_view(c.humans@) == merged_humans(logs@),
{
    let mut files: Vec<(String, Vec<LineAttribution>)> = Vec::new();
    let mut prompts: Vec<(String, String)> = Vec::new();
    let mut sessions: Vec<(String, String)> = Vec::new();
    let mut humans: Vec<(String, String)> = Vec::new();
    let mut i: usize = 0;
    while i < logs.len()
        invariant
            i <= logs.len(),
            hunks.len() == logs.len(),
            shifted.len() == logs.len(),
            forall|j: int|
                0 <= j < logs.len() ==> shifts_given(
                    #[trigger] logs@[j].attestations@,
                    hunks@[j],
                    shifted@[j]@,
                ),
            files_view(files@) == reset_files(logs@, hunks@, shifted@, i as int),
            pairs_view(prompts@) == merged_prompts(logs@.take(i as int)),
            pairs_view(sessions@) == merged_sessions(logs@.take(i as int)),
            pairs_view(humans@) == merged_humans(logs@.take(i as int)),
        decreases logs.len() - i,
    {
        assert(logs@.take(i + 1).drop_last() =~= logs@.take(i as int));
        assert(shifts_given(logs@[i as int].attestations@, hunks@[i as int], shifted@[i as int]@));
        assert(logs@.take(i + 1).last() == logs@[i as int]);
        extract_attributions_from_log_shifted(
            &logs[i],
            &hunks[i],
            &shifted[i],
            &mut files,
            &mut prompts,
            &mut sessions,
            &mut humans,
        );
        i = i + 1;
    }
    assert(logs@.take(logs.len() as int) =~= logs@);
    CollectedAttributions { files, prompts, sessions, humans }
}

/// Whether a file's content at the commit reset from is worth recording: it is
/// not empty and differs from the file's content at the reset target.
pub open spec fn has_uncommitted_content(old: Seq<char>, new: Seq<char>) -> bool {
    old.len() > 0 && old != new
}

/// The attributed files with uncommitted content.
pub open spec fn uncommitted_files(
    files: Seq<(Seq<char>, Seq<LineAttribution>)>,
    old: Seq<Seq<char>>,
    new: Seq<Seq<char>>,
) -> Seq<(Seq<char>, Seq<LineAttribution>)>
    decreases files.len(),
{
    if files.len() == 0 {
        Seq::empty()
    } else {
        let rest = uncommitted_files(files.drop_last(), old.drop_last(), new.drop_last());
        if has_uncommitted_content(old.last(), new.last()) {
            rest.push(files.last())
        } else {
            rest
        }
    }
}

/// `(path, content at the commit reset from)` of the files with uncommitted content.
pub open spec fn uncommitted_blobs(
    files: Seq<(Seq<char>, Seq<LineAttribution>)>,
    old: Seq<Seq<char>>,
    new: Seq<Seq<char>>,
) -> Seq<(Seq<char>, Seq<char>)>
    decreases files.len(),
{
    if files.len() == 0 {
        Seq::empty()
    } else {
        let rest = uncommitted_blobs(files.drop_last(), old.drop_last(), new.drop_last());
        if has_uncommitted_content(old.last(), new.last()) {
            rest.push((files.last().0, old.last()))
        } else {
            rest
        }
    }
}

/// Decides how to rebuild the working log after a reset from `old_tip` back to
/// `new_tip`, given the attributions gathered from the un-done commits and,
/// for each attributed file `collected.files[i]`, what `git show` printed for
/// it at `old_tip` (`old_stdout[i]`) and at `new_tip` (`new_stdout[i]`), empty
/// where it failed. Contents are compared after lossy decoding.
///
/// The content at `old_tip` is the snapshot: it is what the working tree held
/// right after a mixed or soft reset. Only files whose snapshot is non-empty
/// and differs from the target keep their attributions; when there is none
/// (a hard reset), only the old working log is discarded.
pub fn reconstruct_working_log_after_backward_reset(
    collected: CollectedAttributions,
    old_stdout: &Vec<Vec<u8>>,
    new_stdout: &Vec<Vec<u8>>,
) -> (action: ResetAction)
    requires
        old_stdout.len() == collected.files.len(),
        new_stdout.len() == collected.files.len(),
    ensures
        ({
            let files = files_view(collected.files@);
            let old = lossy_views(old_stdout@);
            let new = lossy_views(new_stdout@);
            let blobs = uncommitted_blobs(files, old, new);
            match action {
                ResetAction::Unchanged => files.len() == 0,
                ResetAction::DiscardOldLog => files.len() > 0 && blobs.len() == 0,
                ResetAction::Rewrite { attributions, file_blobs } => {
                    &&& files.len() > 0
                    &&& blobs.len() > 0
                    &&& pairs_view(file_blobs@) == blobs
                    &&& files_view(attributions.files@) == uncommitted_files(files, old, new)
                    &&& attributions.prompts == collected.prompts
                    &&& attributions.sessions == collected.sessions
                    &&& attributions.humans == collected.humans
                },
            }
        }),
{
    if collected.files.len() == 0 {
        return ResetAction::Unchanged;
    }
    let old_decoded = decode_contents(old_stdout);
    let new_decoded = decode_contents(new_stdout);
    let old_contents = &old_decoded;
    let new_contents = &new_decoded;
    let ghost files = files_view(collected.files@);
    let ghost old = strings_view(old_contents@);
    let ghost new = strings_view(new_contents@);
    let mut kept: Vec<(String, Vec<LineAttribution>)> = Vec::new();
    let mut blobs: Vec<(String, String)> = Vec::new();
    let CollectedAttributions { files: all_files, prompts, sessions, humans } = collected;
    let mut rest = all_files;
    let ghost n = rest.len();
    // Walk the files from the last to the first, so each can be moved out.
    let mut rev_kept: Vec<(String, Vec<LineAttribution>)> = Vec::new();
    let mut rev_blobs: Vec<(String, String)> = Vec::new();
    proof {
        assert(files.take(n as int) =~= files);
        assert(old.take(n as int) =~= old);
        assert(new.take(n as int) =~= new);
        assert(files_view(rev_kept@).reverse() =~= Seq::empty());
        assert(pairs_view(rev_blobs@).reverse() =~= Seq::empty());
        assert(files_view(rest@) =~= files);
    }
    while rest.len() > 0
        invariant
            rest.len() <= n,
            n == files.len(),
            old.len() == n,
            new.len() == n,
            old == strings_view(old_contents@),
            new == strings_view(new_contents@),
            files_view(rest@) == files.take(rest.len() as int),
            uncommitted_files(files, old, new) == uncommitted_files(
                files.take(rest.len() as int),
                old.take(rest.len() as int),
                new.take(rest.len() as int),
            ) + files_view(rev_kept@).reverse(),
            uncommitted_blobs(files, old, new) == uncommitted_blobs(
                files.take(rest.len() as int),
                old.take(rest.len() as int),
                new.take(rest.len() as int),
            ) + pairs_view(rev_blobs@).reverse(),
        decreases rest.len(),
    {
        let m = rest.len();
        let ghost before_rest = rest@;
        let entry = rest.pop().unwrap();
        let j = m - 1;
        proof {
            assert(files.take(m as int).drop_last() =~= files.take(j as int));
            assert(old.take(m as int).drop_last() =~= old.take(j as int));
            assert(new.take(m as int).drop_last() =~= new.take(j as int));
            assert(files_view(rest@) =~= files.take(j as int));
            assert(files.take(m as int).last() == files[j as int]);
            assert(files_view(before_rest)[j as int] == (entry.0@, entry.1@));
        }
        if !old_contents[j].as_str().is_empty() && old_contents[j] != new_contents[j] {
            let ghost rk = rev_kept@;
            let ghost rb = rev_blobs@;
            rev_blobs.push((entry.0.clone(), old_contents[j].clone()));
            rev_kept.push(entry);
            proof {
                assert(files_view(rev_kept@).reverse() =~= seq![files[j as int]] + files_view(
                    rk,
                ).reverse());
                assert(pairs_view(rev_blobs@).reverse() =~= seq![(files[j as int].0, old[j as int])]
                    + pairs_view(rb).reverse());
            }
        }
    }
    proof {
        assert(files.take(0) =~= Seq::<(Seq<char>, Seq<LineAttribution>)>::empty());
        assert(old.take(0) =~= Seq::<Seq<char>>::empty());
        assert(new.take(0) =~= Seq::<Seq<char>>::empty());
    }
    // Put the files back in order.
    while rev_kept.len() > 0
        invariant
            uncommitted_files(files, old, new) == files_view(kept@) + files_view(
                rev_kept@,
            ).reverse(),
        decreases rev_kept.len(),
    {
        let ghost rk = rev_kept@;
        let ghost kp = kept@;
        let e = rev_kept.pop().unwrap();
        kept.push(e);
        assert(files_view(rk).reverse() =~= files_view(kept@).take(0) + seq![files_view(rk).last()]
            + files_view(rev_kept@).reverse());
        assert(files_view(kept@) =~= files_view(kp).push(files_view(rk).last()));
        assert(files_view(kp) + files_view(rk).reverse() =~= files_view(kept@) + files_view(
            rev_kept@,
        ).reverse());
    }
    while rev_blobs.len() > 0
        invariant
            uncommitted_blobs(files, old, new) == pairs_view(blobs@) + pairs_view(
                rev_blobs@,
            ).reverse(),
        decreases rev_blobs.len(),
    {
        let ghost rb = rev_blobs@;
        let ghost bp = blobs@;
        let e = rev_blobs.pop().unwrap();
        blobs.push(e);
        assert(pairs_view(blobs@) =~= pairs_view(bp).push(pairs_view(rb).last()));
        assert(pairs_view(bp) + pairs_view(rb).reverse() =~= pairs_view(blobs@)
            + pairs_view(rev_blobs@).reverse());
    }
    assert(files_view(kept@) =~= uncommitted_files(files, old, new));
    assert(pairs_view(blobs@) =~= uncommitted_blobs(files, old, new));
    if blobs.len() == 0 {
        return ResetAction::DiscardOldLog;
    }
    ResetAction::Rewrite {
        attributions: CollectedAttributions { files: kept, prompts, sessions, humans },
        file_blobs: blobs,
    }
}


// ---------------------------------------------------------------------------
// Laws of reset reconstruction.
/// The recorded contents and the kept attributions go together: one blob per
/// kept file, for the same path, and only files whose content at the commit
/// reset from is non-empty and differs from the reset target are kept.
pub proof fn law_reset_blobs_match_files(
    files: Seq<(Seq<char>, Seq<LineAttribution>)>,
    old: Seq<Seq<char>>,
    new: Seq<Seq<char>>,
)
    requires
        old.len() == files.len(),
        new.len() == files.len(),
    ensures
        uncommitted_blobs(files, old, new).len() == uncommitted_files(files, old, new).len(),
        forall|k: int|
            0 <= k < uncommitted_blobs(files, old, new).len() ==> {
                &&& #[trigger] uncommitted_blobs(files, old, new)[k].0 == uncommitted_files(
                    files,
                    old,
                    new,
                )[k].0
                &&& uncommitted_blobs(files, old, new)[k].1.len() > 0
            },
    decreases files.len(),
{
    if files.len() > 0 {
        law_reset_blobs_match_files(files.drop_last(), old.drop_last(), new.drop_last());
        let b0 = uncommitted_blobs(files.drop_last(), old.drop_last(), new.drop_last());
        let f0 = uncommitted_files(files.drop_last(), old.drop_last(), new.drop_last());
        let b = uncommitted_blobs(files, old, new);
        let f = uncommitted_files(files, old, new);
        assert forall|k: int| 0 <= k < b.len() implies {
            &&& #[trigger] b[k].0 == f[k].0
            &&& b[k].1.len() > 0
        } by {
            if k < b0.len() {
                assert(b[k] == b0[k]);
                assert(f[k] == f0[k]);
            }
        }
    }
}

/// Every file a reset keeps is an attributed file, kept with the attributions
/// gathered for it, unchanged, and with its content at the commit reset from
/// as snapshot; that content is not empty and differs from the target's.
/// Given kept entry `j`, this returns the attributed file `i` it is.
pub proof fn law_reset_keeps_gathered_attributions(
    files: Seq<(Seq<char>, Seq<LineAttribution>)>,
    before: Seq<Seq<char>>,
    after: Seq<Seq<char>>,
    j: int,
) -> (i: int)
    requires
        before.len() == files.len(),
        after.len() == files.len(),
        0 <= j < uncommitted_files(files, before, after).len(),
    ensures
        0 <= i < files.len(),
        uncommitted_files(files, before, after)[j] == files[i],
        uncommitted_blobs(files, before, after)[j] == (files[i].0, before[i]),
        before[i].len() > 0,
        before[i] != after[i],
    decreases files.len(),
{
    let n = files.len() - 1;
    let f0 = files.drop_last();
    let o0 = before.drop_last();
    let w0 = after.drop_last();
    law_reset_blobs_match_files(f0, o0, w0);
    let u0 = uncommitted_files(f0, o0, w0);
    if j < u0.len() {
        let i = law_reset_keeps_gathered_attributions(f0, o0, w0, j);
        assert(f0[i] == files[i] && o0[i] == before[i] && w0[i] == after[i]);
        i
    } else {
        n
    }
}

/// A reset keeps every attributed file whose content at the commit reset from
/// is not empty and differs from the target's, with the attributions gathered
/// for it, unchanged, and that content as snapshot. Given such a file `i`,
/// this returns its place `j` among the kept files.
pub proof fn law_reset_keeps_every_changed_file(
    files: Seq<(Seq<char>, Seq<LineAttribution>)>,
    before: Seq<Seq<char>>,
    after: Seq<Seq<char>>,
    i: int,
) -> (j: int)
    requires
        before.len() == files.len(),
        after.len() == files.len(),
        0 <= i < files.len(),
        before[i].len() > 0,
        before[i] != after[i],
    ensures
        0 <= j < uncommitted_files(files, before, after).len(),
        uncommitted_files(files, before, after)[j] == files[i],
        uncommitted_blobs(files, before, after)[j] == (files[i].0, before[i]),
    decreases files.len(),
{
    let n = files.len() - 1;
    let f0 = files.drop_last();
    let o0 = before.drop_last();
    let w0 = after.drop_last();
    law_reset_blobs_match_files(f0, o0, w0);
    let u0 = uncommitted_files(f0, o0, w0);
    if i < n {
        assert(f0[i] == files[i] && o0[i] == before[i] && w0[i] == after[i]);
        law_reset_keeps_every_changed_file(f0, o0, w0, i)
    } else {
        u0.len() as int
    }
}

/// The attributions gathered after a reset list each file once.
pub proof fn law_reset_lists_each_file_once(
    logs: Seq<AuthorshipLog>,
    hunks: Seq<Option<Vec<(String, usize)>>>,
    shifted: Seq<Vec<Option<Vec<LineAttribution>>>>,
    n: int,
)
    ensures
        keys_distinct(reset_files(logs, hunks, shifted, n)),
    decreases n,
{
    if n > 0 {
        law_reset_lists_each_file_once(logs, hunks, shifted, n - 1);
        law_extract_keeps_one_entry_per_file(
            reset_files(logs, hunks, shifted, n - 1),
            logs[n - 1].attestations@,
            hunks[n - 1],
            shifted[n - 1]@,
            logs[n - 1].attestations.len() as int,
        );
    }
}

// ---------------------------------------------------------------------------
// Records gathered from several logs.
/// The records selected by `sel` of all `logs`, one log after another.
pub open spec fn log_records(
    logs: Seq<AuthorshipLog>,
    sel: spec_fn(AuthorshipLog) -> Seq<(String, String)>,
) -> Seq<(Seq<char>, Seq<char>)>
    decreases logs.len(),
{
    if logs.len() == 0 {
        Seq::empty()
    } else {
        log_records(logs.drop_last(), sel) + pairs_view(sel(logs.last()))
    }
}

/// All prompt records of `logs`, in order.
pub open spec fn log_prompts(logs: Seq<AuthorshipLog>) -> Seq<(Seq<char>, Seq<char>)> {
    log_records(logs, |l: AuthorshipLog| l.metadata.prompts@)
}

/// All session records of `logs`, in order.
pub open spec fn log_sessions(logs: Seq<AuthorshipLog>) -> Seq<(Seq<char>, Seq<char>)> {
    log_records(logs, |l: AuthorshipLog| l.metadata.sessions@)
}

/// All human records of `logs`, in order.
pub open spec fn log_humans(logs: Seq<AuthorshipLog>) -> Seq<(Seq<char>, Seq<char>)> {
    log_records(logs, |l: AuthorshipLog| l.metadata.humans@)
}

proof fn lemma_merged_log_records_first_wins(
    acc: Seq<(Seq<char>, Seq<char>)>,
    logs: Seq<AuthorshipLog>,
    sel: spec_fn(AuthorshipLog) -> Seq<(String, String)>,
    key: Seq<char>,
)
    ensures
        key_index(acc, key) >= 0 ==> key_index(merged_log_records(acc, logs, sel), key) == key_index(
            acc,
            key,
        ) && merged_log_records(acc, logs, sel)[key_index(acc, key)] == acc[key_index(acc, key)],
        key_index(acc, key) < 0 ==> (key_index(merged_log_records(acc, logs, sel), key) >= 0
            <==> key_index(log_records(logs, sel), key) >= 0),
        key_index(acc, key) < 0 && key_index(log_records(logs, sel), key) >= 0 ==> merged_log_records(
            acc,
            logs,
            sel,
        )[key_index(merged_log_records(acc, logs, sel), key)].1 == log_records(logs, sel)[key_index(
            log_records(logs, sel),
            key,
        )].1,
    decreases logs.len(),
{
    if logs.len() > 0 {
        let l0 = logs.drop_last();
        lemma_merged_log_records_first_wins(acc, l0, sel, key);
        let m0 = merged_log_records(acc, l0, sel);
        let f0 = log_records(l0, sel);
        let r = pairs_view(sel(logs.last()));
        law_merge_first_record_wins(m0, r, key);
        lemma_key_index_concat(f0, r, key);
        lemma_key_index_bounds(f0, key, 0);
        lemma_key_index_bounds(r, key, 0);
        let f = log_records(logs, sel);
        if key_index(f0, key) >= 0 {
            assert(f[key_index(f0, key)] == f0[key_index(f0, key)]);
        } else if key_index(r, key) >= 0 {
            assert(f[f0.len() + key_index(r, key)] == r[key_index(r, key)]);
        }
    }
}

/// The prompt records gathered from logs: every key of any log's prompt
/// records is held, and only those, each with the value of the first record
/// for it in log order.
pub proof fn law_gathered_prompts_first_record_wins(logs: Seq<AuthorshipLog>, key: Seq<char>)
    ensures
        key_index(merged_prompts(logs), key) >= 0 <==> key_index(log_prompts(logs), key) >= 0,
        key_index(log_prompts(logs), key) >= 0 ==> merged_prompts(logs)[key_index(
            merged_prompts(logs),
            key,
        )].1 == log_prompts(logs)[key_index(log_prompts(logs), key)].1,
{
    lemma_merged_log_records_first_wins(
        Seq::empty(),
        logs,
        |l: AuthorshipLog| l.metadata.prompts@,
        key,
    );
}

/// The session records gathered from logs: every key of any log's session
/// records is held, and only those, each with the value of the first record
/// for it in log order.
pub proof fn law_gathered_sessions_first_record_wins(logs: Seq<AuthorshipLog>, key: Seq<char>)
    ensures
        key_index(merged_sessions(logs), key) >= 0 <==> key_index(log_sessions(logs), key) >= 0,
        key_index(log_sessions(logs), key) >= 0 ==> merged_sessions(logs)[key_index(
            merged_sessions(logs),
            key,
        )].1 == log_sessions(logs)[key_index(log_sessions(logs), key)].1,
{
    lemma_merged_log_records_first_wins(
        Seq::empty(),
        logs,
        |l: AuthorshipLog| l.metadata.sessions@,
        key,
    );
}

/// The human records gathered from logs: every key of any log's human
/// records is held, and only those, each with the value of the first record
/// for it in log order.
pub proof fn law_gathered_humans_first_record_wins(logs: Seq<AuthorshipLog>, key: Seq<char>)
    ensures
        key_index(merged_humans(logs), key) >= 0 <==> key_index(log_humans(logs), key) >= 0,
        key_index(log_humans(logs), key) >= 0 ==> merged_humans(logs)[key_index(
            merged_humans(logs),
            key,
        )].1 == log_humans(logs)[key_index(log_humans(logs), key)].1,
{
    lemma_merged_log_records_first_wins(
        Seq::empty(),
        logs,
        |l: AuthorshipLog| l.metadata.humans@,
        key,
    );
}

// ---------------------------------------------------------------------------
// What a cherry-picked file carries.
/// Whether one of `logs` attests file `path`.
pub open spec fn logs_attest(logs: Seq<AuthorshipLog>, path: Seq<char>) -> bool {
    exists|t: int|
        0 <= t < logs.len() && attests(
            #[trigger] logs[t].attestations@,
            logs[t].attestations.len() as int,
            path,
        )
}

/// The attributions all `logs` state for file `path`, one log after another.
pub open spec fn logs_state_for(logs: Seq<AuthorshipLog>, path: Seq<char>) -> Seq<LineAttribution>
    decreases logs.len(),
{
    if logs.len() == 0 {
        Seq::empty()
    } else {
        logs_state_for(logs.drop_last(), path) + stated_for(
            logs.last().attestations@,
            logs.last().attestations.len() as int,
            path,
        )
    }
}

proof fn lemma_logs_state_nothing(logs: Seq<AuthorshipLog>, path: Seq<char>)
    requires
        !logs_attest(logs, path),
    ensures
        logs_state_for(logs, path) == Seq::<LineAttribution>::empty(),
    decreases logs.len(),
{
    if logs.len() > 0 {
        let l0 = logs.drop_last();
        let n = logs.len() - 1;
        assert(!attests(logs[n].attestations@, logs[n].attestations.len() as int, path));
        assert(!logs_attest(l0, path)) by {
            if logs_attest(l0, path) {
                let t = choose|t: int|
                    0 <= t < l0.len() && attests(
                        #[trigger] l0[t].attestations@,
                        l0[t].attestations.len() as int,
                        path,
                    );
                assert(l0[t] == logs[t]);
            }
        }
        lemma_logs_state_nothing(l0, path);
        lemma_nothing_stated(logs[n].attestations@, logs[n].attestations.len() as int, path);
    }
}

/// The snapshot of a `cherry-pick --no-commit` holds a file exactly when some
/// source log attests it, and then every attribution the source logs state
/// for it, one log after another, in the order stated.
pub proof fn law_cherry_pick_carries_every_attribution(logs: Seq<AuthorshipLog>, path: Seq<char>)
    ensures
        key_index(appended_log_files(logs), path) >= 0 <==> logs_attest(logs, path),
        logs_attest(logs, path) ==> appended_log_files(logs)[key_index(
            appended_log_files(logs),
            path,
        )].1 == logs_state_for(logs, path),
    decreases logs.len(),
{
    if logs.len() == 0 {
        assert(key_index(appended_log_files(logs), path) < 0);
        assert(!logs_attest(logs, path));
    } else {
        let l0 = logs.drop_last();
        let n = logs.len() - 1;
        law_cherry_pick_carries_every_attribution(l0, path);
        let a = appended_log_files(l0);
        let atts = logs[n].attestations@;
        let k = logs[n].attestations.len() as int;
        law_append_adds_each_file(a, atts, k, path);
        lemma_key_index_bounds(a, path, 0);
        assert(logs_attest(logs, path) == (logs_attest(l0, path) || attests(atts, k, path))) by {
            if logs_attest(logs, path) {
                let t = choose|t: int|
                    0 <= t < logs.len() && attests(
                        #[trigger] logs[t].attestations@,
                        logs[t].attestations.len() as int,
                        path,
                    );
                if t < n {
                    assert(l0[t] == logs[t]);
                    assert(logs_attest(l0, path));
                }
            }
            if logs_attest(l0, path) {
                let t = choose|t: int|
                    0 <= t < l0.len() && attests(
                        #[trigger] l0[t].attestations@,
                        l0[t].attestations.len() as int,
                        path,
                    );
                assert(l0[t] == logs[t]);
                assert(logs_attest(logs, path));
            }
            if attests(atts, k, path) {
                assert(logs[n].attestations@ == atts);
                assert(logs_attest(logs, path));
            }
        }
        if !logs_attest(l0, path) {
            lemma_logs_state_nothing(l0, path);
            assert(logs_state_for(logs, path) =~= stated_for(atts, k, path));
        }
    }
}

// ---------------------------------------------------------------------------
// What a file carries after a reset.
/// Whether one of the first `n` logs attests file `path`.
pub open spec fn reset_attests(logs: Seq<AuthorshipLog>, n: int, path: Seq<char>) -> bool {
    exists|t: int|
        0 <= t < n && attests(#[trigger] logs[t].attestations@, logs[t].attestations.len() as int, path)
}

/// Everything the first `n` logs contribute to file `path` (shifted where
/// their diff has hunks for it), oldest log first.
pub open spec fn reset_contributions(
    logs: Seq<AuthorshipLog>,
    hunks: Seq<Option<Vec<(String, usize)>>>,
    shifted: Seq<Vec<Option<Vec<LineAttribution>>>>,
    n: int,
    path: Seq<char>,
) -> Seq<LineAttribution>
    decreases n,
{
    if n <= 0 {
        Seq::empty()
    } else {
        reset_contributions(logs, hunks, shifted, n - 1, path) + contributed_to(
            logs[n - 1].attestations@,
            hunks[n - 1],
            shifted[n - 1]@,
            logs[n - 1].attestations.len() as int,
            path,
        )
    }
}

proof fn lemma_reset_contributes_nothing(
    logs: Seq<AuthorshipLog>,
    hunks: Seq<Option<Vec<(String, usize)>>>,
    shifted: Seq<Vec<Option<Vec<LineAttribution>>>>,
    n: int,
    path: Seq<char>,
)
    requires
        !reset_attests(logs, n, path),
    ensures
        reset_contributions(logs, hunks, shifted, n, path) == Seq::<LineAttribution>::empty(),
    decreases n,
{
    if n > 0 {
        assert(!attests(logs[n - 1].attestations@, logs[n - 1].attestations.len() as int, path));
        assert(!reset_attests(logs, n - 1, path)) by {
            if reset_attests(logs, n - 1, path) {
                let t = choose|t: int|
                    0 <= t < n - 1 && attests(
                        #[trigger] logs[t].attestations@,
                        logs[t].attestations.len() as int,
                        path,
                    );
                assert(reset_attests(logs, n, path));
            }
        }
        lemma_reset_contributes_nothing(logs, hunks, shifted, n - 1, path);
        lemma_nothing_contributed(
            logs[n - 1].attestations@,
            hunks[n - 1],
            shifted[n - 1]@,
            logs[n - 1].attestations.len() as int,
            path,
        );
    }
}

/// After a reset, the gathered attributions hold a file exactly when some
/// un-done commit's log attests it, and then its attributions are what all
/// those logs contribute to it, oldest first, each newer attribution
/// overriding the older ones on its lines.
pub proof fn law_reset_overrides_oldest_first(
    logs: Seq<AuthorshipLog>,
    hunks: Seq<Option<Vec<(String, usize)>>>,
    shifted: Seq<Vec<Option<Vec<LineAttribution>>>>,
    n: int,
    path: Seq<char>,
)
    requires
        0 <= n <= logs.len(),
    ensures
        key_index(reset_files(logs, hunks, shifted, n), path) >= 0 <==> reset_attests(logs, n, path),
        reset_attests(logs, n, path) ==> reset_files(logs, hunks, shifted, n)[key_index(
            reset_files(logs, hunks, shifted, n),
            path,
        )].1 == override_all(Seq::empty(), reset_contributions(logs, hunks, shifted, n, path)),
    decreases n,
{
    if n == 0 {
        assert(key_index(reset_files(logs, hunks, shifted, n), path) < 0);
        assert(!reset_attests(logs, n, path));
    } else {
        law_reset_overrides_oldest_first(logs, hunks, shifted, n - 1, path);
        let a = reset_files(logs, hunks, shifted, n - 1);
        let atts = logs[n - 1].attestations@;
        let k = logs[n - 1].attestations.len() as int;
        law_extract_overrides_each_file(a, atts, hunks[n - 1], shifted[n - 1]@, k, path);
        lemma_key_index_bounds(a, path, 0);
        let c0 = reset_contributions(logs, hunks, shifted, n - 1, path);
        let cl = contributed_to(atts, hunks[n - 1], shifted[n - 1]@, k, path);
        assert(reset_attests(logs, n, path) == (reset_attests(logs, n - 1, path) || attests(
            atts,
            k,
            path,
        ))) by {
            if reset_attests(logs, n, path) {
                let t = choose|t: int|
                    0 <= t < n && attests(
                        #[trigger] logs[t].attestations@,
                        logs[t].attestations.len() as int,
                        path,
                    );
                if t < n - 1 {
                    assert(reset_attests(logs, n - 1, path));
                }
            }
            if reset_attests(logs, n - 1, path) {
                let t = choose|t: int|
                    0 <= t < n - 1 && attests(
                        #[trigger] logs[t].attestations@,
                        logs[t].attestations.len() as int,
                        path,
                    );
                assert(reset_attests(logs, n, path));
            }
            if attests(atts, k, path) {
                assert(reset_attests(logs, n, path));
            }
        }
        if key_index(a, path) >= 0 {
            lemma_override_all_concat(Seq::empty(), c0, cl);
        } else {
            lemma_reset_contributes_nothing(logs, hunks, shifted, n - 1, path);
            assert(c0 + cl =~= cl);
        }
    }
}

// ---------------------------------------------------------------------------
// Which logs and contents a cherry-pick uses.
/// Every usable log is a source log that was read and attests something.
/// Given usable log `u`, this returns the source `i` it comes from.
pub proof fn law_usable_logs_are_read_and_attesting(logs: Seq<Option<AuthorshipLog>>, u: int) -> (i: int)
    requires
        0 <= u < usable_logs(logs).len(),
    ensures
        0 <= i < logs.len(),
        logs[i] == Some(usable_logs(logs)[u]),
        usable_logs(logs)[u].attestations.len() > 0,
    decreases logs.len(),
{
    let l0 = logs.drop_last();
    let r0 = usable_logs(l0);
    if u < r0.len() {
        let i = law_usable_logs_are_read_and_attesting(l0, u);
        assert(l0[i] == logs[i]);
        i
    } else {
        logs.len() - 1
    }
}

/// Every source log that was read and attests something is used. Given such
/// a source `i`, this returns its place among the usable logs.
pub proof fn law_every_attesting_log_is_used(logs: Seq<Option<AuthorshipLog>>, i: int) -> (u: int)
    requires
        0 <= i < logs.len(),
        logs[i] matches Some(l) && l.attestations.len() > 0,
    ensures
        0 <= u < usable_logs(logs).len(),
        logs[i] == Some(usable_logs(logs)[u]),
    decreases logs.len(),
{
    let l0 = logs.drop_last();
    let r0 = usable_logs(l0);
    if i < logs.len() - 1 {
        assert(l0[i] == logs[i]);
        law_every_attesting_log_is_used(l0, i)
    } else {
        r0.len() as int
    }
}

/// Every staged blob recorded is a gathered file with its non-empty staged
/// content. Given blob `w`, this returns the file `i` it is for.
pub proof fn law_staged_blobs_are_nonempty_contents(
    files: Seq<(Seq<char>, Seq<LineAttribution>)>,
    contents: Seq<Seq<char>>,
    w: int,
) -> (i: int)
    requires
        contents.len() == files.len(),
        0 <= w < nonempty_blobs(files, contents).len(),
    ensures
        0 <= i < files.len(),
        nonempty_blobs(files, contents)[w] == (files[i].0, contents[i]),
        contents[i].len() > 0,
    decreases files.len(),
{
    let f0 = files.drop_last();
    let c0 = contents.drop_last();
    let r0 = nonempty_blobs(f0, c0);
    if w < r0.len() {
        let i = law_staged_blobs_are_nonempty_contents(f0, c0, w);
        assert(f0[i] == files[i] && c0[i] == contents[i]);
        i
    } else {
        files.len() - 1
    }
}

/// Every gathered file with non-empty staged content has it recorded. Given
/// such a file `i`, this returns its blob's place.
pub proof fn law_every_nonempty_content_is_recorded(
    files: Seq<(Seq<char>, Seq<LineAttribution>)>,
    contents: Seq<Seq<char>>,
    i: int,
) -> (w: int)
    requires
        contents.len() == files.len(),
        0 <= i < files.len(),
        contents[i].len() > 0,
    ensures
        0 <= w < nonempty_blobs(files, contents).len(),
        nonempty_blobs(files, contents)[w] == (files[i].0, contents[i]),
    decreases files.len(),
{
    let f0 = files.drop_last();
    let c0 = contents.drop_last();
    let r0 = nonempty_blobs(f0, c0);
    if i < files.len() - 1 {
        assert(f0[i] == files[i] && c0[i] == contents[i]);
        law_every_nonempty_content_is_recorded(f0, c0, i)
    } else {
        r0.len() as int
    }
}

} // verus!
