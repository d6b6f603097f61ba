//! Authorship logs (the content of an authorship note) and how the attributions
//! of several logs are gathered into one working-log snapshot.
use vstd::prelude::*;
use crate::attribution::{
    LineAttribution,
    disjoint_attributions,
    law_override_all_keeps_ranges_disjoint,
    override_all,
    override_attributions,
    well_formed_range,
};
use crate::batch::keys_distinct;
use crate::text::pairs_view;

verus! {

/// Lines of a file named in an attestation entry.
pub enum LineRange {
    Single(u32),
    Range(u32, u32),
}

/// The lines of one file attributed to one author (`hash`).
pub struct AttestationEntry {
    pub hash: String,
    pub line_ranges: Vec<LineRange>,
}

/// All attributed lines of one file.
pub struct FileAttestation {
    pub file_path: String,
    pub entries: Vec<AttestationEntry>,
}

/// Keyed records of an authorship log, each kept in its serialized form.
pub struct AuthorshipMetadata {
    pub prompts: Vec<(String, String)>,
    pub sessions: Vec<(String, String)>,
    pub humans: Vec<(String, String)>,
}

/// The authorship log stored in a commit's note.
pub struct AuthorshipLog {
    pub attestations: Vec<FileAttestation>,
    pub metadata: AuthorshipMetadata,
}

/// Attributions gathered per file (in first-seen order of the files) together
/// with the records they refer to.
pub struct CollectedAttributions {
    pub files: Vec<(String, Vec<LineAttribution>)>,
    pub prompts: Vec<(String, String)>,
    pub sessions: Vec<(String, String)>,
    pub humans: Vec<(String, String)>,
}

// ---------------------------------------------------------------------------
// Views and specs.
pub open spec fn files_view(v: Seq<(String, Vec<LineAttribution>)>) -> Seq<
    (Seq<char>, Seq<LineAttribution>),
> {
    v.map_values(|p: (String, Vec<LineAttribution>)| (p.0@, p.1@))
}

/// The attribution a line range of an entry by `author` stands for.
pub open spec fn range_attribution(r: LineRange, author: String) -> LineAttribution {
    match r {
        LineRange::Single(l) => LineAttribution {
            start_line: l,
            end_line: l,
            author_id: author,
            overrode: None,
        },
        LineRange::Range(s, e) => LineAttribution {
            start_line: s,
            end_line: e,
            author_id: author,
            overrode: None,
        },
    }
}

pub open spec fn entry_attributions(e: AttestationEntry) -> Seq<LineAttribution> {
    e.line_ranges@.map_values(|r: LineRange| range_attribution(r, e.hash))
}

/// The attributions of a file attestation, entry after entry, range after range.
pub open spec fn raw_attributions_spec(entries: Seq<AttestationEntry>) -> Seq<LineAttribution>
    decreases entries.len(),
{
    if entries.len() == 0 {
        Seq::empty()
    } else {
        raw_attributions_spec(entries.drop_last()) + entry_attributions(entries.last())
    }
}

/// The first index `i >= from` whose key is `key`, or -1.
pub open spec fn key_index_from<V>(files: Seq<(Seq<char>, V)>, key: Seq<char>, from: int) -> int
    decreases files.len() - from,
{
    if from < 0 || from >= files.len() {
        -1
    } else if files[from].0 == key {
        from
    } else {
        key_index_from(files, key, from + 1)
    }
}

pub open spec fn key_index<V>(files: Seq<(Seq<char>, V)>, key: Seq<char>) -> int {
    key_index_from(files, key, 0)
}

/// Appends `attrs` to the attributions of file `path` (adding the file if new).
pub open spec fn add_appended(
    files: Seq<(Seq<char>, Seq<LineAttribution>)>,
    path: Seq<char>,
    attrs: Seq<LineAttribution>,
) -> Seq<(Seq<char>, Seq<LineAttribution>)> {
    let i = key_index(files, path);
    if i >= 0 {
        files.update(i, (path, files[i].1 + attrs))
    } else {
        files.push((path, attrs))
    }
}

/// Lets `attrs` override the attributions of file `path` (adding the file if new).
pub open spec fn add_overriding(
    files: Seq<(Seq<char>, Seq<LineAttribution>)>,
    path: Seq<char>,
    attrs: Seq<LineAttribution>,
) -> Seq<(Seq<char>, Seq<LineAttribution>)> {
    let i = key_index(files, path);
    if i >= 0 {
        files.update(i, (path, override_all(files[i].1, attrs)))
    } else {
        files.push((path, override_all(Seq::empty(), attrs)))
    }
}

/// Adds the records of `recs` whose key is not yet present; the first record
/// seen for a key wins.
pub open spec fn merge_records(acc: Seq<(Seq<char>, Seq<char>)>, recs: Seq<(Seq<char>, Seq<char>)>) -> Seq<
    (Seq<char>, Seq<char>),
>
    decreases recs.len(),
{
    if recs.len() == 0 {
        acc
    } else {
        let merged = merge_records(acc, recs.drop_last());
        if key_index(merged, recs.last().0) >= 0 {
            merged
        } else {
            merged.push(recs.last())
        }
    }
}

/// `(path, number of diff hunks)` pairs, by their views.
pub open spec fn hunk_counts_view(v: Seq<(String, usize)>) -> Seq<(Seq<char>, usize)> {
    v.map_values(|p: (String, usize)| (p.0@, p.1))
}

/// Whether the attributions of file `path` are to be shifted through a diff:
/// exactly when there is a diff (`hunks_by_file` lists, per file, how many
/// hunks it has) and it has at least one hunk for `path`.
pub open spec fn shifts_file(hunks_by_file: Option<Vec<(String, usize)>>, path: Seq<char>) -> bool {
    match hunks_by_file {
        Some(h) => {
            let i = key_index(hunk_counts_view(h@), path);
            i >= 0 && h@[i].1 > 0
        },
        None => false,
    }
}

/// The attributions a file attestation contributes: when its file is shifted,
/// the shifted attributions given for it; otherwise its own line ranges.
pub open spec fn contributed(
    fa: FileAttestation,
    shift: bool,
    shifted: Option<Vec<LineAttribution>>,
) -> Seq<LineAttribution> {
    if shift && shifted is Some {
        shifted->0@
    } else {
        raw_attributions_spec(fa.entries@)
    }
}

/// Every attestation whose file is shifted has its shifted attributions given.
pub open spec fn shifts_given(
    atts: Seq<FileAttestation>,
    hunks_by_file: Option<Vec<(String, usize)>>,
    shifted: Seq<Option<Vec<LineAttribution>>>,
) -> bool {
    &&& shifted.len() == atts.len()
    &&& forall|k: int|
        0 <= k < atts.len() && shifts_file(hunks_by_file, #[trigger] atts[k].file_path@)
            ==> shifted[k] is Some
}

/// The per-file attributions after the first `k` attestations of a log were
/// merged into `files`, later attributions overriding earlier ones.
pub open spec fn extract_files(
    files: Seq<(Seq<char>, Seq<LineAttribution>)>,
    atts: Seq<FileAttestation>,
    hunks_by_file: Option<Vec<(String, usize)>>,
    shifted: Seq<Option<Vec<LineAttribution>>>,
    k: int,
) -> Seq<(Seq<char>, Seq<LineAttribution>)>
    decreases k,
{
    if k <= 0 {
        files
    } else {
        add_overriding(
            extract_files(files, atts, hunks_by_file, shifted, k - 1),
            atts[k - 1].file_path@,
            contributed(
                atts[k - 1],
                shifts_file(hunks_by_file, atts[k - 1].file_path@),
                shifted[k - 1],
            ),
        )
    }
}

/// The per-file attributions after the first `k` attestations were appended.
pub open spec fn append_files(
    files: Seq<(Seq<char>, Seq<LineAttribution>)>,
    atts: Seq<FileAttestation>,
    k: int,
) -> Seq<(Seq<char>, Seq<LineAttribution>)>
    decreases k,
{
    if k <= 0 {
        files
    } else {
        add_appended(
            append_files(files, atts, k - 1),
            atts[k - 1].file_path@,
            raw_attributions_spec(atts[k - 1].entries@),
        )
    }
}

// ---------------------------------------------------------------------------
// Small executable helpers.
fn copy_records(v: &Vec<(String, String)>) -> (r: Vec<(String, String)>)
    ensures
        r@ == v@,
{
    let mut r: Vec<(String, String)> = Vec::new();
    let mut i: usize = 0;
    while i < v.len()
        invariant
            i <= v.len(),
            r@ == v@.take(i as int),
        decreases v.len() - i,
    {
        r.push((v[i].0.clone(), v[i].1.clone()));
        i = i + 1;
        assert(r@ =~= v@.take(i as int));
    }
    assert(v@.take(v.len() as int) =~= v@);
    r
}

fn copy_attributions(v: &Vec<LineAttribution>) -> (r: Vec<LineAttribution>)
    ensures
        r@ == v@,
{
    let mut r: Vec<LineAttribution> = Vec::new();
    let mut i: usize = 0;
    while i < v.len()
        invariant
            i <= v.len(),
            r@ == v@.take(i as int),
        decreases v.len() - i,
    {
        r.push(v[i].duplicate());
        i = i + 1;
        assert(r@ =~= v@.take(i as int));
    }
    assert(v@.take(v.len() as int) =~= v@);
    r
}

/// Index of the first file named `path`.
fn find_file(files: &Vec<(String, Vec<LineAttribution>)>, path: &String) -> (r: Option<usize>)
    ensures
        key_index(files_view(files@), path@) >= 0 ==> r == Some(
            key_index(files_view(files@), path@) as usize,
        ),
        key_index(files_view(files@), path@) < 0 ==> r is None,
{
    let ghost fv = files_view(files@);
    let mut i: usize = 0;
    while i < files.len()
        invariant
            i <= files.len(),
            fv == files_view(files@),
            key_index(fv, path@) == key_index_from(fv, path@, i as int),
        decreases files.len() - i,
    {
        if files[i].0 == *path {
            return Some(i);
        }
        i = i + 1;
    }
    None
}

/// Index of the first record keyed `key`.
fn find_record(recs: &Vec<(String, String)>, key: &String) -> (r: Option<usize>)
    ensures
        key_index(pairs_view(recs@), key@) >= 0 ==> r == Some(
            key_index(pairs_view(recs@), key@) as usize,
        ),
        key_index(pairs_view(recs@), key@) < 0 ==> r is None,
{
    let ghost rv = pairs_view(recs@);
    let mut i: usize = 0;
    while i < recs.len()
        invariant
            i <= recs.len(),
            rv == pairs_view(recs@),
            key_index(rv, key@) == key_index_from(rv, key@, i as int),
        decreases recs.len() - i,
    {
        if recs[i].0 == *key {
            return Some(i);
        }
        i = i + 1;
    }
    None
}

/// Where `key_index_from` points: at an entry from `from` on with the key.
pub proof fn lemma_key_index_bounds<V>(files: Seq<(Seq<char>, V)>, key: Seq<char>, from: int)
    ensures
        key_index_from(files, key, from) >= 0 ==> {
            &&& from <= key_index_from(files, key, from) < files.len()
            &&& files[key_index_from(files, key, from)].0 == key
        },
    decreases files.len() - from,
{
    if 0 <= from < files.len() && files[from].0 != key {
        lemma_key_index_bounds(files, key, from + 1);
    }
}

/// When `key_index_from` finds nothing, no entry from `from` on has the key.
pub proof fn lemma_key_index_absent<V>(files: Seq<(Seq<char>, V)>, key: Seq<char>, from: int)
    requires
        from >= 0,
        key_index_from(files, key, from) < 0,
    ensures
        forall|i: int| from <= i < files.len() ==> #[trigger] files[i].0 != key,
    decreases files.len() - from,
{
    if from < files.len() {
        lemma_key_index_absent(files, key, from + 1);
    }
}

/// Adds to `acc` the records of `recs` whose key it does not hold yet.
pub fn merge_records_into(acc: &mut Vec<(String, String)>, recs: &Vec<(String, String)>)
    ensures
        pairs_view(final(acc)@) == merge_records(pairs_view(old(acc)@), pairs_view(recs@)),
{
    let ghost start = pairs_view(acc@);
    let mut k: usize = 0;
    while k < recs.len()
        invariant
            k <= recs.len(),
            pairs_view(acc@) == merge_records(start, pairs_view(recs@.take(k as int))),
        decreases recs.len() - k,
    {
        assert(pairs_view(recs@.take(k + 1)).drop_last() =~= pairs_view(recs@.take(k as int)));
        let found = find_record(acc, &recs[k].0);
        if found.is_none() {
            let ghost before = acc@;
            acc.push((recs[k].0.clone(), recs[k].1.clone()));
            assert(pairs_view(acc@) =~= pairs_view(before).push(pairs_view(recs@)[k as int]));
        }
        k = k + 1;
    }
    assert(recs@.take(recs.len() as int) =~= recs@);
}

/// Whether file `path` is shifted through the diff `hunks_by_file` (per file,
/// its number of hunks): there is a diff and it has hunks for `path`.
pub fn file_needs_shift(hunks_by_file: &Option<Vec<(String, usize)>>, path: &String) -> (r: bool)
    ensures
        r == shifts_file(*hunks_by_file, path@),
{
    match hunks_by_file {
        None => false,
        Some(h) => {
            let ghost hv = hunk_counts_view(h@);
            proof {
                lemma_key_index_bounds(hv, path@, 0);
            }
            let mut i: usize = 0;
            while i < h.len()
                invariant
                    i <= h.len(),
                    *hunks_by_file == Some(*h),
                    hv == hunk_counts_view(h@),
                    key_index(hv, path@) == key_index_from(hv, path@, i as int),
                decreases h.len() - i,
            {
                if h[i].0 == *path {
                    assert(hv[i as int] == (h@[i as int].0@, h@[i as int].1));
                    assert(hv[i as int].0 == path@);
                    assert(key_index_from(hv, path@, i as int) == i as int);
                    return h[i].1 > 0;
                }
                i = i + 1;
            }
            false
        },
    }
}

/// For each attestation of `log`, in order, whether its attributions are to be
/// shifted through the diff `hunks_by_file`.
pub fn shift_plan(log: &AuthorshipLog, hunks_by_file: &Option<Vec<(String, usize)>>) -> (plan: Vec<
    bool,
>)
    ensures
        plan.len() == log.attestations.len(),
        forall|k: int|
            0 <= k < plan.len() ==> plan@[k] == shifts_file(
                *hunks_by_file,
                #[trigger] log.attestations@[k].file_path@,
            ),
{
    let mut plan: Vec<bool> = Vec::new();
    let mut k: usize = 0;
    while k < log.attestations.len()
        invariant
            k <= log.attestations.len(),
            plan.len() == k,
            forall|j: int|
                0 <= j < k ==> plan@[j] == shifts_file(
                    *hunks_by_file,
                    #[trigger] log.attestations@[j].file_path@,
                ),
        decreases log.attestations.len() - k,
    {
        let b = file_needs_shift(hunks_by_file, &log.attestations[k].file_path);
        plan.push(b);
        k = k + 1;
    }
    plan
}

/// The attributions a file attestation states, entry after entry.
pub fn raw_attributions(fa: &FileAttestation) -> (r: Vec<LineAttribution>)
    ensures
        r@ == raw_attributions_spec(fa.entries@),
{
    let mut r: Vec<LineAttribution> = Vec::new();
    let mut e: usize = 0;
    while e < fa.entries.len()
        invariant
            e <= fa.entries.len(),
            r@ == raw_attributions_spec(fa.entries@.take(e as int)),
        decreases fa.entries.len() - e,
    {
        let entry = &fa.entries[e];
        assert(fa.entries@.take(e + 1).drop_last() =~= fa.entries@.take(e as int));
        let ghost base = r@;
        let mut k: usize = 0;
        while k < entry.line_ranges.len()
            invariant
                k <= entry.line_ranges.len(),
                entry == fa.entries@[e as int],
                r@ == base + entry_attributions(*entry).take(k as int),
            decreases entry.line_ranges.len() - k,
        {
            let (start, end) = match &entry.line_ranges[k] {
                LineRange::Single(l) => (*l, *l),
                LineRange::Range(s, t) => (*s, *t),
            };
            r.push(LineAttribution::new(start, end, entry.hash.clone(), None));
            k = k + 1;
            assert(r@ =~= base + entry_attributions(*entry).take(k as int));
        }
        assert(entry_attributions(*entry).take(k as int) =~= entry_attributions(*entry));
        e = e + 1;
    }
    assert(fa.entries@.take(fa.entries.len() as int) =~= fa.entries@);
    r
}

/// Appends `attrs` to the attributions of file `path`.
pub(crate) fn append_to_file(
    files: &mut Vec<(String, Vec<LineAttribution>)>,
    path: &String,
    attrs: Vec<LineAttribution>,
)
    ensures
        files_view(final(files)@) == add_appended(files_view(old(files)@), path@, attrs@),
{
    proof {
        lemma_key_index_bounds(files_view(files@), path@, 0);
    }
    match find_file(files, path) {
        Some(i) => {
            let ghost before = files@;
            let mut current = copy_attributions(&files[i].1);
            let mut more = attrs;
            current.append(&mut more);
            files.set(i, (path.clone(), current));
            assert(files_view(files@) =~= add_appended(files_view(before), path@, attrs@));
        },
        None => {
            let ghost before = files@;
            files.push((path.clone(), attrs));
            assert(files_view(files@) =~= add_appended(files_view(before), path@, attrs@));
        },
    }
}

/// Lets `attrs` override the attributions of file `path`.
fn override_in_file(
    files: &mut Vec<(String, Vec<LineAttribution>)>,
    path: &String,
    attrs: Vec<LineAttribution>,
)
    ensures
        files_view(final(files)@) == add_overriding(files_view(old(files)@), path@, attrs@),
{
    proof {
        lemma_key_index_bounds(files_view(files@), path@, 0);
    }
    match find_file(files, path) {
        Some(i) => {
            let ghost before = files@;
            let mut current = copy_attributions(&files[i].1);
            override_attributions(&mut current, attrs);
            files.set(i, (path.clone(), current));
            assert(files_view(files@) =~= add_overriding(files_view(before), path@, attrs@));
        },
        None => {
            let ghost before = files@;
            let mut current: Vec<LineAttribution> = Vec::new();
            override_attributions(&mut current, attrs);
            files.push((path.clone(), current));
            assert(files_view(files@) =~= add_overriding(files_view(before), path@, attrs@));
        },
    }
}

/// Merges one authorship log into the accumulated attributions and records.
///
/// `hunks_by_file` is the diff from the log's commit to the target commit, as
/// the number of hunks per file, or `None` when the log's commit is the
/// target. The attestations of a file with at least one hunk contribute
/// `shifted[k]`, their attributions already moved into the target's lines;
/// all others contribute their own line ranges. Within each file, every newer
/// attribution overrides the older ones on the lines it covers. Records
/// already present are kept; new keys are added.
pub fn extract_attributions_from_log_shifted(
    log: &AuthorshipLog,
    hunks_by_file: &Option<Vec<(String, usize)>>,
    shifted: &Vec<Option<Vec<LineAttribution>>>,
    file_attributions: &mut Vec<(String, Vec<LineAttribution>)>,
    prompts: &mut Vec<(String, String)>,
    sessions: &mut Vec<(String, String)>,
    humans: &mut Vec<(String, String)>,
)
    requires
        shifts_given(log.attestations@, *hunks_by_file, shifted@),
    ensures
        files_view(final(file_attributions)@) == extract_files(
            files_view(old(file_attributions)@),
            log.attestations@,
            *hunks_by_file,
            shifted@,
            log.attestations.len() as int,
        ),
        pairs_view(final(prompts)@) == merge_records(
            pairs_view(old(prompts)@),
            pairs_view(log.metadata.prompts@),
        ),
        pairs_view(final(sessions)@) == merge_records(
            pairs_view(old(sessions)@),
            pairs_view(log.metadata.sessions@),
        ),
        pairs_view(final(humans)@) == merge_records(
            pairs_view(old(humans)@),
            pairs_view(log.metadata.humans@),
        ),
{
    let ghost start = files_view(file_attributions@);
    let mut k: usize = 0;
    while k < log.attestations.len()
        invariant
            k <= log.attestations.len(),
            shifted.len() == log.attestations.len(),
            files_view(file_attributions@) == extract_files(
                start,
                log.attestations@,
                *hunks_by_file,
                shifted@,
                k as int,
            ),
        decreases log.attestations.len() - k,
    {
        let fa = &log.attestations[k];
        let shift = file_needs_shift(hunks_by_file, &fa.file_path);
        let incoming = if shift {
            match &shifted[k] {
                Some(s) => copy_attributions(s),
                None => raw_attributions(fa),
            }
        } else {
            raw_attributions(fa)
        };
        override_in_file(file_attributions, &fa.file_path, incoming);
        k = k + 1;
    }
    merge_records_into(prompts, &log.metadata.prompts);
    merge_records_into(sessions, &log.metadata.sessions);
    merge_records_into(humans, &log.metadata.humans);
}


// ---------------------------------------------------------------------------
// Laws of merging records.
/// Merging never changes or drops a record already held: the first record
/// seen for a key wins.
pub proof fn law_merge_keeps_existing_records(
    acc: Seq<(Seq<char>, Seq<char>)>,
    recs: Seq<(Seq<char>, Seq<char>)>,
)
    ensures
        merge_records(acc, recs).len() >= acc.len(),
        merge_records(acc, recs).take(acc.len() as int) == acc,
    decreases recs.len(),
{
    if recs.len() > 0 {
        law_merge_keeps_existing_records(acc, recs.drop_last());
        let m = merge_records(acc, recs.drop_last());
        assert(m.push(recs.last()).take(acc.len() as int) =~= m.take(acc.len() as int));
    }
}

/// After merging, every key of the merged records is held.
pub proof fn law_merge_holds_every_key(
    acc: Seq<(Seq<char>, Seq<char>)>,
    recs: Seq<(Seq<char>, Seq<char>)>,
    k: int,
)
    requires
        0 <= k < recs.len(),
    ensures
        key_index(merge_records(acc, recs), recs[k].0) >= 0,
    decreases recs.len(),
{
    let m = merge_records(acc, recs.drop_last());
    if k < recs.len() - 1 {
        law_merge_holds_every_key(acc, recs.drop_last(), k);
        assert(recs.drop_last()[k] == recs[k]);
        lemma_key_index_bounds(m, recs[k].0, 0);
        if key_index(m, recs.last().0) < 0 {
            lemma_key_index_prefix(m, recs.last(), recs[k].0, 0);
        }
    } else {
        if key_index(m, recs.last().0) < 0 {
            lemma_key_index_push_absent(m, recs.last(), 0);
        }
    }
}

proof fn lemma_key_index_prefix<V>(v: Seq<(Seq<char>, V)>, x: (Seq<char>, V), key: Seq<char>, from: int)
    requires
        0 <= from,
        key_index_from(v, key, from) >= 0,
    ensures
        key_index_from(v.push(x), key, from) == key_index_from(v, key, from),
    decreases v.len() - from,
{
    if from < v.len() && v[from].0 != key {
        lemma_key_index_prefix(v, x, key, from + 1);
    }
}

proof fn lemma_key_index_push_absent<V>(v: Seq<(Seq<char>, V)>, x: (Seq<char>, V), from: int)
    requires
        0 <= from <= v.len(),
        key_index_from(v, x.0, from) < 0,
    ensures
        key_index_from(v.push(x), x.0, from) >= 0,
    decreases v.len() - from,
{
    if from < v.len() {
        lemma_key_index_push_absent(v, x, from + 1);
    }
}

// ---------------------------------------------------------------------------
// Laws of extraction.
/// No file's attributions attribute a line twice.
pub open spec fn files_disjoint(files: Seq<(Seq<char>, Seq<LineAttribution>)>) -> bool {
    forall|i: int| 0 <= i < files.len() ==> disjoint_attributions(#[trigger] files[i].1)
}

/// The attributions attestation `j` contributes are all non-empty ranges.
pub open spec fn contributes_well_formed(
    atts: Seq<FileAttestation>,
    hunks_by_file: Option<Vec<(String, usize)>>,
    shifted: Seq<Option<Vec<LineAttribution>>>,
    j: int,
) -> bool {
    let c = contributed(atts[j], shifts_file(hunks_by_file, atts[j].file_path@), shifted[j]);
    forall|a: int| 0 <= a < c.len() ==> well_formed_range(#[trigger] c[a])
}

/// Extracting a log keeps every file's attributions apart (no line attributed
/// twice), provided each contributed range is non-empty.
pub proof fn law_extract_keeps_files_disjoint(
    files: Seq<(Seq<char>, Seq<LineAttribution>)>,
    atts: Seq<FileAttestation>,
    hunks_by_file: Option<Vec<(String, usize)>>,
    shifted: Seq<Option<Vec<LineAttribution>>>,
    k: int,
)
    requires
        files_disjoint(files),
        0 <= k <= atts.len(),
        forall|j: int| 0 <= j < k ==> #[trigger] contributes_well_formed(atts, hunks_by_file, shifted, j),
    ensures
        files_disjoint(extract_files(files, atts, hunks_by_file, shifted, k)),
    decreases k,
{
    if k > 0 {
        law_extract_keeps_files_disjoint(files, atts, hunks_by_file, shifted, k - 1);
        assert(contributes_well_formed(atts, hunks_by_file, shifted, k - 1));
        let prev = extract_files(files, atts, hunks_by_file, shifted, k - 1);
        let path = atts[k - 1].file_path@;
        let c = contributed(atts[k - 1], shifts_file(hunks_by_file, path), shifted[k - 1]);
        let r = extract_files(files, atts, hunks_by_file, shifted, k);
        assert(r == add_overriding(prev, path, c));
        let i = key_index(prev, path);
        lemma_key_index_bounds(prev, path, 0);
        if i >= 0 {
            law_override_all_keeps_ranges_disjoint(prev[i].1, c);
            assert forall|j: int| 0 <= j < r.len() implies disjoint_attributions(#[trigger] r[j].1) by {
                if j != i {
                    assert(r[j] == prev[j]);
                }
            }
        } else {
            law_override_all_keeps_ranges_disjoint(Seq::empty(), c);
            assert forall|j: int| 0 <= j < r.len() implies disjoint_attributions(#[trigger] r[j].1) by {
                if j < prev.len() {
                    assert(r[j] == prev[j]);
                }
            }
        }
    }
}

// ---------------------------------------------------------------------------
// One entry per file, one record per key.
proof fn lemma_update_keeps_keys_distinct<V>(files: Seq<(Seq<char>, V)>, i: int, v: V)
    requires
        keys_distinct(files),
        0 <= i < files.len(),
    ensures
        keys_distinct(files.update(i, (files[i].0, v))),
{
    let r = files.update(i, (files[i].0, v));
    assert forall|a: int, b: int| 0 <= a < b < r.len() implies #[trigger] r[a].0 != #[trigger] r[b].0 by {
        assert(r[a].0 == files[a].0 && r[b].0 == files[b].0);
    }
}

proof fn lemma_push_keeps_keys_distinct<V>(files: Seq<(Seq<char>, V)>, key: Seq<char>, v: V)
    requires
        keys_distinct(files),
        key_index(files, key) < 0,
    ensures
        keys_distinct(files.push((key, v))),
{
    lemma_key_index_absent(files, key, 0);
    let r = files.push((key, v));
    assert forall|a: int, b: int| 0 <= a < b < r.len() implies #[trigger] r[a].0 != #[trigger] r[b].0 by {
        if b < files.len() {
            assert(r[a] == files[a] && r[b] == files[b]);
        } else {
            assert(r[a] == files[a]);
        }
    }
}

proof fn lemma_add_keeps_keys_distinct(
    files: Seq<(Seq<char>, Seq<LineAttribution>)>,
    path: Seq<char>,
    attrs: Seq<LineAttribution>,
)
    requires
        keys_distinct(files),
    ensures
        keys_distinct(add_overriding(files, path, attrs)),
        keys_distinct(add_appended(files, path, attrs)),
{
    let i = key_index(files, path);
    lemma_key_index_bounds(files, path, 0);
    if i >= 0 {
        lemma_update_keeps_keys_distinct(files, i, override_all(files[i].1, attrs));
        lemma_update_keeps_keys_distinct(files, i, files[i].1 + attrs);
    } else {
        lemma_push_keeps_keys_distinct(files, path, override_all(Seq::empty(), attrs));
        lemma_push_keeps_keys_distinct(files, path, attrs);
    }
}

/// Extracting a log keeps one entry per file: files listed once stay listed
/// once.
pub proof fn law_extract_keeps_one_entry_per_file(
    files: Seq<(Seq<char>, Seq<LineAttribution>)>,
    atts: Seq<FileAttestation>,
    hunks_by_file: Option<Vec<(String, usize)>>,
    shifted: Seq<Option<Vec<LineAttribution>>>,
    k: int,
)
    requires
        keys_distinct(files),
    ensures
        keys_distinct(extract_files(files, atts, hunks_by_file, shifted, k)),
    decreases k,
{
    if k > 0 {
        law_extract_keeps_one_entry_per_file(files, atts, hunks_by_file, shifted, k - 1);
        lemma_add_keeps_keys_distinct(
            extract_files(files, atts, hunks_by_file, shifted, k - 1),
            atts[k - 1].file_path@,
            contributed(
                atts[k - 1],
                shifts_file(hunks_by_file, atts[k - 1].file_path@),
                shifted[k - 1],
            ),
        );
    }
}

/// Appending a log's attributions keeps one entry per file.
pub proof fn law_append_keeps_one_entry_per_file(
    files: Seq<(Seq<char>, Seq<LineAttribution>)>,
    atts: Seq<FileAttestation>,
    k: int,
)
    requires
        keys_distinct(files),
    ensures
        keys_distinct(append_files(files, atts, k)),
    decreases k,
{
    if k > 0 {
        law_append_keeps_one_entry_per_file(files, atts, k - 1);
        lemma_add_keeps_keys_distinct(
            append_files(files, atts, k - 1),
            atts[k - 1].file_path@,
            raw_attributions_spec(atts[k - 1].entries@),
        );
    }
}

/// Merging records keeps one record per key.
pub proof fn law_merge_keeps_one_record_per_key(
    acc: Seq<(Seq<char>, Seq<char>)>,
    recs: Seq<(Seq<char>, Seq<char>)>,
)
    requires
        keys_distinct(acc),
    ensures
        keys_distinct(merge_records(acc, recs)),
    decreases recs.len(),
{
    if recs.len() > 0 {
        law_merge_keeps_one_record_per_key(acc, recs.drop_last());
        let m = merge_records(acc, recs.drop_last());
        if key_index(m, recs.last().0) < 0 {
            lemma_push_keeps_keys_distinct(m, recs.last().0, recs.last().1);
        }
    }
}

/// The attributions that attestations `0..k` of a log contribute to file
/// `path`, in order.
pub open spec fn contributed_to(
    atts: Seq<FileAttestation>,
    hunks_by_file: Option<Vec<(String, usize)>>,
    shifted: Seq<Option<Vec<LineAttribution>>>,
    k: int,
    path: Seq<char>,
) -> Seq<LineAttribution>
    decreases k,
{
    if k <= 0 {
        Seq::empty()
    } else {
        let rest = contributed_to(atts, hunks_by_file, shifted, k - 1, path);
        if atts[k - 1].file_path@ == path {
            rest + contributed(
                atts[k - 1],
                shifts_file(hunks_by_file, atts[k - 1].file_path@),
                shifted[k - 1],
            )
        } else {
            rest
        }
    }
}

proof fn lemma_override_all_last(existing: Seq<LineAttribution>, incoming: Seq<LineAttribution>)
    requires
        incoming.len() > 0,
    ensures
        override_all(existing, incoming).last() == incoming.last(),
{
    crate::attribution::law_override_claims_its_lines(
        override_all(existing, incoming.drop_last()),
        incoming.last(),
    );
}

/// For every file a log attests, the newest attribution the log contributes to
/// it is, unchanged, the last attribution of that file afterwards.
pub proof fn law_extract_newest_attribution_ends_each_file(
    files: Seq<(Seq<char>, Seq<LineAttribution>)>,
    atts: Seq<FileAttestation>,
    hunks_by_file: Option<Vec<(String, usize)>>,
    shifted: Seq<Option<Vec<LineAttribution>>>,
    k: int,
    path: Seq<char>,
)
    requires
        0 <= k <= atts.len(),
        contributed_to(atts, hunks_by_file, shifted, k, path).len() > 0,
    ensures
        exists|i: int|
            0 <= i < extract_files(files, atts, hunks_by_file, shifted, k).len() && {
                let e = #[trigger] extract_files(files, atts, hunks_by_file, shifted, k)[i];
                &&& e.0 == path
                &&& e.1.len() > 0
                &&& e.1.last() == contributed_to(atts, hunks_by_file, shifted, k, path).last()
            },
    decreases k,
{
    let prev = extract_files(files, atts, hunks_by_file, shifted, k - 1);
    let q = atts[k - 1].file_path@;
    let c = contributed(atts[k - 1], shifts_file(hunks_by_file, q), shifted[k - 1]);
    let r = extract_files(files, atts, hunks_by_file, shifted, k);
    let d = contributed_to(atts, hunks_by_file, shifted, k, path);
    let d0 = contributed_to(atts, hunks_by_file, shifted, k - 1, path);
    assert(r == add_overriding(prev, q, c));
    let i0 = key_index(prev, q);
    lemma_key_index_bounds(prev, q, 0);
    if q == path && c.len() > 0 {
        assert(d == d0 + c);
        assert(d.last() == c.last());
        if i0 >= 0 {
            lemma_override_all_last(prev[i0].1, c);
            assert(r[i0].0 == path && r[i0].1.last() == d.last());
        } else {
            lemma_override_all_last(Seq::empty(), c);
            assert(r[prev.len() as int].0 == path && r[prev.len() as int].1.last() == d.last());
        }
    } else {
        if q == path {
            assert(d =~= d0);
        } else {
            assert(d == d0);
        }
        law_extract_newest_attribution_ends_each_file(files, atts, hunks_by_file, shifted, k - 1, path);
        let i = choose|i: int|
            0 <= i < prev.len() && {
                let e = #[trigger] prev[i];
                &&& e.0 == path
                &&& e.1.len() > 0
                &&& e.1.last() == d0.last()
            };
        if i0 >= 0 && i0 == i {
            assert(override_all(prev[i].1, c) == prev[i].1);
            assert(r[i] == prev[i]);
        } else {
            assert(r[i] == prev[i]);
        }
    }
}

// ---------------------------------------------------------------------------
// First record wins.
proof fn lemma_key_index_concat_right<V>(a: Seq<(Seq<char>, V)>, b: Seq<(Seq<char>, V)>, key: Seq<char>, j: int)
    requires
        0 <= j <= b.len(),
    ensures
        key_index_from(a + b, key, a.len() + j) == (if key_index_from(b, key, j) >= 0 {
            a.len() + key_index_from(b, key, j)
        } else {
            -1
        }),
    decreases b.len() - j,
{
    if j < b.len() {
        assert((a + b)[a.len() + j] == b[j]);
        if b[j].0 != key {
            lemma_key_index_concat_right(a, b, key, j + 1);
        }
    }
}

proof fn lemma_key_index_concat_left<V>(a: Seq<(Seq<char>, V)>, b: Seq<(Seq<char>, V)>, key: Seq<char>, i: int)
    requires
        0 <= i <= a.len(),
    ensures
        key_index_from(a + b, key, i) == (if key_index_from(a, key, i) >= 0 {
            key_index_from(a, key, i)
        } else if key_index_from(b, key, 0) >= 0 {
            a.len() + key_index_from(b, key, 0)
        } else {
            -1
        }),
    decreases a.len() - i,
{
    if i < a.len() {
        assert((a + b)[i] == a[i]);
        if a[i].0 != key {
            lemma_key_index_concat_left(a, b, key, i + 1);
        }
    } else {
        lemma_key_index_concat_right(a, b, key, 0);
    }
}

/// The first entry with a key in `a + b` is its first entry in `a`, or else its
/// first entry in `b`.
pub proof fn lemma_key_index_concat<V>(a: Seq<(Seq<char>, V)>, b: Seq<(Seq<char>, V)>, key: Seq<char>)
    ensures
        key_index(a + b, key) == (if key_index(a, key) >= 0 {
            key_index(a, key)
        } else if key_index(b, key) >= 0 {
            a.len() + key_index(b, key)
        } else {
            -1
        }),
{
    lemma_key_index_concat_left(a, b, key, 0);
}

/// Merging records into `acc`, the first record seen for a key wins: a key
/// of `acc` keeps its entry where it is; another key is held exactly when some
/// record has it, with the value of the first such record.
pub proof fn law_merge_first_record_wins(
    acc: Seq<(Seq<char>, Seq<char>)>,
    recs: Seq<(Seq<char>, Seq<char>)>,
    key: Seq<char>,
)
    ensures
        key_index(acc, key) >= 0 ==> key_index(merge_records(acc, recs), key) == key_index(acc, key)
            && merge_records(acc, recs)[key_index(acc, key)] == acc[key_index(acc, key)],
        key_index(acc, key) < 0 ==> (key_index(merge_records(acc, recs), key) >= 0 <==> key_index(
            recs,
            key,
        ) >= 0),
        key_index(acc, key) < 0 && key_index(recs, key) >= 0 ==> merge_records(acc, recs)[key_index(
            merge_records(acc, recs),
            key,
        )].1 == recs[key_index(recs, key)].1,
    decreases recs.len(),
{
    lemma_key_index_bounds(acc, key, 0);
    if recs.len() > 0 {
        let r0 = recs.drop_last();
        let x = recs.last();
        law_merge_first_record_wins(acc, r0, key);
        let m0 = merge_records(acc, r0);
        let m = merge_records(acc, recs);
        assert(r0 + seq![x] =~= recs);
        lemma_key_index_concat(r0, seq![x], key);
        lemma_key_index_bounds(m0, key, 0);
        lemma_key_index_bounds(r0, key, 0);
        lemma_key_index_bounds(recs, key, 0);
        assert(recs[r0.len() as int] == x);
        if key_index(r0, key) >= 0 {
            assert(key_index(recs, key) == key_index(r0, key));
            assert(recs[key_index(r0, key)] == r0[key_index(r0, key)]);
        } else if x.0 == key {
            assert(key_index(recs, key) == r0.len());
        } else {
            assert(key_index(recs, key) < 0);
        }
        if key_index(m0, x.0) >= 0 {
            assert(m == m0);
            if key_index(acc, key) < 0 && key_index(r0, key) < 0 && x.0 == key {
                // Then the key was already held, which only records in `r0`
                // could have brought.
                assert(false);
            }
        } else {
            assert(m == m0.push(x));
            assert(m0 + seq![x] =~= m);
            lemma_key_index_concat(m0, seq![x], key);
            assert(m[m0.len() as int] == x);
            if key_index(m0, key) >= 0 {
                assert(key_index(m, key) == key_index(m0, key));
                assert(m[key_index(m0, key)] == m0[key_index(m0, key)]);
            } else if x.0 == key {
                assert(key_index(m, key) == m0.len());
            } else {
                assert(key_index(m, key) < 0);
            }
        }
    }
}

// ---------------------------------------------------------------------------
// What each file ends up with.
proof fn lemma_key_index_update_same_key<V>(v: Seq<(Seq<char>, V)>, i: int, x: V, key: Seq<char>, from: int)
    requires
        0 <= i < v.len(),
        0 <= from,
    ensures
        key_index_from(v.update(i, (v[i].0, x)), key, from) == key_index_from(v, key, from),
    decreases v.len() - from,
{
    if from < v.len() {
        assert(v.update(i, (v[i].0, x))[from].0 == v[from].0);
        if v[from].0 != key {
            lemma_key_index_update_same_key(v, i, x, key, from + 1);
        }
    }
}

/// Whether one of the first `k` attestations is for file `path`.
pub open spec fn attests(atts: Seq<FileAttestation>, k: int, path: Seq<char>) -> bool {
    exists|j: int| 0 <= j < k && #[trigger] atts[j].file_path@ == path
}

pub proof fn lemma_override_all_concat(e: Seq<LineAttribution>, a: Seq<LineAttribution>, b: Seq<LineAttribution>)
    ensures
        override_all(e, a + b) == override_all(override_all(e, a), b),
    decreases b.len(),
{
    if b.len() == 0 {
        assert(a + b =~= a);
    } else {
        lemma_override_all_concat(e, a, b.drop_last());
        assert((a + b).drop_last() =~= a + b.drop_last());
        assert((a + b).last() == b.last());
    }
}

/// After extracting a log, each file's attributions are its earlier ones (none
/// for a new file) overridden, in order, by everything the log contributes to
/// that file; files keep their place, a new file is added exactly when the log
/// attests it, and other files are untouched.
pub proof fn law_extract_overrides_each_file(
    files: Seq<(Seq<char>, Seq<LineAttribution>)>,
    atts: Seq<FileAttestation>,
    hunks_by_file: Option<Vec<(String, usize)>>,
    shifted: Seq<Option<Vec<LineAttribution>>>,
    k: int,
    path: Seq<char>,
)
    requires
        0 <= k <= atts.len(),
    ensures
        ({
            let r = extract_files(files, atts, hunks_by_file, shifted, k);
            let c = contributed_to(atts, hunks_by_file, shifted, k, path);
            &&& key_index(files, path) >= 0 ==> key_index(r, path) == key_index(files, path)
                && r[key_index(r, path)].1 == override_all(files[key_index(files, path)].1, c)
            &&& key_index(files, path) < 0 ==> (key_index(r, path) >= 0 <==> attests(atts, k, path))
            &&& key_index(files, path) < 0 && attests(atts, k, path) ==> r[key_index(r, path)].1
                == override_all(Seq::empty(), c)
        }),
    decreases k,
{
    lemma_key_index_bounds(files, path, 0);
    if k > 0 {
        law_extract_overrides_each_file(files, atts, hunks_by_file, shifted, k - 1, path);
        let prev = extract_files(files, atts, hunks_by_file, shifted, k - 1);
        let q = atts[k - 1].file_path@;
        let cq = contributed(atts[k - 1], shifts_file(hunks_by_file, q), shifted[k - 1]);
        let r = extract_files(files, atts, hunks_by_file, shifted, k);
        let c0 = contributed_to(atts, hunks_by_file, shifted, k - 1, path);
        let c = contributed_to(atts, hunks_by_file, shifted, k, path);
        let f = key_index(files, path);
        let pp = key_index(prev, path);
        let rr = key_index(r, path);
        assert(r == add_overriding(prev, q, cq));
        let i0 = key_index(prev, q);
        lemma_key_index_bounds(prev, q, 0);
        lemma_key_index_bounds(prev, path, 0);
        // Where `path` sits after this attestation.
        if i0 >= 0 {
            let x = override_all(prev[i0].1, cq);
            assert(r == prev.update(i0, (prev[i0].0, x)));
            lemma_key_index_update_same_key(prev, i0, x, path, 0);
            assert(rr == pp);
        } else {
            assert(r == prev + seq![(q, override_all(Seq::empty(), cq))]);
            lemma_key_index_concat(prev, seq![(q, override_all(Seq::empty(), cq))], path);
            if pp >= 0 {
                assert(rr == pp);
                assert(r[pp] == prev[pp]);
            } else if q == path {
                assert(rr == prev.len());
                assert(r[rr].1 == override_all(Seq::empty(), cq));
            } else {
                let one = seq![(q, override_all(Seq::<LineAttribution>::empty(), cq))];
                assert(key_index_from(one, path, 1) == -1);
                assert(key_index(one, path) == -1);
                assert(rr < 0);
            }
        }
        if q != path {
            assert(c == c0);
            assert(attests(atts, k, path) == attests(atts, k - 1, path)) by {
                if attests(atts, k, path) {
                    let j = choose|j: int| 0 <= j < k && #[trigger] atts[j].file_path@ == path;
                    assert(attests(atts, k - 1, path));
                }
                if attests(atts, k - 1, path) {
                    let j = choose|j: int| 0 <= j < k - 1 && #[trigger] atts[j].file_path@ == path;
                    assert(attests(atts, k, path));
                }
            }
            if pp >= 0 {
                if i0 >= 0 {
                    assert(pp != i0);
                    assert(r[pp] == prev[pp]);
                }
            }
        } else {
            assert(c == c0 + cq);
            assert(atts[k - 1].file_path@ == path);
            assert(attests(atts, k, path));
            if pp >= 0 {
                assert(i0 == pp);
                assert(r[rr].1 == override_all(prev[pp].1, cq));
                if f >= 0 {
                    lemma_override_all_concat(files[f].1, c0, cq);
                } else {
                    lemma_override_all_concat(Seq::empty(), c0, cq);
                }
            } else {
                assert(f < 0);
                assert(!attests(atts, k - 1, path));
                lemma_nothing_contributed(atts, hunks_by_file, shifted, k - 1, path);
                assert(c =~= cq);
            }
        }
    }
}

pub proof fn lemma_nothing_contributed(
    atts: Seq<FileAttestation>,
    hunks_by_file: Option<Vec<(String, usize)>>,
    shifted: Seq<Option<Vec<LineAttribution>>>,
    k: int,
    path: Seq<char>,
)
    requires
        !attests(atts, k, path),
    ensures
        contributed_to(atts, hunks_by_file, shifted, k, path) == Seq::<LineAttribution>::empty(),
    decreases k,
{
    if k > 0 {
        assert(atts[k - 1].file_path@ != path);
        assert(!attests(atts, k - 1, path)) by {
            if attests(atts, k - 1, path) {
                let j = choose|j: int| 0 <= j < k - 1 && #[trigger] atts[j].file_path@ == path;
                assert(atts[j].file_path@ == path);
            }
        }
        lemma_nothing_contributed(atts, hunks_by_file, shifted, k - 1, path);
    }
}

/// The attributions the first `k` attestations state for file `path`, in order.
pub open spec fn stated_for(atts: Seq<FileAttestation>, k: int, path: Seq<char>) -> Seq<LineAttribution>
    decreases k,
{
    if k <= 0 {
        Seq::empty()
    } else if atts[k - 1].file_path@ == path {
        stated_for(atts, k - 1, path) + raw_attributions_spec(atts[k - 1].entries@)
    } else {
        stated_for(atts, k - 1, path)
    }
}

pub proof fn lemma_nothing_stated(atts: Seq<FileAttestation>, k: int, path: Seq<char>)
    requires
        !attests(atts, k, path),
    ensures
        stated_for(atts, k, path) == Seq::<LineAttribution>::empty(),
    decreases k,
{
    if k > 0 {
        assert(atts[k - 1].file_path@ != path);
        assert(!attests(atts, k - 1, path)) by {
            if attests(atts, k - 1, path) {
                let j = choose|j: int| 0 <= j < k - 1 && #[trigger] atts[j].file_path@ == path;
                assert(atts[j].file_path@ == path);
            }
        }
        lemma_nothing_stated(atts, k - 1, path);
    }
}

/// After appending a log, each file's attributions are its earlier ones (none
/// for a new file) followed by everything the log states for it, in order;
/// files keep their place, a new file is added exactly when the log attests
/// it, and other files are untouched.
pub proof fn law_append_adds_each_file(
    files: Seq<(Seq<char>, Seq<LineAttribution>)>,
    atts: Seq<FileAttestation>,
    k: int,
    path: Seq<char>,
)
    requires
        0 <= k <= atts.len(),
    ensures
        ({
            let r = append_files(files, atts, k);
            let c = stated_for(atts, k, path);
            &&& key_index(files, path) >= 0 ==> key_index(r, path) == key_index(files, path)
                && r[key_index(r, path)].1 == files[key_index(files, path)].1 + c
            &&& key_index(files, path) < 0 ==> (key_index(r, path) >= 0 <==> attests(atts, k, path))
            &&& key_index(files, path) < 0 && attests(atts, k, path) ==> r[key_index(r, path)].1 == c
        }),
    decreases k,
{
    lemma_key_index_bounds(files, path, 0);
    if k > 0 {
        law_append_adds_each_file(files, atts, k - 1, path);
        let prev = append_files(files, atts, k - 1);
        let q = atts[k - 1].file_path@;
        let cq = raw_attributions_spec(atts[k - 1].entries@);
        let r = append_files(files, atts, k);
        let c0 = stated_for(atts, k - 1, path);
        let c = stated_for(atts, k, path);
        let f = key_index(files, path);
        let pp = key_index(prev, path);
        let rr = key_index(r, path);
        assert(r == add_appended(prev, q, cq));
        let i0 = key_index(prev, q);
        lemma_key_index_bounds(prev, q, 0);
        lemma_key_index_bounds(prev, path, 0);
        if i0 >= 0 {
            let x = prev[i0].1 + cq;
            assert(r == prev.update(i0, (prev[i0].0, x)));
            lemma_key_index_update_same_key(prev, i0, x, path, 0);
            assert(rr == pp);
        } else {
            assert(r == prev + seq![(q, cq)]);
            lemma_key_index_concat(prev, seq![(q, cq)], path);
            if pp >= 0 {
                assert(rr == pp);
                assert(r[pp] == prev[pp]);
            } else if q == path {
                assert(rr == prev.len());
                assert(r[rr].1 == cq);
            } else {
                let one = seq![(q, cq)];
                assert(key_index_from(one, path, 1) == -1);
                assert(key_index(one, path) == -1);
                assert(rr < 0);
            }
        }
        if q != path {
            assert(c == c0);
            assert(attests(atts, k, path) == attests(atts, k - 1, path)) by {
                if attests(atts, k, path) {
                    let j = choose|j: int| 0 <= j < k && #[trigger] atts[j].file_path@ == path;
                    assert(attests(atts, k - 1, path));
                }
                if attests(atts, k - 1, path) {
                    let j = choose|j: int| 0 <= j < k - 1 && #[trigger] atts[j].file_path@ == path;
                    assert(attests(atts, k, path));
                }
            }
            if pp >= 0 {
                if i0 >= 0 {
                    assert(pp != i0);
                    assert(r[pp] == prev[pp]);
                }
            }
        } else {
            assert(c == c0 + cq);
            assert(atts[k - 1].file_path@ == path);
            assert(attests(atts, k, path));
            if pp >= 0 {
                assert(i0 == pp);
                assert(r[rr].1 == prev[pp].1 + cq);
                if f >= 0 {
                    assert(files[f].1 + c0 + cq =~= files[f].1 + (c0 + cq));
                }
            } else {
                assert(f < 0);
                assert(!attests(atts, k - 1, path));
                lemma_nothing_stated(atts, k - 1, path);
                assert(c =~= cq);
            }
        }
    }
}

} // verus!
