//! Where git notes live in a notes tree, and how notes are looked up and
//! written in batches.
use vstd::prelude::*;
use vstd::string::StringSliceAdditionalSpecFns;
use vstd::utf8::{encode_utf8, is_continuation_byte, valid_utf8};
use crate::decode::utf8_str;
use crate::text::{pairs_view, split_lines, split_whitespace, strings_view, text_lines, trim_spec, trim_str, ws_tokens};

verus! {


/// The notes ref that holds authorship notes.
pub open spec fn ai_notes_ref_spec() -> Seq<char> {
    seq!['r', 'e', 'f', 's', '/', 'n', 'o', 't', 'e', 's', '/', 'a', 'i']
}

pub fn ai_notes_ref() -> (r: &'static str)
    ensures
        r@ == ai_notes_ref_spec(),
{
    let r = "refs/notes/ai";
    proof {
        reveal_strlit("refs/notes/ai");
    }
    r
}

/// An object id can be cut into note path components: the bytes at offsets 2
/// and 4, where present, start a character.
pub open spec fn splits_cleanly(b: Seq<u8>) -> bool {
    &&& b.len() > 2 ==> !is_continuation_byte(b[2])
    &&& b.len() > 4 ==> !is_continuation_byte(b[4])
}

pub open spec fn slash() -> Seq<u8> {
    seq![47u8]
}

/// The fanout path of a note: `ab/cdef...` for object id `abcdef...`.
pub open spec fn fanout_path_bytes(b: Seq<u8>) -> Seq<u8> {
    if b.len() > 2 {
        b.subrange(0, 2) + slash() + b.subrange(2, b.len() as int)
    } else {
        b
    }
}

/// The two-level fanout path: `ab/cd/ef...`.
pub open spec fn three_level_path_bytes(b: Seq<u8>) -> Seq<u8> {
    b.subrange(0, 2) + slash() + b.subrange(2, 4) + slash() + b.subrange(4, b.len() as int)
}

/// Every path at which a note for object id `b` may be stored, without
/// repetition: flat, with one level of fanout, and (for ids longer than four
/// bytes) with two levels.
pub open spec fn note_path_bytes(b: Seq<u8>) -> Seq<Seq<u8>> {
    let p1 = seq![b];
    let two = fanout_path_bytes(b);
    let p2 = if p1.contains(two) {
        p1
    } else {
        p1.push(two)
    };
    if b.len() > 4 {
        let three = three_level_path_bytes(b);
        if p2.contains(three) {
            p2
        } else {
            p2.push(three)
        }
    } else {
        p2
    }
}

pub proof fn lemma_encode_utf8_concat(a: Seq<char>, b: Seq<char>)
    ensures
        encode_utf8(a + b) == encode_utf8(a) + encode_utf8(b),
    decreases a.len(),
{
    if a.len() == 0 {
        assert(a + b =~= b);
    } else {
        lemma_encode_utf8_concat(a.drop_first(), b);
        assert((a + b).drop_first() =~= a.drop_first() + b);
    }
}

/// Equal encodings mean equal strings.
pub proof fn lemma_encode_utf8_injective(a: Seq<char>, b: Seq<char>)
    requires
        encode_utf8(a) == encode_utf8(b),
    ensures
        a == b,
{
    vstd::utf8::encode_utf8_decode_utf8(a);
    vstd::utf8::encode_utf8_decode_utf8(b);
}

proof fn lemma_slash_bytes()
    ensures
        "/".spec_bytes() == slash(),
{
    reveal_strlit("/");
    assert(vstd::string::is_ascii("/"));
    assert("/".spec_bytes() =~= slash());
}

/// Splits `s` at byte `mid`, which starts a character.
fn split_at_char(s: &str, mid: usize) -> (r: (&str, &str))
    requires
        mid < s.spec_bytes().len(),
        !is_continuation_byte(s.spec_bytes()[mid as int]),
    ensures
        r.0.spec_bytes() == s.spec_bytes().subrange(0, mid as int),
        r.1.spec_bytes() == s.spec_bytes().subrange(mid as int, s.spec_bytes().len() as int),
{
    proof {
        vstd::utf8::encode_utf8_valid_utf8(s@);
        vstd::utf8::is_char_boundary_iff_not_is_continuation_byte(s.spec_bytes(), mid as int);
    }
    s.split_at(mid)
}

/// `a`, `/`, `b` joined into a new string.
fn join_with_slash(a: &str, b: &str) -> (r: String)
    ensures
        encode_utf8(r@) == a.spec_bytes() + slash() + b.spec_bytes(),
{
    let mut s = a.to_owned();
    s.append("/");
    s.append(b);
    proof {
        lemma_slash_bytes();
        lemma_encode_utf8_concat(a@ + "/"@, b@);
        lemma_encode_utf8_concat(a@, "/"@);
    }
    s
}

/// The fanout path of the note for `oid` (`ab/cdef...`).
pub fn notes_path_for_object(oid: &str) -> (p: String)
    requires
        splits_cleanly(oid.spec_bytes()),
    ensures
        encode_utf8(p@) == fanout_path_bytes(oid.spec_bytes()),
{
    if oid.as_bytes().len() > 2 {
        let (head, rest) = split_at_char(oid, 2);
        let r = join_with_slash(head, rest);
        assert(encode_utf8(r@) =~= fanout_path_bytes(oid.spec_bytes()));
        r
    } else {
        let r = oid.to_owned();
        assert(encode_utf8(r@) == oid.spec_bytes());
        r
    }
}

/// Whether `paths` holds a path equal to `p`.
fn contains_path(paths: &Vec<String>, p: &String) -> (r: bool)
    ensures
        r == strings_view(paths@).contains(p@),
{
    let mut i: usize = 0;
    while i < paths.len()
        invariant
            i <= paths.len(),
            forall|k: int| 0 <= k < i ==> paths@[k]@ != p@,
        decreases paths.len() - i,
    {
        if paths[i] == *p {
            assert(strings_view(paths@)[i as int] == p@);
            return true;
        }
        i = i + 1;
    }
    assert forall|k: int| 0 <= k < strings_view(paths@).len() implies strings_view(paths@)[k]
        != p@ by {
        assert(paths@[k]@ != p@);
    }
    false
}

pub open spec fn encoded_paths(paths: Seq<String>) -> Seq<Seq<u8>> {
    paths.map_values(|s: String| encode_utf8(s@))
}

proof fn lemma_contains_encoded(paths: Seq<String>, p: Seq<char>)
    ensures
        strings_view(paths).contains(p) == encoded_paths(paths).contains(encode_utf8(p)),
{
    if strings_view(paths).contains(p) {
        let k = choose|k: int| 0 <= k < strings_view(paths).len() && strings_view(paths)[k] == p;
        assert(encoded_paths(paths)[k] == encode_utf8(p));
    }
    if encoded_paths(paths).contains(encode_utf8(p)) {
        let k = choose|k: int|
            0 <= k < encoded_paths(paths).len() && encoded_paths(paths)[k] == encode_utf8(p);
        lemma_encode_utf8_injective(paths[k]@, p);
        assert(strings_view(paths)[k] == p);
    }
}

/// Every path at which a note for `oid` may be stored: flat, then with one
/// level of fanout, then (for ids longer than four bytes) with two.
pub fn note_paths_for_object(oid: &str) -> (paths: Vec<String>)
    requires
        splits_cleanly(oid.spec_bytes()),
    ensures
        encoded_paths(paths@) == note_path_bytes(oid.spec_bytes()),
{
    let ghost b = oid.spec_bytes();
    let mut paths: Vec<String> = Vec::new();
    paths.push(oid.to_owned());
    assert(encoded_paths(paths@) =~= seq![b]);
    let two = notes_path_for_object(oid);
    proof {
        lemma_contains_encoded(paths@, two@);
    }
    if !contains_path(&paths, &two) {
        let ghost before = paths@;
        paths.push(two);
        assert(encoded_paths(paths@) =~= encoded_paths(before).push(fanout_path_bytes(b)));
    }
    let ghost p2 = encoded_paths(paths@);
    assert(p2 == note_path_bytes(b).take(p2.len() as int)) by {
        let q1 = seq![b];
        let q2 = if q1.contains(fanout_path_bytes(b)) { q1 } else { q1.push(fanout_path_bytes(b)) };
        assert(p2 =~= q2);
    }
    if oid.as_bytes().len() > 4 {
        let (head, rest) = split_at_char(oid, 2);
        let (mid, tail) = split_at_char(rest, 2);
        let first = join_with_slash(head, mid);
        let three = join_with_slash(first.as_str(), tail);
        proof {
            assert(rest.spec_bytes()[2] == b[4]);
            assert(rest.spec_bytes().subrange(0, 2) =~= b.subrange(2, 4));
            assert(rest.spec_bytes().subrange(2, rest.spec_bytes().len() as int) =~= b.subrange(
                4,
                b.len() as int,
            ));
            assert(encode_utf8(three@) =~= three_level_path_bytes(b));
            lemma_contains_encoded(paths@, three@);
        }
        if !contains_path(&paths, &three) {
            let ghost before = paths@;
            paths.push(three);
            assert(encoded_paths(paths@) =~= encoded_paths(before).push(three_level_path_bytes(b)));
        }
    }
    paths
}


// ---------------------------------------------------------------------------
// Looking notes up with `git cat-file --batch-check`.
/// Why notes could not be looked up or written.
#[derive(PartialEq, Eq, Structural, Debug, Clone, Copy)]
pub enum NotesError {
    /// Git printed output that is not valid UTF-8.
    InvalidUtf8,
    /// A git command failed.
    GitFailed,
}

/// The UTF-8 encodings of a list of strings.
pub open spec fn strings_bytes(v: Seq<String>) -> Seq<Seq<u8>> {
    v.map_values(|s: String| encode_utf8(s@))
}

/// Every object id of the list can be cut into note path components.
pub open spec fn all_split_cleanly(v: Seq<String>) -> bool {
    forall|i: int| 0 <= i < v.len() ==> splits_cleanly(#[trigger] encode_utf8(v[i]@))
}

/// The request lines `<notes_ref>:<path>\n`, one per path.
pub open spec fn ref_path_lines(notes_ref: Seq<u8>, paths: Seq<Seq<u8>>) -> Seq<u8>
    decreases paths.len(),
{
    if paths.len() == 0 {
        Seq::empty()
    } else {
        ref_path_lines(notes_ref, paths.drop_last()) + notes_ref + seq![58u8] + paths.last() + seq![
            10u8,
        ]
    }
}

/// The `git cat-file --batch-check` input that asks for every note path of
/// every commit, in order.
pub open spec fn batch_check_input(notes_ref: Seq<u8>, shas: Seq<Seq<u8>>) -> Seq<u8>
    decreases shas.len(),
{
    if shas.len() == 0 {
        Seq::empty()
    } else {
        batch_check_input(notes_ref, shas.drop_last()) + ref_path_lines(
            notes_ref,
            note_path_bytes(shas.last()),
        )
    }
}

/// Appends the bytes of `b` to `out`.
pub fn push_bytes(out: &mut Vec<u8>, b: &[u8])
    ensures
        final(out)@ == old(out)@ + b@,
{
    let ghost start = out@;
    let mut i: usize = 0;
    while i < b.len()
        invariant
            i <= b.len(),
            out@ == start + b@.take(i as int),
        decreases b.len() - i,
    {
        out.push(b[i]);
        i = i + 1;
        assert(out@ =~= start + b@.take(i as int));
    }
    assert(b@.take(b.len() as int) =~= b@);
}

/// Appends the UTF-8 bytes of `s` to `out`.
pub fn push_str(out: &mut Vec<u8>, s: &str)
    ensures
        final(out)@ == old(out)@ + s.spec_bytes(),
{
    push_bytes(out, s.as_bytes());
}

/// The `git cat-file --batch-check` input that looks up the notes of `shas`
/// under the notes ref `notes_ref` (its bytes): none for no commits.
pub open spec fn notes_lookup_request(notes_ref: Seq<u8>, shas: Seq<String>) -> Option<Seq<u8>> {
    if shas.len() == 0 {
        None
    } else {
        Some(batch_check_input(notes_ref, strings_bytes(shas)))
    }
}

pub open spec fn bytes_view(r: Option<Vec<u8>>) -> Option<Seq<u8>> {
    match r {
        Some(v) => Some(v@),
        None => None,
    }
}

/// The input for `git cat-file --batch-check` that looks up the notes of
/// `commit_shas` under `notes_ref`, or `None` when there is nothing to look up
/// (then no note is found).
pub fn note_blob_oids_request(notes_ref: &str, commit_shas: &Vec<String>) -> (r: Option<Vec<u8>>)
    requires
        all_split_cleanly(commit_shas@),
    ensures
        bytes_view(r) == notes_lookup_request(notes_ref.spec_bytes(), commit_shas@),
{
    if commit_shas.len() == 0 {
        return None;
    }
    let ghost shas = strings_bytes(commit_shas@);
    let mut input: Vec<u8> = Vec::new();
    let mut i: usize = 0;
    while i < commit_shas.len()
        invariant
            i <= commit_shas.len(),
            shas == strings_bytes(commit_shas@),
            all_split_cleanly(commit_shas@),
            input@ == batch_check_input(notes_ref.spec_bytes(), shas.take(i as int)),
        decreases commit_shas.len() - i,
    {
        assert(shas.take(i + 1).drop_last() =~= shas.take(i as int));
        assert(splits_cleanly(encode_utf8(commit_shas@[i as int]@)));
        let paths = note_paths_for_object(commit_shas[i].as_str());
        let ghost pb = encoded_paths(paths@);
        let ghost base = input@;
        let mut k: usize = 0;
        while k < paths.len()
            invariant
                k <= paths.len(),
                pb == encoded_paths(paths@),
                input@ == base + ref_path_lines(notes_ref.spec_bytes(), pb.take(k as int)),
            decreases paths.len() - k,
        {
            assert(pb.take(k + 1).drop_last() =~= pb.take(k as int));
            push_str(&mut input, notes_ref);
            input.push(58u8);
            push_str(&mut input, paths[k].as_str());
            input.push(10u8);
            k = k + 1;
            assert(input@ =~= base + ref_path_lines(notes_ref.spec_bytes(), pb.take(k as int)));
        }
        assert(pb.take(paths.len() as int) =~= pb);
        i = i + 1;
    }
    assert(shas.take(commit_shas.len() as int) =~= shas);
    Some(input)
}

/// The lookup request for authorship notes: the request of
/// `note_blob_oids_request` for the notes ref `refs/notes/ai`.
pub fn note_blob_oids_for_commits(commit_shas: &Vec<String>) -> (r: Option<Vec<u8>>)
    requires
        all_split_cleanly(commit_shas@),
    ensures
        bytes_view(r) == notes_lookup_request(encode_utf8(ai_notes_ref_spec()), commit_shas@),
{
    note_blob_oids_request(ai_notes_ref(), commit_shas)
}

/// Looking up authorship notes is looking up notes under `refs/notes/ai`: for
/// any string naming that ref, `note_blob_oids_request` builds exactly the
/// request that `note_blob_oids_for_commits` builds, and both answers are read
/// by `note_blob_oids_for_commits_from_ref`.
pub proof fn law_authorship_lookup_is_ai_ref_lookup(notes_ref: &str, shas: Seq<String>)
    requires
        notes_ref@ == ai_notes_ref_spec(),
    ensures
        notes_lookup_request(notes_ref.spec_bytes(), shas) == notes_lookup_request(
            encode_utf8(ai_notes_ref_spec()),
            shas,
        ),
{
}

pub open spec fn blob_word() -> Seq<char> {
    seq!['b', 'l', 'o', 'b']
}

/// The object id a `--batch-check` line reports for a blob: the first field
/// when the second is `blob`.
pub open spec fn blob_oid_of_line(line: Seq<char>) -> Option<Seq<char>> {
    let t = ws_tokens(line);
    if t.len() >= 2 && t[1] == blob_word() {
        Some(t[0])
    } else {
        None
    }
}

/// The object id of a `git cat-file --batch-check` line `<oid> <type> <size>`
/// if the object is a blob.
pub fn parse_batch_check_blob_oid(line: &str) -> (r: Option<String>)
    ensures
        match blob_oid_of_line(line@) {
            Some(o) => r matches Some(s) && s@ == o,
            None => r is None,
        },
{
    let mut t = split_whitespace(line);
    if t.len() < 2 {
        return None;
    }
    let ghost tv = strings_view(t@);
    let v = crate::text::chars_of(t[1].as_str());
    let is_blob = v.len() == 4 && v[0] == 'b' && v[1] == 'l' && v[2] == 'o' && v[3] == 'b';
    assert(is_blob ==> v@ =~= blob_word());
    if !is_blob {
        return None;
    }
    let first = t.swap_remove(0);
    assert(first@ == tv[0]);
    Some(first)
}

/// The first blob object id reported in lines `from..end`.
pub open spec fn first_blob_oid(lines: Seq<Seq<char>>, from: int, end: int) -> Option<Seq<char>>
    decreases end - from,
{
    if from < 0 || from >= end || from >= lines.len() {
        None
    } else {
        match blob_oid_of_line(lines[from]) {
            Some(o) => Some(o),
            None => first_blob_oid(lines, from + 1, end),
        }
    }
}

/// Reading the answers for the first `k` commits: the note object id found per
/// commit (set with `upsert`), and the first line not yet read. Commit `i`
/// reads the next `counts[i]` lines (fewer if the output ends).
pub open spec fn read_batch_check(
    shas: Seq<Seq<char>>,
    counts: Seq<int>,
    lines: Seq<Seq<char>>,
    k: int,
) -> (Seq<(Seq<char>, Seq<char>)>, int)
    decreases k,
{
    if k <= 0 {
        (Seq::empty(), 0)
    } else {
        let (found, pos) = read_batch_check(shas, counts, lines, k - 1);
        let end = if pos + counts[k - 1] <= lines.len() {
            pos + counts[k - 1]
        } else {
            lines.len() as int
        };
        match first_blob_oid(lines, pos, end) {
            Some(o) => (crate::batch::upsert(found, shas[k - 1], o), end),
            None => (found, end),
        }
    }
}

/// The notes found by a lookup hold one object id per commit.
pub proof fn law_lookup_finds_one_note_per_commit(
    shas: Seq<Seq<char>>,
    counts: Seq<int>,
    lines: Seq<Seq<char>>,
    k: int,
)
    ensures
        crate::batch::keys_distinct(read_batch_check(shas, counts, lines, k).0),
    decreases k,
{
    if k > 0 {
        law_lookup_finds_one_note_per_commit(shas, counts, lines, k - 1);
        let (found, pos) = read_batch_check(shas, counts, lines, k - 1);
        let end = if pos + counts[k - 1] <= lines.len() {
            pos + counts[k - 1]
        } else {
            lines.len() as int
        };
        if let Some(o) = first_blob_oid(lines, pos, end) {
            crate::batch::law_upsert(found, shas[k - 1], o);
        }
    }
}

/// How many answer lines the first `i` commits were given: the sum of their
/// path counts.
pub open spec fn answered_lines(counts: Seq<int>, i: int) -> int
    decreases i,
{
    if i <= 0 {
        0
    } else {
        answered_lines(counts, i - 1) + counts[i - 1]
    }
}

/// Where the answer to commit `i` starts in the output: after the answers to
/// the commits before it, or at the end of the output if it is shorter.
pub open spec fn answer_start(counts: Seq<int>, n: int, i: int) -> int {
    if answered_lines(counts, i) <= n {
        answered_lines(counts, i)
    } else {
        n
    }
}

proof fn lemma_read_position(
    shas: Seq<Seq<char>>,
    counts: Seq<int>,
    lines: Seq<Seq<char>>,
    k: int,
)
    requires
        0 <= k <= counts.len(),
        forall|j: int| 0 <= j < counts.len() ==> #[trigger] counts[j] >= 0,
    ensures
        read_batch_check(shas, counts, lines, k).1 == answer_start(counts, lines.len() as int, k),
        answered_lines(counts, k) >= 0,
    decreases k,
{
    if k > 0 {
        lemma_read_position(shas, counts, lines, k - 1);
        assert(counts[k - 1] >= 0);
    }
}

proof fn lemma_upsert_entries(v: Seq<(Seq<char>, Seq<char>)>, key: Seq<char>, value: Seq<char>, w: int)
    requires
        0 <= w < crate::batch::upsert(v, key, value).len(),
    ensures
        crate::batch::upsert(v, key, value)[w] == (key, value) || v.contains(
            crate::batch::upsert(v, key, value)[w],
        ),
{
    let r = crate::batch::upsert(v, key, value);
    let i = crate::authorship::key_index(v, key);
    crate::authorship::lemma_key_index_bounds(v, key, 0);
    if w < v.len() && w != i {
        assert(r[w] == v[w]);
    }
}

/// Each commit's answer is read on its own: when the answer lines of commit
/// `i` (from `answer_start(i)` to `answer_start(i + 1)`) report a note blob
/// `o`, the lookup holds `(commit, o)`, whatever the other commits found,
/// unless the same commit is looked up again later and its later answer
/// reports a note (then that one is held).
pub proof fn law_lookup_reports_each_found_note(
    shas: Seq<Seq<char>>,
    counts: Seq<int>,
    lines: Seq<Seq<char>>,
    k: int,
    i: int,
    o: Seq<char>,
)
    requires
        0 <= i < k <= counts.len(),
        forall|j: int| 0 <= j < counts.len() ==> #[trigger] counts[j] >= 0,
        first_blob_oid(
            lines,
            answer_start(counts, lines.len() as int, i),
            answer_start(counts, lines.len() as int, i + 1),
        ) == Some(o),
        forall|j: int|
            i < j < k && #[trigger] shas[j] == shas[i] ==> first_blob_oid(
                lines,
                answer_start(counts, lines.len() as int, j),
                answer_start(counts, lines.len() as int, j + 1),
            ) is None,
    ensures
        read_batch_check(shas, counts, lines, k).0.contains((shas[i], o)),
    decreases k,
{
    let n = lines.len() as int;
    lemma_read_position(shas, counts, lines, k - 1);
    lemma_read_position(shas, counts, lines, k);
    let (found, pos) = read_batch_check(shas, counts, lines, k - 1);
    law_lookup_finds_one_note_per_commit(shas, counts, lines, k - 1);
    let end = if pos + counts[k - 1] <= lines.len() {
        pos + counts[k - 1]
    } else {
        lines.len() as int
    };
    assert(end == answer_start(counts, n, k));
    if i == k - 1 {
        crate::batch::law_upsert(found, shas[i], o);
    } else {
        law_lookup_reports_each_found_note(shas, counts, lines, k - 1, i, o);
        match first_blob_oid(lines, pos, end) {
            Some(o2) => {
                assert(shas[k - 1] != shas[i]);
                crate::batch::law_upsert(found, shas[k - 1], o2);
                let w = choose|w: int| 0 <= w < found.len() && found[w] == (shas[i], o);
                assert(found[w].0 != shas[k - 1]);
            },
            None => {},
        }
    }
}

/// Every note the lookup reports comes from the answer lines of its own
/// commit: given reported entry `w`, this returns the commit `i` whose
/// answer lines report it.
pub proof fn law_lookup_reports_only_answered_notes(
    shas: Seq<Seq<char>>,
    counts: Seq<int>,
    lines: Seq<Seq<char>>,
    k: int,
    w: int,
) -> (i: int)
    requires
        0 <= k <= counts.len(),
        forall|j: int| 0 <= j < counts.len() ==> #[trigger] counts[j] >= 0,
        0 <= w < read_batch_check(shas, counts, lines, k).0.len(),
    ensures
        0 <= i < k,
        read_batch_check(shas, counts, lines, k).0[w].0 == shas[i],
        first_blob_oid(
            lines,
            answer_start(counts, lines.len() as int, i),
            answer_start(counts, lines.len() as int, i + 1),
        ) == Some(read_batch_check(shas, counts, lines, k).0[w].1),
    decreases k,
{
    let n = lines.len() as int;
    lemma_read_position(shas, counts, lines, k - 1);
    lemma_read_position(shas, counts, lines, k);
    let (found, pos) = read_batch_check(shas, counts, lines, k - 1);
    let end = if pos + counts[k - 1] <= lines.len() {
        pos + counts[k - 1]
    } else {
        lines.len() as int
    };
    assert(end == answer_start(counts, n, k));
    let r = read_batch_check(shas, counts, lines, k).0;
    match first_blob_oid(lines, pos, end) {
        Some(o) => {
            lemma_upsert_entries(found, shas[k - 1], o, w);
            if r[w] == (shas[k - 1], o) {
                k - 1
            } else {
                let w0 = choose|w0: int| 0 <= w0 < found.len() && found[w0] == r[w];
                law_lookup_reports_only_answered_notes(shas, counts, lines, k - 1, w0)
            }
        },
        None => law_lookup_reports_only_answered_notes(shas, counts, lines, k - 1, w),
    }
}

/// How many note paths each commit was looked up at.
pub open spec fn path_counts(shas: Seq<String>) -> Seq<int> {
    shas.map_values(|s: String| note_path_bytes(encode_utf8(s@)).len() as int)
}

/// Reads the answer of `git cat-file --batch-check` to the request built by
/// `note_blob_oids_request` for `commit_shas`: for each commit, the object id
/// of its note (the first blob among the answers to its paths), as
/// `(commit, note blob)` pairs. Fails when the output is not valid UTF-8.
pub fn note_blob_oids_for_commits_from_ref(commit_shas: &Vec<String>, batch_check_output: &[u8]) -> (r:
    Result<Vec<(String, String)>, NotesError>)
    requires
        all_split_cleanly(commit_shas@),
    ensures
        commit_shas.len() == 0 ==> (r matches Ok(v) && v@.len() == 0),
        commit_shas.len() > 0 ==> match vstd::utf8::valid_utf8(batch_check_output@) {
            false => r == Err::<Vec<(String, String)>, NotesError>(NotesError::InvalidUtf8),
            true => r matches Ok(v) && pairs_view(v@) == read_batch_check(
                strings_view(commit_shas@),
                path_counts(commit_shas@),
                text_lines(vstd::utf8::decode_utf8(batch_check_output@)),
                commit_shas.len() as int,
            ).0,
        },
{
    if commit_shas.len() == 0 {
        return Ok(Vec::new());
    }
    let text = match utf8_str(batch_check_output) {
        Some(t) => t,
        None => {
            return Err(NotesError::InvalidUtf8);
        },
    };
    let lines = split_lines(text);
    let ghost lv = strings_view(lines@);
    let ghost sv = strings_view(commit_shas@);
    let ghost counts = path_counts(commit_shas@);
    let mut found: Vec<(String, String)> = Vec::new();
    let mut pos: usize = 0;
    let mut i: usize = 0;
    assert(pairs_view(found@) =~= Seq::empty());
    while i < commit_shas.len()
        invariant
            i <= commit_shas.len(),
            lv == strings_view(lines@),
            sv == strings_view(commit_shas@),
            counts == path_counts(commit_shas@),
            all_split_cleanly(commit_shas@),
            read_batch_check(sv, counts, lv, i as int) == (pairs_view(found@), pos as int),
            pos <= lines.len(),
        decreases commit_shas.len() - i,
    {
        assert(splits_cleanly(encode_utf8(commit_shas@[i as int]@)));
        let count = note_paths_for_object(commit_shas[i].as_str()).len();
        let end = if count <= lines.len() - pos {
            pos + count
        } else {
            lines.len()
        };
        let ghost start = pos as int;
        let mut k = pos;
        let mut note_oid: Option<String> = None;
        while k < end && note_oid.is_none()
            invariant
                start <= k <= end <= lines.len(),
                lv == strings_view(lines@),
                note_oid is None ==> first_blob_oid(lv, start, end as int) == first_blob_oid(
                    lv,
                    k as int,
                    end as int,
                ),
                note_oid matches Some(o) ==> first_blob_oid(lv, start, end as int) == Some(o@),
            decreases end - k,
        {
            note_oid = parse_batch_check_blob_oid(lines[k].as_str());
            k = k + 1;
        }
        match note_oid {
            Some(o) => {
                crate::batch::upsert_pair(&mut found, commit_shas[i].clone(), o);
            },
            None => {},
        }
        pos = end;
        i = i + 1;
    }
    Ok(found)
}


// ---------------------------------------------------------------------------
// Writing notes with `git fast-import`.
/// Whether a later entry has the same commit as entry `k`.
pub open spec fn superseded(e: Seq<(Seq<char>, Seq<char>)>, k: int) -> bool {
    exists|j: int| k < j < e.len() && #[trigger] e[j].0 == e[k].0
}

/// The entries from `k` on that no later entry supersedes, in order.
pub open spec fn latest_from(e: Seq<(Seq<char>, Seq<char>)>, k: int) -> Seq<(Seq<char>, Seq<char>)>
    decreases e.len() - k,
{
    if k < 0 || k >= e.len() {
        Seq::empty()
    } else if superseded(e, k) {
        latest_from(e, k + 1)
    } else {
        seq![e[k]] + latest_from(e, k + 1)
    }
}

/// One entry per commit: the last one given for it, in the order of those
/// last entries.
pub open spec fn latest_entries(e: Seq<(Seq<char>, Seq<char>)>) -> Seq<(Seq<char>, Seq<char>)> {
    latest_from(e, 0)
}

/// Keeps, for each commit, only its last entry (`(commit, value)` pairs), in
/// the order of those last entries.
pub fn dedup_note_entries(entries: &Vec<(String, String)>) -> (r: Vec<(String, String)>)
    ensures
        pairs_view(r@) == latest_entries(pairs_view(entries@)),
{
    let ghost e = pairs_view(entries@);
    let mut r: Vec<(String, String)> = Vec::new();
    let mut k: usize = 0;
    assert(pairs_view(r@) + latest_from(e, 0) =~= latest_from(e, 0));
    while k < entries.len()
        invariant
            k <= entries.len(),
            e == pairs_view(entries@),
            pairs_view(r@) + latest_from(e, k as int) == latest_from(e, 0),
        decreases entries.len() - k,
    {
        let mut later = false;
        let mut j = k + 1;
        while j < entries.len() && !later
            invariant
                k < j <= entries.len(),
                e == pairs_view(entries@),
                later ==> superseded(e, k as int),
                !later ==> forall|x: int| k < x < j ==> e[x].0 != e[k as int].0,
            decreases entries.len() - j,
        {
            if entries[j].0 == entries[k].0 {
                assert(e[j as int].0 == e[k as int].0);
                later = true;
            }
            j = j + 1;
        }
        let ghost before = pairs_view(r@);
        if !later {
            r.push((entries[k].0.clone(), entries[k].1.clone()));
            assert(pairs_view(r@) =~= before + seq![e[k as int]]);
        }
        assert(before + latest_from(e, k as int) =~= pairs_view(r@) + latest_from(e, k + 1));
        k = k + 1;
    }
    assert(latest_from(e, entries.len() as int) =~= Seq::empty());
    assert(pairs_view(r@) =~= latest_from(e, 0));
    r
}

/// The decimal digits of `n`.
pub open spec fn decimal_bytes(n: nat) -> Seq<u8>
    decreases n,
{
    if n < 10 {
        seq![(48 + n) as u8]
    } else {
        decimal_bytes(n / 10).push((48 + n % 10) as u8)
    }
}

/// The decimal digits of `n`.
pub fn decimal(n: u64) -> (r: Vec<u8>)
    ensures
        r@ == decimal_bytes(n as nat),
    decreases n,
{
    if n < 10 {
        let mut v: Vec<u8> = Vec::new();
        v.push((48 + n) as u8);
        assert(v@ =~= decimal_bytes(n as nat));
        v
    } else {
        let mut v = decimal(n / 10);
        v.push((48 + n % 10) as u8);
        v
    }
}

/// The UTF-8 encodings of `(commit, value)` pairs.
pub open spec fn pairs_bytes(e: Seq<(Seq<char>, Seq<char>)>) -> Seq<(Seq<u8>, Seq<u8>)> {
    e.map_values(|p: (Seq<char>, Seq<char>)| (encode_utf8(p.0), encode_utf8(p.1)))
}

/// `blob`, `mark :<k+1>`, `data <length>`, then the note content.
pub open spec fn blob_command(k: int, content: Seq<u8>) -> Seq<u8> {
    "blob\n".spec_bytes() + "mark :".spec_bytes() + decimal_bytes((k + 1) as nat)
        + "\n".spec_bytes() + "data ".spec_bytes() + decimal_bytes(content.len())
        + "\n".spec_bytes() + content + "\n".spec_bytes()
}

pub open spec fn blob_commands(e: Seq<(Seq<u8>, Seq<u8>)>, n: int) -> Seq<u8>
    decreases n,
{
    if n <= 0 {
        Seq::empty()
    } else {
        blob_commands(e, n - 1) + blob_command(n - 1, e[n - 1].1)
    }
}

/// The commit to `refs/notes/ai`, on top of `tip` when the notes ref exists.
pub open spec fn commit_header(tip: Option<Seq<u8>>, now: nat) -> Seq<u8> {
    "commit refs/notes/ai\n".spec_bytes() + "committer git-ai <git-ai@local> ".spec_bytes()
        + decimal_bytes(now) + " +0000\n".spec_bytes() + "data 0\n".spec_bytes() + match tip {
        Some(t) => "from ".spec_bytes() + t + "\n".spec_bytes(),
        None => Seq::empty(),
    }
}

/// `D <path>` for each path.
pub open spec fn delete_commands(paths: Seq<Seq<u8>>) -> Seq<u8>
    decreases paths.len(),
{
    if paths.len() == 0 {
        Seq::empty()
    } else {
        delete_commands(paths.drop_last()) + "D ".spec_bytes() + paths.last() + "\n".spec_bytes()
    }
}

/// Removes any note of `sha` at every path, then stores `dataref` at its
/// fanout path.
pub open spec fn note_command(sha: Seq<u8>, dataref: Seq<u8>) -> Seq<u8> {
    delete_commands(note_path_bytes(sha)) + "M 100644 ".spec_bytes() + dataref + " ".spec_bytes()
        + fanout_path_bytes(sha) + "\n".spec_bytes()
}

/// The reference to the blob marked for entry `k`.
pub open spec fn mark_ref(k: int) -> Seq<u8> {
    ":".spec_bytes() + decimal_bytes((k + 1) as nat)
}

pub open spec fn marked_note_commands(e: Seq<(Seq<u8>, Seq<u8>)>, n: int) -> Seq<u8>
    decreases n,
{
    if n <= 0 {
        Seq::empty()
    } else {
        marked_note_commands(e, n - 1) + note_command(e[n - 1].0, mark_ref(n - 1))
    }
}

pub open spec fn blob_note_commands(e: Seq<(Seq<u8>, Seq<u8>)>, n: int) -> Seq<u8>
    decreases n,
{
    if n <= 0 {
        Seq::empty()
    } else {
        blob_note_commands(e, n - 1) + note_command(e[n - 1].0, e[n - 1].1)
    }
}

/// The `git fast-import` script that writes note contents `e` (commit, note).
pub open spec fn notes_script(e: Seq<(Seq<u8>, Seq<u8>)>, tip: Option<Seq<u8>>, now: nat) -> Seq<
    u8,
> {
    blob_commands(e, e.len() as int) + commit_header(tip, now) + marked_note_commands(
        e,
        e.len() as int,
    ) + "\n".spec_bytes()
}

/// The `git fast-import` script that points notes `e` (commit, note blob)
/// at existing blobs.
pub open spec fn blob_notes_script(e: Seq<(Seq<u8>, Seq<u8>)>, tip: Option<Seq<u8>>, now: nat) -> Seq<
    u8,
> {
    commit_header(tip, now) + blob_note_commands(e, e.len() as int) + "\n".spec_bytes()
}

/// A notes commit extends the existing notes tip: the script written with
/// tip `t` is the script written without one, with the single line
/// `from <t>` added right after the `data 0` line of the commit. Returns the
/// parts before `data 0` and after it.
pub proof fn law_blob_notes_commit_extends_tip(e: Seq<(Seq<u8>, Seq<u8>)>, t: Seq<u8>, now: nat) -> (parts: (
    Seq<u8>,
    Seq<u8>,
))
    ensures
        blob_notes_script(e, Some(t), now) == parts.0 + "data 0\n".spec_bytes() + "from ".spec_bytes() + t
            + "\n".spec_bytes() + parts.1,
        blob_notes_script(e, None, now) == parts.0 + "data 0\n".spec_bytes() + parts.1,
{
    let pre = "commit refs/notes/ai\n".spec_bytes() + "committer git-ai <git-ai@local> ".spec_bytes()
        + decimal_bytes(now) + " +0000\n".spec_bytes();
    let post = blob_note_commands(e, e.len() as int) + "\n".spec_bytes();
    assert(blob_notes_script(e, Some(t), now) =~= pre + "data 0\n".spec_bytes() + "from ".spec_bytes()
        + t + "\n".spec_bytes() + post);
    assert(blob_notes_script(e, None, now) =~= pre + "data 0\n".spec_bytes() + post);
    (pre, post)
}

/// The same for notes written with their contents: the script written with
/// tip `t` is the script written without one, with the line `from <t>` added
/// right after `data 0`.
pub proof fn law_notes_commit_extends_tip(e: Seq<(Seq<u8>, Seq<u8>)>, t: Seq<u8>, now: nat) -> (parts: (
    Seq<u8>,
    Seq<u8>,
))
    ensures
        notes_script(e, Some(t), now) == parts.0 + "data 0\n".spec_bytes() + "from ".spec_bytes() + t
            + "\n".spec_bytes() + parts.1,
        notes_script(e, None, now) == parts.0 + "data 0\n".spec_bytes() + parts.1,
{
    let b = blob_commands(e, e.len() as int);
    let m = marked_note_commands(e, e.len() as int);
    let nl = "\n".spec_bytes();
    let d = "data 0\n".spec_bytes();
    let f = "from ".spec_bytes();
    let p = "commit refs/notes/ai\n".spec_bytes() + "committer git-ai <git-ai@local> ".spec_bytes()
        + decimal_bytes(now) + " +0000\n".spec_bytes();
    assert(commit_header(Some(t), now) == p + d + (f + t + nl));
    assert(commit_header(None, now) =~= p + d);
    assert(notes_script(e, Some(t), now) == b + (p + d + (f + t + nl)) + m + nl);
    assert(notes_script(e, None, now) == b + (p + d) + m + nl);
    lemma_regroup_header(b, p, d, f, t, nl, m);
    (b + p, m + nl)
}

proof fn lemma_regroup_header(
    b: Seq<u8>,
    p: Seq<u8>,
    d: Seq<u8>,
    f: Seq<u8>,
    t: Seq<u8>,
    nl: Seq<u8>,
    m: Seq<u8>,
)
    ensures
        b + (p + d + (f + t + nl)) + m + nl == (b + p) + d + f + t + nl + (m + nl),
        b + (p + d) + m + nl == (b + p) + d + (m + nl),
{
    assert(b + (p + d + (f + t + nl)) + m + nl =~= (b + p) + d + f + t + nl + (m + nl));
    assert(b + (p + d) + m + nl =~= (b + p) + d + (m + nl));
}

pub open spec fn tip_bytes(tip: Option<String>) -> Option<Seq<u8>> {
    match tip {
        Some(t) => Some(encode_utf8(t@)),
        None => None,
    }
}

/// A batch of notes to write: the `git fast-import` script, and the entries it
/// writes (one per commit).
pub struct NotesUpdate {
    pub script: Vec<u8>,
    pub entries: Vec<(String, String)>,
}

fn push_blob_command(out: &mut Vec<u8>, k: usize, content: &[u8])
    requires
        k < usize::MAX,
    ensures
        final(out)@ == old(out)@ + blob_command(k as int, content@),
{
    let ghost base = out@;
    push_str(out, "blob\n");
    push_str(out, "mark :");
    let m = decimal((k + 1) as u64);
    push_bytes(out, m.as_slice());
    push_str(out, "\n");
    push_str(out, "data ");
    let d = decimal(content.len() as u64);
    push_bytes(out, d.as_slice());
    push_str(out, "\n");
    push_bytes(out, content);
    push_str(out, "\n");
    assert(out@ =~= base + blob_command(k as int, content@));
}

fn push_commit_header(out: &mut Vec<u8>, existing_tip: &Option<String>, now: u64)
    ensures
        final(out)@ == old(out)@ + commit_header(tip_bytes(*existing_tip), now as nat),
{
    let ghost start = out@;
    push_str(out, "commit refs/notes/ai\n");
    push_str(out, "committer git-ai <git-ai@local> ");
    let d = decimal(now);
    push_bytes(out, d.as_slice());
    push_str(out, " +0000\n");
    push_str(out, "data 0\n");
    let ghost mid = out@;
    match existing_tip {
        Some(t) => {
            push_str(out, "from ");
            push_str(out, t.as_str());
            push_str(out, "\n");
        },
        None => {},
    }
    assert(out@ =~= start + commit_header(tip_bytes(*existing_tip), now as nat));
}

fn push_note_command(out: &mut Vec<u8>, sha: &String, dataref: &[u8])
    requires
        splits_cleanly(encode_utf8(sha@)),
    ensures
        final(out)@ == old(out)@ + note_command(encode_utf8(sha@), dataref@),
{
    let ghost start = out@;
    let fanout = notes_path_for_object(sha.as_str());
    let paths = note_paths_for_object(sha.as_str());
    let ghost pb = encoded_paths(paths@);
    let mut k: usize = 0;
    while k < paths.len()
        invariant
            k <= paths.len(),
            pb == encoded_paths(paths@),
            out@ == start + delete_commands(pb.take(k as int)),
        decreases paths.len() - k,
    {
        assert(pb.take(k + 1).drop_last() =~= pb.take(k as int));
        push_str(out, "D ");
        push_str(out, paths[k].as_str());
        push_str(out, "\n");
        k = k + 1;
        assert(out@ =~= start + delete_commands(pb.take(k as int)));
    }
    assert(pb.take(paths.len() as int) =~= pb);
    push_str(out, "M 100644 ");
    push_bytes(out, dataref);
    push_str(out, " ");
    push_str(out, fanout.as_str());
    push_str(out, "\n");
    assert(out@ =~= start + note_command(encode_utf8(sha@), dataref@));
}

/// Builds the `git fast-import` script that stores `entries` (commit, note
/// content) as notes under `refs/notes/ai`, committed at time `now` (seconds
/// since the epoch) on top of `existing_tip` when the notes ref exists. Only
/// the last entry given for a commit is written. `None` when there is nothing
/// to write.
pub fn notes_add_batch(entries: &Vec<(String, String)>, existing_tip: &Option<String>, now: u64) -> (r:
    Option<NotesUpdate>)
    requires
        forall|i: int| 0 <= i < entries.len() ==> splits_cleanly(#[trigger] encode_utf8(entries@[i].0@)),
    ensures
        entries.len() == 0 ==> r is None,
        entries.len() > 0 ==> (r matches Some(u) && {
            &&& pairs_view(u.entries@) == latest_entries(pairs_view(entries@))
            &&& u.script@ == notes_script(
                pairs_bytes(latest_entries(pairs_view(entries@))),
                tip_bytes(*existing_tip),
                now as nat,
            )
        }),
{
    if entries.len() == 0 {
        return None;
    }
    let deduped = dedup_note_entries(entries);
    proof {
        lemma_latest_from_in(pairs_view(entries@), 0);
        assert forall|i: int| 0 <= i < deduped.len() implies splits_cleanly(
            #[trigger] encode_utf8(deduped@[i].0@),
        ) by {
            let ev = pairs_view(entries@);
            assert(pairs_view(deduped@)[i] == latest_from(ev, 0)[i]);
            let j = choose|j: int| 0 <= j < ev.len() && ev[j] == latest_from(ev, 0)[i];
            assert(ev[j].0 == entries@[j].0@);
            assert(splits_cleanly(encode_utf8(entries@[j].0@)));
        }
    }
    let ghost e = pairs_bytes(pairs_view(deduped@));
    let mut script: Vec<u8> = Vec::new();
    let mut k: usize = 0;
    while k < deduped.len()
        invariant
            k <= deduped.len(),
            e == pairs_bytes(pairs_view(deduped@)),
            script@ == blob_commands(e, k as int),
        decreases deduped.len() - k,
    {
        let content = deduped[k].1.as_str().as_bytes();
        assert(e[k as int].1 == content@);
        push_blob_command(&mut script, k, content);
        k = k + 1;
    }
    push_commit_header(&mut script, existing_tip, now);
    let ghost after_header = script@;
    let mut k: usize = 0;
    while k < deduped.len()
        invariant
            k <= deduped.len(),
            e == pairs_bytes(pairs_view(deduped@)),
            forall|i: int| 0 <= i < deduped.len() ==> splits_cleanly(#[trigger] encode_utf8(deduped@[i].0@)),
            script@ == after_header + marked_note_commands(e, k as int),
        decreases deduped.len() - k,
    {
        let mut mark: Vec<u8> = Vec::new();
        push_str(&mut mark, ":");
        let m = decimal((k + 1) as u64);
        push_bytes(&mut mark, m.as_slice());
        assert(splits_cleanly(encode_utf8(deduped@[k as int].0@)));
        push_note_command(&mut script, &deduped[k].0, mark.as_slice());
        k = k + 1;
    }
    push_str(&mut script, "\n");
    assert(script@ =~= notes_script(e, tip_bytes(*existing_tip), now as nat));
    Some(NotesUpdate { script, entries: deduped })
}

/// Stores one note: `notes_add_batch` with the single entry
/// `(commit_sha, note_content)`.
pub fn notes_add(commit_sha: &String, note_content: &String, existing_tip: &Option<String>, now: u64) -> (r:
    NotesUpdate)
    requires
        splits_cleanly(encode_utf8(commit_sha@)),
    ensures
        pairs_view(r.entries@) == seq![(commit_sha@, note_content@)],
        r.script@ == notes_script(
            seq![(encode_utf8(commit_sha@), encode_utf8(note_content@))],
            tip_bytes(*existing_tip),
            now as nat,
        ),
{
    let mut entries: Vec<(String, String)> = Vec::new();
    entries.push((commit_sha.clone(), note_content.clone()));
    let ghost ev = pairs_view(entries@);
    assert(ev =~= seq![(commit_sha@, note_content@)]);
    proof {
        law_single_entry_is_latest(commit_sha@, note_content@);
    }
    let r = notes_add_batch(&entries, existing_tip, now);
    r.unwrap()
}

/// One entry is its own latest entry: `notes_add` writes exactly what
/// `notes_add_batch` writes for the single entry `(commit, note)`.
pub proof fn law_single_entry_is_latest(commit: Seq<char>, note: Seq<char>)
    ensures
        latest_entries(seq![(commit, note)]) == seq![(commit, note)],
        pairs_bytes(latest_entries(seq![(commit, note)])) == seq![(encode_utf8(commit), encode_utf8(note))],
{
    let ev = seq![(commit, note)];
    assert(!superseded(ev, 0));
    assert(latest_from(ev, 1) =~= Seq::empty());
    assert(latest_entries(ev) =~= ev);
    assert(pairs_bytes(ev) =~= seq![(encode_utf8(commit), encode_utf8(note))]);
}

/// Builds the `git fast-import` script that points the notes of `entries`
/// (commit, note blob object id) at existing blobs, as in `notes_add_batch`.
pub fn notes_add_blob_batch(entries: &Vec<(String, String)>, existing_tip: &Option<String>, now: u64) -> (r:
    Option<NotesUpdate>)
    requires
        forall|i: int| 0 <= i < entries.len() ==> splits_cleanly(#[trigger] encode_utf8(entries@[i].0@)),
    ensures
        entries.len() == 0 ==> r is None,
        entries.len() > 0 ==> (r matches Some(u) && {
            &&& pairs_view(u.entries@) == latest_entries(pairs_view(entries@))
            &&& u.script@ == blob_notes_script(
                pairs_bytes(latest_entries(pairs_view(entries@))),
                tip_bytes(*existing_tip),
                now as nat,
            )
        }),
{
    if entries.len() == 0 {
        return None;
    }
    let deduped = dedup_note_entries(entries);
    proof {
        lemma_latest_from_in(pairs_view(entries@), 0);
        assert forall|i: int| 0 <= i < deduped.len() implies splits_cleanly(
            #[trigger] encode_utf8(deduped@[i].0@),
        ) by {
            let ev = pairs_view(entries@);
            assert(pairs_view(deduped@)[i] == latest_from(ev, 0)[i]);
            let j = choose|j: int| 0 <= j < ev.len() && ev[j] == latest_from(ev, 0)[i];
            assert(ev[j].0 == entries@[j].0@);
            assert(splits_cleanly(encode_utf8(entries@[j].0@)));
        }
    }
    let ghost e = pairs_bytes(pairs_view(deduped@));
    let mut script: Vec<u8> = Vec::new();
    push_commit_header(&mut script, existing_tip, now);
    let ghost after_header = script@;
    let mut k: usize = 0;
    while k < deduped.len()
        invariant
            k <= deduped.len(),
            e == pairs_bytes(pairs_view(deduped@)),
            forall|i: int| 0 <= i < deduped.len() ==> splits_cleanly(#[trigger] encode_utf8(deduped@[i].0@)),
            script@ == after_header + blob_note_commands(e, k as int),
        decreases deduped.len() - k,
    {
        assert(splits_cleanly(encode_utf8(deduped@[k as int].0@)));
        push_note_command(&mut script, &deduped[k].0, deduped[k].1.as_str().as_bytes());
        k = k + 1;
    }
    push_str(&mut script, "\n");
    assert(script@ =~= blob_notes_script(e, tip_bytes(*existing_tip), now as nat));
    Some(NotesUpdate { script, entries: deduped })
}

/// Every entry of `latest_from(e, k)` is an entry of `e` at some index `>= k`.
proof fn lemma_latest_from_in(e: Seq<(Seq<char>, Seq<char>)>, k: int)
    requires
        0 <= k,
    ensures
        forall|t: int|
            #![trigger latest_from(e, k)[t]]
            0 <= t < latest_from(e, k).len() ==> exists|j: int|
                k <= j < e.len() && e[j] == latest_from(e, k)[t],
    decreases e.len() - k,
{
    if k < e.len() {
        lemma_latest_from_in(e, k + 1);
        let r = latest_from(e, k);
        let r1 = latest_from(e, k + 1);
        if !superseded(e, k) {
            assert forall|t: int|
                #![trigger r[t]]
                0 <= t < r.len() implies exists|j: int| k <= j < e.len() && e[j] == r[t] by {
                if t == 0 {
                    assert(e[k] == r[0]);
                } else {
                    assert(r[t] == r1[t - 1]);
                }
            }
        }
    }
}


// ---------------------------------------------------------------------------
// Deciding what to write.
/// How a git command ended.
pub enum GitOutcome {
    /// It exited successfully with this standard output.
    Success(Vec<u8>),
    /// It exited unsuccessfully, with this exit code if it had one.
    Failed(Option<i32>),
    /// It could not be run.
    NotRun,
}

pub open spec fn existing_tip_spec(outcome: GitOutcome) -> Result<Option<Seq<char>>, NotesError> {
    match outcome {
        GitOutcome::Success(out) => if valid_utf8(out@) {
            Ok(Some(trim_spec(vstd::utf8::decode_utf8(out@))))
        } else {
            Err(NotesError::InvalidUtf8)
        },
        GitOutcome::Failed(Some(code)) => if code == 128 || code == 1 {
            Ok(None)
        } else {
            Err(NotesError::GitFailed)
        },
        _ => Err(NotesError::GitFailed),
    }
}

/// The current tip of `refs/notes/ai` from how `git rev-parse --verify
/// refs/notes/ai` ended: its trimmed output on success; none when git exits
/// with code 128 or 1 (the ref does not exist); an error otherwise.
pub fn existing_notes_tip(outcome: &GitOutcome) -> (r: Result<Option<String>, NotesError>)
    ensures
        match existing_tip_spec(*outcome) {
            Ok(Some(t)) => r matches Ok(Some(s)) && s@ == t,
            Ok(None) => r matches Ok(None),
            Err(e) => r == Err::<Option<String>, NotesError>(e),
        },
{
    match outcome {
        GitOutcome::Success(out) => match utf8_str(out.as_slice()) {
            Some(text) => Ok(Some(trim_str(text))),
            None => Err(NotesError::InvalidUtf8),
        },
        GitOutcome::Failed(Some(code)) => {
            if *code == 128 || *code == 1 {
                Ok(None)
            } else {
                Err(NotesError::GitFailed)
            }
        },
        _ => Err(NotesError::GitFailed),
    }
}

/// The value for `key` in `(key, value)` pairs with distinct keys.
pub open spec fn lookup(v: Seq<(Seq<char>, Seq<char>)>, key: Seq<char>) -> Option<Seq<char>> {
    let i = crate::authorship::key_index_from(v, key, 0);
    if i >= 0 {
        Some(v[i].1)
    } else {
        None
    }
}

fn find_pair(v: &Vec<(String, String)>, key: &String) -> (r: Option<usize>)
    ensures
        match r {
            Some(j) => j < v.len() && j as int == crate::authorship::key_index_from(
                pairs_view(v@),
                key@,
                0,
            ),
            None => crate::authorship::key_index_from(pairs_view(v@), key@, 0) < 0,
        },
{
    let ghost pv = pairs_view(v@);
    let mut i: usize = 0;
    while i < v.len()
        invariant
            i <= v.len(),
            pv == pairs_view(v@),
            crate::authorship::key_index_from(pv, key@, 0) == crate::authorship::key_index_from(
                pv,
                key@,
                i as int,
            ),
        decreases v.len() - i,
    {
        if v[i].0 == *key {
            return Some(i);
        }
        i = i + 1;
    }
    None
}

/// `(commit, source note)` for each commit, in order, that has a note under
/// the source ref and none locally.
pub open spec fn missing_notes_spec(
    shas: Seq<Seq<char>>,
    source: Seq<(Seq<char>, Seq<char>)>,
    local: Seq<(Seq<char>, Seq<char>)>,
) -> Seq<(Seq<char>, Seq<char>)>
    decreases shas.len(),
{
    if shas.len() == 0 {
        Seq::empty()
    } else {
        let rest = missing_notes_spec(shas.drop_last(), source, local);
        let sha = shas.last();
        if lookup(local, sha) is None && lookup(source, sha) is Some {
            rest.push((sha, lookup(source, sha)->0))
        } else {
            rest
        }
    }
}

/// The notes to copy from another notes ref: for each of `commit_shas` that has
/// a note there (`source_note_oids`, commit to note blob) but none under the
/// authorship ref (`local_note_oids`), the pair `(commit, note blob)`. The
/// number copied is the length of the result.
pub fn copy_missing_notes_for_commits_from_ref(
    commit_shas: &Vec<String>,
    source_note_oids: &Vec<(String, String)>,
    local_note_oids: &Vec<(String, String)>,
) -> (entries: Vec<(String, String)>)
    ensures
        pairs_view(entries@) == missing_notes_spec(
            strings_view(commit_shas@),
            pairs_view(source_note_oids@),
            pairs_view(local_note_oids@),
        ),
{
    let ghost sv = strings_view(commit_shas@);
    let ghost src = pairs_view(source_note_oids@);
    let ghost loc = pairs_view(local_note_oids@);
    let mut entries: Vec<(String, String)> = Vec::new();
    let mut i: usize = 0;
    assert(pairs_view(entries@) =~= Seq::empty());
    while i < commit_shas.len()
        invariant
            i <= commit_shas.len(),
            sv == strings_view(commit_shas@),
            src == pairs_view(source_note_oids@),
            loc == pairs_view(local_note_oids@),
            pairs_view(entries@) == missing_notes_spec(sv.take(i as int), src, loc),
        decreases commit_shas.len() - i,
    {
        assert(sv.take(i + 1).drop_last() =~= sv.take(i as int));
        let sha = &commit_shas[i];
        proof {
            crate::authorship::lemma_key_index_bounds(src, sha@, 0);
        }
        assert(sha@ == sv.take(i + 1).last());
        let ghost before = pairs_view(entries@);
        if find_pair(local_note_oids, sha).is_none() {
            match find_pair(source_note_oids, sha) {
                Some(j) => {
                    entries.push((sha.clone(), source_note_oids[j].1.clone()));
                    assert(j as int == crate::authorship::key_index_from(src, sha@, 0));
                    assert(lookup(src, sha@) == Some(src[j as int].1));
                    assert(pairs_view(entries@) =~= before.push((sv[i as int], src[j as int].1)));
                },
                None => {
                    assert(lookup(src, sha@) is None);
                },
            }
        } else {
            assert(lookup(loc, sha@) is Some);
        }
        assert(pairs_view(entries@) == missing_notes_spec(sv.take(i + 1), src, loc));
        i = i + 1;
    }
    assert(sv.take(commit_shas.len() as int) =~= sv);
    entries
}

/// The keys of `(key, value)` pairs.
pub open spec fn pair_keys(v: Seq<(Seq<char>, Seq<char>)>) -> Seq<Seq<char>> {
    v.map_values(|p: (Seq<char>, Seq<char>)| p.0)
}

/// The commits that have an authorship note, from the `(commit, note blob)`
/// pairs found for them.
pub fn commits_with_authorship_notes(note_oids: &Vec<(String, String)>) -> (commits: Vec<String>)
    ensures
        strings_view(commits@) == pair_keys(pairs_view(note_oids@)),
{
    let mut commits: Vec<String> = Vec::new();
    let mut i: usize = 0;
    while i < note_oids.len()
        invariant
            i <= note_oids.len(),
            strings_view(commits@) == pair_keys(pairs_view(note_oids@).take(i as int)),
        decreases note_oids.len() - i,
    {
        let ghost prev = pairs_view(note_oids@).take(i as int);
        commits.push(note_oids[i].0.clone());
        assert(pairs_view(note_oids@).take(i + 1) =~= prev.push(pairs_view(note_oids@)[i as int]));
        assert(pair_keys(prev.push(pairs_view(note_oids@)[i as int])) =~= pair_keys(prev).push(
            note_oids@[i as int].0@,
        ));
        i = i + 1;
        assert(strings_view(commits@) =~= pair_keys(pairs_view(note_oids@).take(i as int)));
    }
    assert(pairs_view(note_oids@).take(note_oids.len() as int) =~= pairs_view(note_oids@));
    commits
}

/// Every note copied is one a commit has under the source ref and lacks
/// locally, pointing at the source note's blob. Given copied entry `w`, this
/// returns the commit `i` it copies.
pub proof fn law_copied_notes_are_missing_ones(
    shas: Seq<Seq<char>>,
    source: Seq<(Seq<char>, Seq<char>)>,
    local: Seq<(Seq<char>, Seq<char>)>,
    w: int,
) -> (i: int)
    requires
        0 <= w < missing_notes_spec(shas, source, local).len(),
    ensures
        0 <= i < shas.len(),
        missing_notes_spec(shas, source, local)[w].0 == shas[i],
        lookup(local, shas[i]) is None,
        lookup(source, shas[i]) == Some(missing_notes_spec(shas, source, local)[w].1),
    decreases shas.len(),
{
    let s0 = shas.drop_last();
    let r0 = missing_notes_spec(s0, source, local);
    if w < r0.len() {
        let i = law_copied_notes_are_missing_ones(s0, source, local, w);
        assert(s0[i] == shas[i]);
        i
    } else {
        shas.len() - 1
    }
}

/// Every commit with a note under the source ref and none locally gets that
/// note copied. Given such a commit `i`, this returns its copied entry `w`.
pub proof fn law_every_missing_note_is_copied(
    shas: Seq<Seq<char>>,
    source: Seq<(Seq<char>, Seq<char>)>,
    local: Seq<(Seq<char>, Seq<char>)>,
    i: int,
) -> (w: int)
    requires
        0 <= i < shas.len(),
        lookup(local, shas[i]) is None,
        lookup(source, shas[i]) is Some,
    ensures
        0 <= w < missing_notes_spec(shas, source, local).len(),
        missing_notes_spec(shas, source, local)[w] == (shas[i], lookup(source, shas[i])->0),
    decreases shas.len(),
{
    let s0 = shas.drop_last();
    let r0 = missing_notes_spec(s0, source, local);
    if i < shas.len() - 1 {
        assert(s0[i] == shas[i]);
        law_every_missing_note_is_copied(s0, source, local, i)
    } else {
        r0.len() as int
    }
}

/// `(commit, note content)` for each written entry whose blob content is known.
pub open spec fn hook_entries_spec(
    entries: Seq<(Seq<char>, Seq<char>)>,
    contents: Seq<(Seq<char>, Seq<char>)>,
) -> Seq<(Seq<char>, Seq<char>)>
    decreases entries.len(),
{
    if entries.len() == 0 {
        Seq::empty()
    } else {
        let rest = hook_entries_spec(entries.drop_last(), contents);
        match lookup(contents, entries.last().1) {
            Some(c) => rest.push((entries.last().0, c)),
            None => rest,
        }
    }
}

/// The hooks receive only written entries, each with its note blob's known
/// content. Given hook entry `w`, this returns the written entry `i` it is.
pub proof fn law_hook_entries_are_written_notes(
    entries: Seq<(Seq<char>, Seq<char>)>,
    contents: Seq<(Seq<char>, Seq<char>)>,
    w: int,
) -> (i: int)
    requires
        0 <= w < hook_entries_spec(entries, contents).len(),
    ensures
        0 <= i < entries.len(),
        hook_entries_spec(entries, contents)[w].0 == entries[i].0,
        lookup(contents, entries[i].1) == Some(hook_entries_spec(entries, contents)[w].1),
    decreases entries.len(),
{
    let e0 = entries.drop_last();
    let r0 = hook_entries_spec(e0, contents);
    if w < r0.len() {
        let i = law_hook_entries_are_written_notes(e0, contents, w);
        assert(e0[i] == entries[i]);
        i
    } else {
        entries.len() - 1
    }
}

/// Every written entry whose note blob's content is known reaches the hooks
/// with that content. Given such an entry `i`, this returns its hook entry.
pub proof fn law_hooks_receive_every_known_note(
    entries: Seq<(Seq<char>, Seq<char>)>,
    contents: Seq<(Seq<char>, Seq<char>)>,
    i: int,
) -> (w: int)
    requires
        0 <= i < entries.len(),
        lookup(contents, entries[i].1) is Some,
    ensures
        0 <= w < hook_entries_spec(entries, contents).len(),
        hook_entries_spec(entries, contents)[w] == (entries[i].0, lookup(contents, entries[i].1)->0),
    decreases entries.len(),
{
    let e0 = entries.drop_last();
    let r0 = hook_entries_spec(e0, contents);
    if i < entries.len() - 1 {
        assert(e0[i] == entries[i]);
        law_hooks_receive_every_known_note(e0, contents, i)
    } else {
        r0.len() as int
    }
}

/// What the notes-updated hooks receive after `notes_add_blob_batch`: for each
/// written entry (commit, note blob), in order, the commit and the content of
/// its note blob, where `blob_contents` (blob to content) knows it.
pub fn notes_updated_hook_entries(
    entries: &Vec<(String, String)>,
    blob_contents: &Vec<(String, String)>,
) -> (r: Vec<(String, String)>)
    ensures
        pairs_view(r@) == hook_entries_spec(pairs_view(entries@), pairs_view(blob_contents@)),
{
    let ghost ev = pairs_view(entries@);
    let ghost cv = pairs_view(blob_contents@);
    let mut r: Vec<(String, String)> = Vec::new();
    let mut i: usize = 0;
    assert(pairs_view(r@) =~= Seq::empty());
    while i < entries.len()
        invariant
            i <= entries.len(),
            ev == pairs_view(entries@),
            cv == pairs_view(blob_contents@),
            pairs_view(r@) == hook_entries_spec(ev.take(i as int), cv),
        decreases entries.len() - i,
    {
        assert(ev.take(i + 1).drop_last() =~= ev.take(i as int));
        proof {
            crate::authorship::lemma_key_index_bounds(cv, ev[i as int].1, 0);
        }
        let ghost before = pairs_view(r@);
        assert(ev.take(i + 1).last() == ev[i as int]);
        match find_pair(blob_contents, &entries[i].1) {
            Some(j) => {
                r.push((entries[i].0.clone(), blob_contents[j].1.clone()));
                assert(lookup(cv, ev[i as int].1) == Some(cv[j as int].1));
                assert(pairs_view(r@) =~= before.push((ev[i as int].0, cv[j as int].1)));
            },
            None => {
                assert(lookup(cv, ev[i as int].1) is None);
            },
        }
        assert(pairs_view(r@) == hook_entries_spec(ev.take(i + 1), cv));
        i = i + 1;
    }
    assert(ev.take(entries.len() as int) =~= ev);
    r
}

// ---------------------------------------------------------------------------
// Laws of batching notes.
/// After keeping the last entry per commit, no commit appears twice.
pub proof fn law_latest_entries_distinct(e: Seq<(Seq<char>, Seq<char>)>)
    ensures
        forall|a: int, b: int|
            0 <= a < b < latest_entries(e).len() ==> #[trigger] latest_entries(e)[a].0
                != #[trigger] latest_entries(e)[b].0,
{
    lemma_latest_from_distinct(e, 0);
}

proof fn lemma_latest_from_distinct(e: Seq<(Seq<char>, Seq<char>)>, k: int)
    requires
        0 <= k,
    ensures
        forall|a: int, b: int|
            0 <= a < b < latest_from(e, k).len() ==> #[trigger] latest_from(e, k)[a].0
                != #[trigger] latest_from(e, k)[b].0,
    decreases e.len() - k,
{
    if k < e.len() {
        lemma_latest_from_distinct(e, k + 1);
        lemma_latest_from_in(e, k + 1);
        let r = latest_from(e, k);
        let r1 = latest_from(e, k + 1);
        if !superseded(e, k) {
            assert forall|a: int, b: int| 0 <= a < b < r.len() implies #[trigger] r[a].0
                != #[trigger] r[b].0 by {
                if a == 0 {
                    assert(r[b] == r1[b - 1]);
                    let j = choose|j: int| k + 1 <= j < e.len() && e[j] == r1[b - 1];
                    assert(r[0] == e[k]);
                    if e[j].0 == e[k].0 {
                        assert(superseded(e, k));
                    }
                } else {
                    assert(r[a] == r1[a - 1]);
                    assert(r[b] == r1[b - 1]);
                }
            }
        }
    }
}

/// The last entry given for a commit is the one that is kept: for every entry
/// that no later entry supersedes, the kept entries include it.
pub proof fn law_latest_entry_kept(e: Seq<(Seq<char>, Seq<char>)>, k: int)
    requires
        0 <= k < e.len(),
        !superseded(e, k),
    ensures
        latest_entries(e).contains(e[k]),
{
    lemma_latest_from_keeps(e, 0, k);
}

proof fn lemma_latest_from_keeps(e: Seq<(Seq<char>, Seq<char>)>, from: int, k: int)
    requires
        0 <= from <= k < e.len(),
        !superseded(e, k),
    ensures
        latest_from(e, from).contains(e[k]),
    decreases k - from,
{
    if from == k {
        assert(latest_from(e, from)[0] == e[k]);
    } else {
        lemma_latest_from_keeps(e, from + 1, k);
        let r1 = latest_from(e, from + 1);
        let w = choose|w: int| 0 <= w < r1.len() && r1[w] == e[k];
        if !superseded(e, from) {
            assert(latest_from(e, from)[w + 1] == e[k]);
        }
    }
}


// ---------------------------------------------------------------------------
// Reading note blobs with `git cat-file --batch`.
/// Each object id on a line of its own.
pub open spec fn oid_lines(oids: Seq<Seq<u8>>) -> Seq<u8>
    decreases oids.len(),
{
    if oids.len() == 0 {
        Seq::empty()
    } else {
        oid_lines(oids.drop_last()) + oids.last() + seq![10u8]
    }
}

/// The input for `git cat-file --batch` that reads `blob_oids`: the ids joined
/// by newlines, with a final newline. `None` when there is nothing to read
/// (then nothing is read).
pub fn cat_file_batch_input(blob_oids: &Vec<String>) -> (r: Option<Vec<u8>>)
    ensures
        blob_oids.len() == 0 ==> r is None,
        blob_oids.len() > 0 ==> (r matches Some(input) && input@ == oid_lines(
            strings_bytes(blob_oids@),
        )),
{
    if blob_oids.len() == 0 {
        return None;
    }
    let ghost ob = strings_bytes(blob_oids@);
    let mut input: Vec<u8> = Vec::new();
    let mut i: usize = 0;
    while i < blob_oids.len()
        invariant
            i <= blob_oids.len(),
            ob == strings_bytes(blob_oids@),
            input@ == oid_lines(ob.take(i as int)),
        decreases blob_oids.len() - i,
    {
        assert(ob.take(i + 1).drop_last() =~= ob.take(i as int));
        push_str(&mut input, blob_oids[i].as_str());
        input.push(10u8);
        i = i + 1;
    }
    assert(ob.take(blob_oids.len() as int) =~= ob);
    Some(input)
}

/// Lexicographic order of character sequences (the order of `String`).
pub open spec fn lex_lt(a: Seq<char>, b: Seq<char>) -> bool
    decreases a.len(),
{
    if a.len() == 0 {
        b.len() > 0
    } else if b.len() == 0 {
        false
    } else if (a[0] as u32) < (b[0] as u32) {
        true
    } else if a[0] == b[0] {
        lex_lt(a.drop_first(), b.drop_first())
    } else {
        false
    }
}

proof fn lemma_lex_irreflexive(a: Seq<char>)
    ensures
        !lex_lt(a, a),
    decreases a.len(),
{
    if a.len() > 0 {
        lemma_lex_irreflexive(a.drop_first());
    }
}

proof fn lemma_lex_trichotomy(a: Seq<char>, b: Seq<char>)
    ensures
        lex_lt(a, b) || lex_lt(b, a) || a == b,
    decreases a.len(),
{
    if a.len() > 0 && b.len() > 0 && a[0] == b[0] {
        lemma_lex_trichotomy(a.drop_first(), b.drop_first());
        if a.drop_first() == b.drop_first() {
            assert forall|k: int| 0 <= k < a.len() implies a[k] == b[k] by {
                if k > 0 {
                    assert(a[k] == a.drop_first()[k - 1]);
                    assert(b[k] == b.drop_first()[k - 1]);
                }
            }
            assert(a =~= b);
        }
    } else if a.len() > 0 && b.len() > 0 {
        vstd::utf8::char_u32_cast(a[0], a[0] as u32);
        vstd::utf8::char_u32_cast(b[0], b[0] as u32);
    } else if a.len() == 0 && b.len() == 0 {
        assert(a =~= b);
    }
}

proof fn lemma_lex_transitive(a: Seq<char>, b: Seq<char>, c: Seq<char>)
    requires
        lex_lt(a, b),
        lex_lt(b, c),
    ensures
        lex_lt(a, c),
    decreases a.len(),
{
    if a.len() > 0 && b.len() > 0 && c.len() > 0 && a[0] == b[0] && b[0] == c[0] {
        lemma_lex_transitive(a.drop_first(), b.drop_first(), c.drop_first());
    }
}

/// Whether `a` sorts before `b`.
fn string_lt(a: &String, b: &String) -> (r: bool)
    ensures
        r == lex_lt(a@, b@),
{
    let x = crate::text::chars_of(a.as_str());
    let y = crate::text::chars_of(b.as_str());
    let mut i: usize = 0;
    assert(x@.skip(0) =~= x@);
    assert(y@.skip(0) =~= y@);
    while i < x.len() && i < y.len() && x[i] == y[i]
        invariant
            i <= x.len(),
            i <= y.len(),
            x@ == a@,
            y@ == b@,
            lex_lt(a@, b@) == lex_lt(x@.skip(i as int), y@.skip(i as int)),
        decreases x.len() - i,
    {
        assert(x@.skip(i as int).drop_first() =~= x@.skip(i + 1));
        assert(y@.skip(i as int).drop_first() =~= y@.skip(i + 1));
        i = i + 1;
    }
    if i == x.len() {
        return i < y.len();
    }
    if i == y.len() {
        return false;
    }
    (x[i] as u32) < (y[i] as u32)
}

/// Strictly increasing in lexicographic order.
pub open spec fn strictly_sorted(v: Seq<Seq<char>>) -> bool {
    forall|a: int, b: int| 0 <= a < b < v.len() ==> lex_lt(#[trigger] v[a], #[trigger] v[b])
}

/// The note blobs of `entries` (commit, blob), each once, in increasing order:
/// the blobs whose contents the notes-updated hooks need.
pub fn unique_blob_oids(entries: &Vec<(String, String)>) -> (oids: Vec<String>)
    ensures
        strictly_sorted(strings_view(oids@)),
        forall|x: Seq<char>|
            strings_view(oids@).contains(x) <==> pairs_view(entries@).map_values(
                |p: (Seq<char>, Seq<char>)| p.1,
            ).contains(x),
{
    let ghost vals = pairs_view(entries@).map_values(|p: (Seq<char>, Seq<char>)| p.1);
    let mut oids: Vec<String> = Vec::new();
    let mut i: usize = 0;
    while i < entries.len()
        invariant
            i <= entries.len(),
            vals == pairs_view(entries@).map_values(|p: (Seq<char>, Seq<char>)| p.1),
            strictly_sorted(strings_view(oids@)),
            forall|x: Seq<char>|
                strings_view(oids@).contains(x) <==> vals.take(i as int).contains(x),
        decreases entries.len() - i,
    {
        let x = &entries[i].1;
        assert(vals[i as int] == x@);
        let ghost before = strings_view(oids@);
        // The first position whose oid does not sort before `x`.
        let mut p: usize = 0;
        while p < oids.len() && string_lt(&oids[p], x)
            invariant
                p <= oids.len(),
                forall|k: int| 0 <= k < p ==> lex_lt(#[trigger] strings_view(oids@)[k], x@),
            decreases oids.len() - p,
        {
            p = p + 1;
        }
        let present = p < oids.len() && oids[p] == *x;
        if !present {
            proof {
                if p < oids.len() {
                    lemma_lex_trichotomy(before[p as int], x@);
                }
            }
            oids.insert(p, x.clone());
            let ghost after = strings_view(oids@);
            assert(after =~= before.insert(p as int, x@));
            assert forall|a: int, b: int| 0 <= a < b < after.len() implies lex_lt(
                #[trigger] after[a],
                #[trigger] after[b],
            ) by {
                if b < p {
                } else if b == p {
                } else if a < p {
                    if a + 1 < b {
                        assert(after[b] == before[b - 1]);
                        if b - 1 > p {
                            lemma_lex_transitive(x@, before[p as int], before[b - 1]);
                        }
                        lemma_lex_transitive(after[a], x@, after[b]);
                    } else {
                        lemma_lex_transitive(after[a], x@, after[b]);
                    }
                } else if a == p {
                    if b - 1 > p {
                        lemma_lex_transitive(x@, before[p as int], before[b - 1]);
                    }
                } else {
                    assert(after[a] == before[a - 1]);
                    assert(after[b] == before[b - 1]);
                }
            }
            assert forall|y: Seq<char>| after.contains(y) <==> vals.take(i + 1).contains(y) by {
                assert(vals.take(i + 1) =~= vals.take(i as int).push(x@));
                if vals.take(i as int).contains(y) {
                    let j = choose|j: int| 0 <= j < i && #[trigger] vals.take(i as int)[j] == y;
                    assert(vals.take(i + 1)[j] == y);
                }
                if vals.take(i + 1).contains(y) {
                    let j = choose|j: int| 0 <= j <= i && #[trigger] vals.take(i + 1)[j] == y;
                    if j < i {
                        assert(vals.take(i as int)[j] == y);
                    }
                }
                assert(vals.take(i + 1)[i as int] == x@);
                if after.contains(y) {
                    let w = choose|w: int| 0 <= w < after.len() && after[w] == y;
                    if w < p {
                        assert(before[w] == y);
                        assert(before.contains(y));
                        assert(vals.take(i as int).contains(y));
                    } else if w > p {
                        assert(before[w - 1] == y);
                        assert(before.contains(y));
                        assert(vals.take(i as int).contains(y));
                    } else {
                        assert(y == x@);
                    }
                }
                if before.contains(y) {
                    let w = choose|w: int| 0 <= w < before.len() && before[w] == y;
                    if w < p {
                        assert(after[w] == y);
                    } else {
                        assert(after[w + 1] == y);
                    }
                }
                if y == x@ {
                    assert(after[p as int] == y);
                }
            }
        } else {
            assert(before[p as int] == x@);
            assert forall|y: Seq<char>| before.contains(y) <==> vals.take(i + 1).contains(y) by {
                assert(vals.take(i + 1) =~= vals.take(i as int).push(x@));
                if vals.take(i as int).contains(y) {
                    let j = choose|j: int| 0 <= j < i && #[trigger] vals.take(i as int)[j] == y;
                    assert(vals.take(i + 1)[j] == y);
                }
                if vals.take(i + 1).contains(y) {
                    let j = choose|j: int| 0 <= j <= i && #[trigger] vals.take(i + 1)[j] == y;
                    if j < i {
                        assert(vals.take(i as int)[j] == y);
                    }
                }
            }
        }
        i = i + 1;
    }
    assert(vals.take(entries.len() as int) =~= vals);
    oids
}


// ---------------------------------------------------------------------------
// Laws of note paths.
/// A note is written at the fanout path of its commit, and a lookup asks for
/// every note path of the commit: the paths include the flat id and the fanout
/// path, so a written note is among those looked up, and no path is asked for
/// twice.
pub proof fn law_note_paths_cover_written_path(b: Seq<u8>)
    ensures
        note_path_bytes(b).contains(b),
        note_path_bytes(b).contains(fanout_path_bytes(b)),
        forall|i: int, j: int|
            0 <= i < j < note_path_bytes(b).len() ==> #[trigger] note_path_bytes(b)[i]
                != #[trigger] note_path_bytes(b)[j],
{
    let p1 = seq![b];
    let two = fanout_path_bytes(b);
    let p2 = if p1.contains(two) {
        p1
    } else {
        p1.push(two)
    };
    assert(p2[0] == b);
    if p1.contains(two) {
        assert(p2.contains(two));
    } else {
        assert(p2[1] == two);
    }
    assert(forall|i: int, j: int| 0 <= i < j < p2.len() ==> p2[i] != p2[j]);
    let r = note_path_bytes(b);
    if b.len() > 4 {
        let three = three_level_path_bytes(b);
        if !p2.contains(three) {
            assert(r == p2.push(three));
            assert(r[0] == b);
            assert forall|i: int, j: int| 0 <= i < j < r.len() implies #[trigger] r[i]
                != #[trigger] r[j] by {
                if j == p2.len() {
                    assert(r[i] == p2[i]);
                }
            }
            let w = choose|w: int| 0 <= w < p2.len() && p2[w] == two;
            assert(r[w] == two);
        }
    }
}

} // verus!
