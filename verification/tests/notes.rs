use git_ai_core::batch::{parse_cat_file_batch_output_with_oids, CatFileError};
use git_ai_core::notes::{
    cat_file_batch_input, commits_with_authorship_notes, copy_missing_notes_for_commits_from_ref,
    decimal, dedup_note_entries, existing_notes_tip, note_blob_oids_for_commits,
    note_blob_oids_for_commits_from_ref, note_blob_oids_request, note_paths_for_object,
    notes_add, notes_add_batch, notes_add_blob_batch, notes_path_for_object,
    notes_updated_hook_entries, parse_batch_check_blob_oid, unique_blob_oids, GitOutcome,
    NotesError,
};

fn s(x: &str) -> String {
    x.to_string()
}

#[test]
fn test_note_paths_for_object_includes_flat_two_and_three_level_paths() {
    let oid = "abcdef1234567890abcdef1234567890abcdef12";
    assert_eq!(
        note_paths_for_object(oid),
        vec![
            "abcdef1234567890abcdef1234567890abcdef12".to_string(),
            "ab/cdef1234567890abcdef1234567890abcdef12".to_string(),
            "ab/cd/ef1234567890abcdef1234567890abcdef12".to_string(),
        ]
    );
}

#[test]
fn short_ids_have_fewer_paths() {
    assert_eq!(note_paths_for_object("ab"), vec![s("ab")]);
    assert_eq!(note_paths_for_object("abc"), vec![s("abc"), s("ab/c")]);
    assert_eq!(note_paths_for_object("abcd"), vec![s("abcd"), s("ab/cd")]);
    assert_eq!(
        note_paths_for_object("abcde"),
        vec![s("abcde"), s("ab/cde"), s("ab/cd/e")]
    );
    assert_eq!(notes_path_for_object("abcdef"), s("ab/cdef"));
}

#[test]
fn cat_file_batch_reads_objects() {
    let data = b"aaa blob 5\nhello\nbbb missing\nccc blob 3\nxyz\nddd blob 0\n\n";
    let r = parse_cat_file_batch_output_with_oids(data).unwrap();
    assert_eq!(
        r,
        vec![(s("aaa"), s("hello")), (s("ccc"), s("xyz")), (s("ddd"), s(""))]
    );
}

#[test]
fn cat_file_batch_later_object_replaces_earlier() {
    let data = b"aaa blob 1\nx\naaa blob 1\ny\n";
    let r = parse_cat_file_batch_output_with_oids(data).unwrap();
    assert_eq!(r, vec![(s("aaa"), s("y"))]);
}

#[test]
fn cat_file_batch_skips_short_headers_and_stops_without_newline() {
    let data = b"onlyone\naaa blob +2\nhi\ntrailing";
    let r = parse_cat_file_batch_output_with_oids(data).unwrap();
    assert_eq!(r, vec![(s("aaa"), s("hi"))]);
}

#[test]
fn cat_file_batch_errors() {
    assert_eq!(
        parse_cat_file_batch_output_with_oids(b"aaa blob x\n"),
        Err(CatFileError::InvalidSize)
    );
    assert_eq!(
        parse_cat_file_batch_output_with_oids(b"aaa blob -1\n"),
        Err(CatFileError::InvalidSize)
    );
    assert_eq!(
        parse_cat_file_batch_output_with_oids(b"aaa blob 10\nshort\n"),
        Err(CatFileError::TruncatedContent)
    );
    assert_eq!(
        parse_cat_file_batch_output_with_oids(b"a\xffa blob 1\nx\n"),
        Err(CatFileError::InvalidHeader)
    );
}

#[test]
fn cat_file_batch_decodes_content_lossily() {
    let data = b"aaa blob 3\na\xffb\n";
    let r = parse_cat_file_batch_output_with_oids(data).unwrap();
    assert_eq!(r, vec![(s("aaa"), s("a\u{FFFD}b"))]);
}

#[test]
fn batch_check_request_lists_every_path() {
    let commits = vec![s("abcde")];
    let req = note_blob_oids_request("refs/notes/x", &commits).unwrap();
    assert_eq!(
        String::from_utf8(req).unwrap(),
        "refs/notes/x:abcde\nrefs/notes/x:ab/cde\nrefs/notes/x:ab/cd/e\n"
    );
    assert!(note_blob_oids_request("refs/notes/x", &Vec::new()).is_none());
    let req = note_blob_oids_for_commits(&vec![s("abc")]).unwrap();
    assert_eq!(
        String::from_utf8(req).unwrap(),
        "refs/notes/ai:abc\nrefs/notes/ai:ab/c\n"
    );
}

#[test]
fn batch_check_output_gives_first_blob_per_commit() {
    // commit "abcde" has three paths, "abc" has two.
    let commits = vec![s("abcde"), s("abc")];
    let out = b"refs/notes/ai:abcde missing\n1111 blob 10\n2222 blob 12\nrefs/notes/ai:abc missing\nrefs/notes/ai:ab/c missing\n";
    let r = note_blob_oids_for_commits_from_ref(&commits, out).unwrap();
    assert_eq!(r, vec![(s("abcde"), s("1111"))]);
}

#[test]
fn batch_check_output_that_ends_early() {
    let commits = vec![s("abc"), s("def")];
    let out = b"x missing\n";
    let r = note_blob_oids_for_commits_from_ref(&commits, out).unwrap();
    assert!(r.is_empty());
    assert_eq!(
        note_blob_oids_for_commits_from_ref(&commits, b"\xff\n"),
        Err(NotesError::InvalidUtf8)
    );
    assert!(note_blob_oids_for_commits_from_ref(&Vec::new(), b"\xff").unwrap().is_empty());
}

#[test]
fn batch_check_line_parsing() {
    assert_eq!(parse_batch_check_blob_oid("abc blob 12"), Some(s("abc")));
    assert_eq!(parse_batch_check_blob_oid("abc tree 12"), None);
    assert_eq!(parse_batch_check_blob_oid("refs/notes/ai:x missing"), None);
    assert_eq!(parse_batch_check_blob_oid(""), None);
}

#[test]
fn dedup_keeps_last_entry_per_commit() {
    let entries = vec![
        (s("a"), s("1")),
        (s("b"), s("2")),
        (s("a"), s("3")),
        (s("c"), s("4")),
        (s("b"), s("5")),
    ];
    assert_eq!(
        dedup_note_entries(&entries),
        vec![(s("a"), s("3")), (s("c"), s("4")), (s("b"), s("5"))]
    );
}

#[test]
fn decimal_digits() {
    assert_eq!(decimal(0), b"0".to_vec());
    assert_eq!(decimal(7), b"7".to_vec());
    assert_eq!(decimal(1234567890), b"1234567890".to_vec());
    assert_eq!(decimal(u64::MAX), u64::MAX.to_string().into_bytes());
}

#[test]
fn notes_add_batch_script() {
    let entries = vec![(s("abc"), s("old")), (s("abc"), s("note")), (s("xy"), s("n2"))];
    let u = notes_add_batch(&entries, &Some(s("tip123")), 1700000000).unwrap();
    let expected = "blob\nmark :1\ndata 4\nnote\n\
blob\nmark :2\ndata 2\nn2\n\
commit refs/notes/ai\ncommitter git-ai <git-ai@local> 1700000000 +0000\ndata 0\nfrom tip123\n\
D abc\nD ab/c\nM 100644 :1 ab/c\n\
D xy\nM 100644 :2 xy\n\n";
    assert_eq!(String::from_utf8(u.script).unwrap(), expected);
    assert_eq!(u.entries, vec![(s("abc"), s("note")), (s("xy"), s("n2"))]);
    assert!(notes_add_batch(&Vec::new(), &None, 1).is_none());
}

#[test]
fn notes_add_single() {
    let u = notes_add(&s("abcdef"), &s("héllo"), &None, 5);
    let expected = "blob\nmark :1\ndata 6\nhéllo\n\
commit refs/notes/ai\ncommitter git-ai <git-ai@local> 5 +0000\ndata 0\n\
D abcdef\nD ab/cdef\nD ab/cd/ef\nM 100644 :1 ab/cdef\n\n";
    assert_eq!(String::from_utf8(u.script).unwrap(), expected);
}

#[test]
fn notes_add_blob_batch_script() {
    let entries = vec![(s("abc"), s("b1")), (s("abc"), s("b2"))];
    let u = notes_add_blob_batch(&entries, &None, 9).unwrap();
    let expected = "commit refs/notes/ai\ncommitter git-ai <git-ai@local> 9 +0000\ndata 0\n\
D abc\nD ab/c\nM 100644 b2 ab/c\n\n";
    assert_eq!(String::from_utf8(u.script).unwrap(), expected);
    assert!(notes_add_blob_batch(&Vec::new(), &None, 9).is_none());
}

#[test]
fn existing_tip_outcomes() {
    assert_eq!(
        existing_notes_tip(&GitOutcome::Success(b" abc\n".to_vec())),
        Ok(Some(s("abc")))
    );
    assert_eq!(existing_notes_tip(&GitOutcome::Failed(Some(128))), Ok(None));
    assert_eq!(existing_notes_tip(&GitOutcome::Failed(Some(1))), Ok(None));
    assert_eq!(
        existing_notes_tip(&GitOutcome::Failed(Some(2))),
        Err(NotesError::GitFailed)
    );
    assert_eq!(
        existing_notes_tip(&GitOutcome::Failed(None)),
        Err(NotesError::GitFailed)
    );
    assert_eq!(existing_notes_tip(&GitOutcome::NotRun), Err(NotesError::GitFailed));
    assert_eq!(
        existing_notes_tip(&GitOutcome::Success(vec![0xff])),
        Err(NotesError::InvalidUtf8)
    );
}

#[test]
fn copy_missing_selects_commits_without_local_notes() {
    let commits = vec![s("a"), s("b"), s("c"), s("d")];
    let source = vec![(s("a"), s("ba")), (s("b"), s("bb")), (s("d"), s("bd"))];
    let local = vec![(s("b"), s("lb"))];
    assert_eq!(
        copy_missing_notes_for_commits_from_ref(&commits, &source, &local),
        vec![(s("a"), s("ba")), (s("d"), s("bd"))]
    );
}

#[test]
fn commits_with_notes_are_the_keys() {
    let oids = vec![(s("a"), s("1")), (s("b"), s("2"))];
    assert_eq!(commits_with_authorship_notes(&oids), vec![s("a"), s("b")]);
}

#[test]
fn hook_entries_use_known_blob_contents() {
    let entries = vec![(s("c1"), s("b1")), (s("c2"), s("b2")), (s("c3"), s("b1"))];
    let contents = vec![(s("b1"), s("note one"))];
    assert_eq!(
        notes_updated_hook_entries(&entries, &contents),
        vec![(s("c1"), s("note one")), (s("c3"), s("note one"))]
    );
}

#[test]
fn unique_blob_oids_sorted() {
    let entries = vec![(s("c1"), s("bb")), (s("c2"), s("a")), (s("c3"), s("bb")), (s("c4"), s("ab"))];
    assert_eq!(unique_blob_oids(&entries), vec![s("a"), s("ab"), s("bb")]);
}

#[test]
fn cat_file_input_joins_ids() {
    assert_eq!(
        cat_file_batch_input(&vec![s("x"), s("y")]).unwrap(),
        b"x\ny\n".to_vec()
    );
    assert!(cat_file_batch_input(&Vec::new()).is_none());
}

#[test]
fn cat_file_output_reads_back_to_the_last_content_per_object() {
    let items: Vec<(&str, &[u8])> = vec![
        ("aaaa", b"one\ntwo"),
        ("bbbb", b""),
        ("aaaa", b"three\n"),
        ("cccc", b"\xff!"),
    ];
    let mut data = Vec::new();
    for (oid, content) in &items {
        data.extend_from_slice(format!("{} blob {}\n", oid, content.len()).as_bytes());
        data.extend_from_slice(content);
        data.push(b'\n');
    }
    let r = parse_cat_file_batch_output_with_oids(&data).unwrap();
    assert_eq!(
        r,
        vec![
            ("aaaa".to_string(), "three\n".to_string()),
            ("bbbb".to_string(), String::new()),
            ("cccc".to_string(), "\u{FFFD}!".to_string()),
        ]
    );
}
