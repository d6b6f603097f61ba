use git_ai_core::attribution::{override_attribution, override_attributions, LineAttribution};
use git_ai_core::authorship::{
    extract_attributions_from_log_shifted, file_needs_shift, merge_records_into, shift_plan, raw_attributions, AttestationEntry,
    AuthorshipLog, AuthorshipMetadata, FileAttestation, LineRange,
};

fn la(s: u32, e: u32, a: &str) -> LineAttribution {
    LineAttribution::new(s, e, a.to_string(), None)
}

fn view(v: &[LineAttribution]) -> Vec<(u32, u32, String)> {
    v.iter().map(|a| (a.start_line, a.end_line, a.author_id.clone())).collect()
}

fn t(s: u32, e: u32, a: &str) -> (u32, u32, String) {
    (s, e, a.to_string())
}

#[test]
fn override_removes_covered_and_trims_partial() {
    let mut existing = vec![la(1, 3, "a"), la(4, 6, "b"), la(7, 12, "c"), la(20, 25, "d")];
    override_attribution(&mut existing, la(3, 8, "n"));
    assert_eq!(
        view(&existing),
        vec![t(20, 25, "d"), t(1, 2, "a"), t(9, 12, "c"), t(3, 8, "n")]
    );
}

#[test]
fn override_claims_every_line_of_the_new_range() {
    let mut existing = vec![la(1, 10, "a"), la(5, 5, "b"), la(8, 15, "c")];
    override_attribution(&mut existing, la(4, 9, "n"));
    let last = existing.last().unwrap();
    assert_eq!((last.start_line, last.end_line), (4, 9));
    for a in &existing[..existing.len() - 1] {
        for line in 4..=9 {
            assert!(!(a.start_line <= line && line <= a.end_line));
        }
    }
}

#[test]
fn override_of_a_containing_range_keeps_head_and_tail() {
    // The older range 1..=10 spans the new range 4..=6: only lines 4..=6 change hands.
    let mut existing = vec![la(1, 10, "a")];
    override_attribution(&mut existing, la(4, 6, "n"));
    assert_eq!(view(&existing), vec![t(1, 3, "a"), t(7, 10, "a"), t(4, 6, "n")]);
}

#[test]
fn overrides_keep_every_line_attributed_once() {
    let mut existing = vec![la(1, 4, "a"), la(6, 20, "b")];
    override_attributions(&mut existing, vec![la(3, 8, "c"), la(10, 12, "d"), la(2, 2, "e")]);
    for line in 1..=20u32 {
        let owners = existing.iter().filter(|a| a.start_line <= line && line <= a.end_line).count();
        assert_eq!(owners, 1, "line {}", line);
    }
    assert_eq!(view(&existing[existing.len() - 1..]), vec![t(2, 2, "e")]);
}

#[test]
fn extract_keeps_the_tail_of_a_containing_older_range() {
    let first = log("f", vec![("A", vec![LineRange::Range(1, 10)])], vec![]);
    let second = log("f", vec![("B", vec![LineRange::Range(4, 6)])], vec![]);
    let mut files = Vec::new();
    let (mut p, mut s, mut h) = (Vec::new(), Vec::new(), Vec::new());
    extract_attributions_from_log_shifted(&first, &None, &vec![None], &mut files, &mut p, &mut s, &mut h);
    extract_attributions_from_log_shifted(&second, &None, &vec![None], &mut files, &mut p, &mut s, &mut h);
    assert_eq!(view(&files[0].1), vec![t(1, 3, "A"), t(7, 10, "A"), t(4, 6, "B")]);
}

#[test]
fn override_keeps_overrode_field() {
    let mut existing = vec![LineAttribution::new(1, 5, "a".to_string(), Some("h".to_string()))];
    override_attributions(&mut existing, vec![la(4, 9, "n")]);
    assert_eq!(existing[0].overrode, Some("h".to_string()));
    assert_eq!(view(&existing), vec![t(1, 3, "a"), t(4, 9, "n")]);
}

fn log(path: &str, entries: Vec<(&str, Vec<LineRange>)>, prompts: Vec<(&str, &str)>) -> AuthorshipLog {
    AuthorshipLog {
        attestations: vec![FileAttestation {
            file_path: path.to_string(),
            entries: entries
                .into_iter()
                .map(|(h, r)| AttestationEntry { hash: h.to_string(), line_ranges: r })
                .collect(),
        }],
        metadata: AuthorshipMetadata {
            prompts: prompts.into_iter().map(|(k, v)| (k.to_string(), v.to_string())).collect(),
            sessions: Vec::new(),
            humans: Vec::new(),
        },
    }
}

#[test]
fn raw_attributions_follow_entries_and_ranges() {
    let l = log(
        "f",
        vec![("h1", vec![LineRange::Single(3), LineRange::Range(5, 7)]), ("h2", vec![LineRange::Range(9, 9)])],
        vec![],
    );
    assert_eq!(
        view(&raw_attributions(&l.attestations[0])),
        vec![t(3, 3, "h1"), t(5, 7, "h1"), t(9, 9, "h2")]
    );
}

#[test]
fn extract_merges_logs_with_later_override() {
    let first = log("f", vec![("old", vec![LineRange::Range(1, 10)])], vec![("p", "first")]);
    let second = log("f", vec![("new", vec![LineRange::Range(8, 12)])], vec![("p", "second"), ("q", "x")]);
    let mut files = Vec::new();
    let mut prompts = Vec::new();
    let mut sessions = Vec::new();
    let mut humans = Vec::new();
    extract_attributions_from_log_shifted(&first, &None, &vec![None], &mut files, &mut prompts, &mut sessions, &mut humans);
    extract_attributions_from_log_shifted(&second, &None, &vec![None], &mut files, &mut prompts, &mut sessions, &mut humans);
    assert_eq!(files.len(), 1);
    assert_eq!(files[0].0, "f");
    assert_eq!(view(&files[0].1), vec![t(1, 7, "old"), t(8, 12, "new")]);
    assert_eq!(
        prompts,
        vec![("p".to_string(), "first".to_string()), ("q".to_string(), "x".to_string())]
    );
}

#[test]
fn extract_uses_shifted_attributions_where_the_file_has_hunks() {
    let l = log("f", vec![("h", vec![LineRange::Range(1, 2)])], vec![]);
    let mut files = Vec::new();
    let (mut p, mut s, mut h) = (Vec::new(), Vec::new(), Vec::new());
    let hunks = Some(vec![("f".to_string(), 2usize)]);
    extract_attributions_from_log_shifted(&l, &hunks, &vec![Some(vec![la(11, 12, "h")])], &mut files, &mut p, &mut s, &mut h);
    assert_eq!(view(&files[0].1), vec![t(11, 12, "h")]);
}

#[test]
fn extract_keeps_own_lines_without_hunks_for_the_file() {
    let l = log("f", vec![("h", vec![LineRange::Range(1, 2)])], vec![]);
    for hunks in [None, Some(vec![("g".to_string(), 3usize)]), Some(vec![("f".to_string(), 0usize)])] {
        let mut files = Vec::new();
        let (mut p, mut s, mut h) = (Vec::new(), Vec::new(), Vec::new());
        extract_attributions_from_log_shifted(&l, &hunks, &vec![Some(vec![la(11, 12, "h")])], &mut files, &mut p, &mut s, &mut h);
        assert_eq!(view(&files[0].1), vec![t(1, 2, "h")]);
    }
}

#[test]
fn shift_plan_follows_hunks_per_file() {
    let mut l = log("f", vec![("h", vec![LineRange::Single(1)])], vec![]);
    for path in ["g", "k"] {
        l.attestations.push(FileAttestation { file_path: path.to_string(), entries: Vec::new() });
    }
    let hunks = Some(vec![("g".to_string(), 1usize), ("f".to_string(), 0usize)]);
    assert_eq!(shift_plan(&l, &hunks), vec![false, true, false]);
    assert_eq!(shift_plan(&l, &None), vec![false, false, false]);
    assert!(file_needs_shift(&hunks, &"g".to_string()));
}

#[test]
fn first_record_wins() {
    let mut acc = vec![("k".to_string(), "v1".to_string())];
    merge_records_into(&mut acc, &vec![("k".to_string(), "v2".to_string()), ("j".to_string(), "w".to_string()), ("j".to_string(), "w2".to_string())]);
    assert_eq!(acc, vec![("k".to_string(), "v1".to_string()), ("j".to_string(), "w".to_string())]);
}

#[test]
fn extract_ends_every_attested_file_with_its_newest_attribution() {
    let mut l = log("f", vec![("a", vec![LineRange::Range(1, 5), LineRange::Range(9, 9)])], vec![]);
    l.attestations.push(FileAttestation {
        file_path: "g".to_string(),
        entries: vec![AttestationEntry { hash: "b".to_string(), line_ranges: vec![LineRange::Single(2)] }],
    });
    l.attestations.push(FileAttestation {
        file_path: "f".to_string(),
        entries: vec![AttestationEntry { hash: "c".to_string(), line_ranges: vec![LineRange::Range(3, 4)] }],
    });
    l.attestations.push(FileAttestation { file_path: "g".to_string(), entries: Vec::new() });
    let mut files = vec![("g".to_string(), vec![la(7, 8, "old")])];
    let (mut p, mut s, mut h) = (Vec::new(), Vec::new(), Vec::new());
    extract_attributions_from_log_shifted(&l, &None, &vec![None, None, None, None], &mut files, &mut p, &mut s, &mut h);
    assert_eq!(files.len(), 2);
    assert_eq!(files[0].0, "g");
    assert_eq!(view(&files[0].1).last().unwrap(), &t(2, 2, "b"));
    assert_eq!(files[1].0, "f");
    assert_eq!(view(&files[1].1).last().unwrap(), &t(3, 4, "c"));
}
