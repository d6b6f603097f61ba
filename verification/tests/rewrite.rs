use git_ai_core::attribution::LineAttribution;
use git_ai_core::authorship::{
    AttestationEntry, AuthorshipLog, AuthorshipMetadata, CollectedAttributions, FileAttestation,
    LineRange,
};
use git_ai_core::rewrite::{
    collect_reset_attributions, handle_cherry_pick_no_commit,
    reconstruct_working_log_after_backward_reset, reset_diff_indices, reset_diff_pairs, staged_file_blobs,
    ResetAction,
};

fn log(files: Vec<(&str, &str, Vec<LineRange>)>) -> AuthorshipLog {
    AuthorshipLog {
        attestations: files
            .into_iter()
            .map(|(p, h, r)| FileAttestation {
                file_path: p.to_string(),
                entries: vec![AttestationEntry { hash: h.to_string(), line_ranges: r }],
            })
            .collect(),
        metadata: AuthorshipMetadata {
            prompts: vec![("pr".to_string(), "x".to_string())],
            sessions: Vec::new(),
            humans: vec![("hu".to_string(), "y".to_string())],
        },
    }
}

fn view(v: &[LineAttribution]) -> Vec<(u32, u32, String)> {
    v.iter().map(|a| (a.start_line, a.end_line, a.author_id.clone())).collect()
}

#[test]
fn no_commit_nothing_without_sources_or_head() {
    let logs = vec![Some(log(vec![("f", "h", vec![LineRange::Single(1)])]))];
    assert!(handle_cherry_pick_no_commit(&vec![], "head", &logs).is_none());
    assert!(handle_cherry_pick_no_commit(&vec!["s".to_string()], "", &logs).is_none());
}

#[test]
fn no_commit_nothing_without_usable_logs() {
    let empty = AuthorshipLog {
        attestations: Vec::new(),
        metadata: AuthorshipMetadata { prompts: Vec::new(), sessions: Vec::new(), humans: Vec::new() },
    };
    let logs = vec![None, Some(empty)];
    assert!(handle_cherry_pick_no_commit(&vec!["s".to_string()], "head", &logs).is_none());
}

#[test]
fn no_commit_appends_attributions_per_file() {
    let logs = vec![
        Some(log(vec![("f", "h1", vec![LineRange::Range(1, 5)]), ("g", "h1", vec![LineRange::Single(2)])])),
        None,
        Some(log(vec![("f", "h2", vec![LineRange::Range(3, 4)])])),
    ];
    let c = handle_cherry_pick_no_commit(&vec!["a".to_string(), "b".to_string()], "head", &logs).unwrap();
    assert_eq!(c.files.len(), 2);
    assert_eq!(c.files[0].0, "f");
    assert_eq!(
        view(&c.files[0].1),
        vec![(1, 5, "h1".to_string()), (3, 4, "h2".to_string())]
    );
    assert_eq!(c.files[1].0, "g");
    assert_eq!(c.prompts, vec![("pr".to_string(), "x".to_string())]);
    let blobs = staged_file_blobs(&c.files, &vec![b"content".to_vec(), Vec::new()]);
    assert_eq!(blobs, vec![("f".to_string(), "content".to_string())]);
}

#[test]
fn reset_diff_pairs_skip_old_tip() {
    let shas = vec!["a".to_string(), "tip".to_string(), "b".to_string()];
    assert_eq!(
        reset_diff_pairs(&shas, &"tip".to_string()),
        vec![
            ("a".to_string(), "tip".to_string()),
            ("b".to_string(), "tip".to_string())
        ]
    );
}

#[test]
fn reset_later_commits_override() {
    let logs = vec![
        log(vec![("f", "old", vec![LineRange::Range(1, 10)])]),
        log(vec![("f", "new", vec![LineRange::Range(5, 6)])]),
    ];
    let shifted = vec![vec![None], vec![None]];
    let c = collect_reset_attributions(&logs, &vec![None, None], &shifted);
    assert_eq!(
        view(&c.files[0].1),
        vec![(1, 4, "old".to_string()), (7, 10, "old".to_string()), (5, 6, "new".to_string())]
    );
}

#[test]
fn reset_shifts_only_logs_whose_diff_touches_the_file() {
    let logs = vec![
        log(vec![("f", "a", vec![LineRange::Range(1, 2)])]),
        log(vec![("f", "b", vec![LineRange::Range(5, 6)])]),
    ];
    let moved = LineAttribution::new(3, 4, "a".to_string(), None);
    let shifted = vec![vec![Some(vec![moved])], vec![None]];
    let hunks = vec![Some(vec![("f".to_string(), 1usize)]), None];
    let c = collect_reset_attributions(&logs, &hunks, &shifted);
    assert_eq!(
        view(&c.files[0].1),
        vec![(3, 4, "a".to_string()), (5, 6, "b".to_string())]
    );
}

#[test]
fn reset_diff_indices_point_at_each_commits_pair() {
    let shas = vec!["a".to_string(), "tip".to_string(), "b".to_string()];
    let tip = "tip".to_string();
    let idx = reset_diff_indices(&shas, &tip);
    assert_eq!(idx, vec![Some(0), None, Some(1)]);
    let pairs = reset_diff_pairs(&shas, &tip);
    assert_eq!(pairs[idx[2].unwrap()].0, "b");
}

fn collected() -> CollectedAttributions {
    CollectedAttributions {
        files: vec![
            ("a".to_string(), vec![LineAttribution::new(1, 1, "h".to_string(), None)]),
            ("b".to_string(), vec![LineAttribution::new(2, 2, "h".to_string(), None)]),
            ("c".to_string(), vec![LineAttribution::new(3, 3, "h".to_string(), None)]),
        ],
        prompts: vec![("p".to_string(), "v".to_string())],
        sessions: Vec::new(),
        humans: Vec::new(),
    }
}

#[test]
fn reset_keeps_files_with_uncommitted_content() {
    let old = vec![b"A1".to_vec(), Vec::new(), b"C1".to_vec()];
    let new = vec![b"A0".to_vec(), b"B0".to_vec(), b"C1".to_vec()];
    match reconstruct_working_log_after_backward_reset(collected(), &old, &new) {
        ResetAction::Rewrite { attributions, file_blobs } => {
            assert_eq!(file_blobs, vec![("a".to_string(), "A1".to_string())]);
            assert_eq!(attributions.files.len(), 1);
            assert_eq!(attributions.files[0].0, "a");
            assert_eq!(attributions.prompts, vec![("p".to_string(), "v".to_string())]);
        }
        _ => panic!("expected a rewrite"),
    }
}

#[test]
fn reset_hard_discards_old_log() {
    let old = vec![b"A".to_vec(), b"B".to_vec(), b"C".to_vec()];
    let new = old.clone();
    assert!(matches!(
        reconstruct_working_log_after_backward_reset(collected(), &old, &new),
        ResetAction::DiscardOldLog
    ));
}

#[test]
fn reset_without_attributions_changes_nothing() {
    let c = CollectedAttributions { files: Vec::new(), prompts: Vec::new(), sessions: Vec::new(), humans: Vec::new() };
    assert!(matches!(
        reconstruct_working_log_after_backward_reset(c, &vec![], &vec![]),
        ResetAction::Unchanged
    ));
}

#[test]
fn reset_compares_contents_after_lossy_decoding() {
    // Two different invalid bytes decode to the same replacement character.
    let old = vec![b"x\xff".to_vec(), b"y".to_vec(), b"z".to_vec()];
    let new = vec![b"x\xfe".to_vec(), b"y".to_vec(), b"z".to_vec()];
    assert!(matches!(
        reconstruct_working_log_after_backward_reset(collected(), &old, &new),
        ResetAction::DiscardOldLog
    ));
}
