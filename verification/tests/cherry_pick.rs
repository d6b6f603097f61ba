use git_ai_core::cherry_pick::{
    cherry_pick_arg_kind, expand_cherry_pick_sources, is_full_sha, new_commits_since,
    commits_in_rev_list, patch_id_from_output, patch_id_from_stdout, CherryPickArg,
    PendingCherryPick,
};
use git_ai_core::pairing::match_cherry_pick_pairs;

fn no_ids(n: usize) -> Vec<Option<String>> {
    vec![None; n]
}

fn positional_pair(sources: &[String], new_commits: &[String]) -> Vec<(String, String)> {
    let sources = sources.to_vec();
    let new_commits = new_commits.to_vec();
    match_cherry_pick_pairs(&sources, &new_commits, &no_ids(sources.len()), &no_ids(new_commits.len()))
}

#[test]
fn match_cherry_pick_pairs_empty_sources() {
    let sources: Vec<String> = Vec::new();
    let new_commits = vec!["abc".repeat(13) + "a"]; // 40 chars
    assert!(sources.is_empty());
    assert_eq!(
        positional_pair(&sources, &new_commits),
        Vec::<(String, String)>::new()
    );
}

#[test]
fn match_cherry_pick_pairs_empty_new_commits() {
    let sources = vec!["a".repeat(40)];
    let new_commits: Vec<String> = Vec::new();
    assert_eq!(
        positional_pair(&sources, &new_commits),
        Vec::<(String, String)>::new()
    );
}

#[test]
fn positional_pairing_equal_lengths() {
    let sources = vec!["a".repeat(40), "b".repeat(40), "c".repeat(40)];
    let new_commits = vec!["d".repeat(40), "e".repeat(40), "f".repeat(40)];
    let pairs = positional_pair(&sources, &new_commits);
    assert_eq!(pairs.len(), 3);
    assert_eq!(pairs[0], ("a".repeat(40), "d".repeat(40)));
    assert_eq!(pairs[1], ("b".repeat(40), "e".repeat(40)));
    assert_eq!(pairs[2], ("c".repeat(40), "f".repeat(40)));
}

#[test]
fn positional_pairing_more_sources_than_new() {
    let sources = vec!["a".repeat(40), "b".repeat(40), "c".repeat(40)];
    let new_commits = vec!["d".repeat(40), "e".repeat(40)];
    let pairs = positional_pair(&sources, &new_commits);
    assert_eq!(pairs.len(), 2);
    assert_eq!(pairs[0], ("a".repeat(40), "d".repeat(40)));
    assert_eq!(pairs[1], ("b".repeat(40), "e".repeat(40)));
}

#[test]
fn positional_pairing_more_new_than_sources() {
    let sources = vec!["a".repeat(40)];
    let new_commits = vec!["d".repeat(40), "e".repeat(40)];
    let pairs = positional_pair(&sources, &new_commits);
    assert_eq!(pairs.len(), 1);
    assert_eq!(pairs[0], ("a".repeat(40), "d".repeat(40)));
}

#[test]
fn is_full_sha_valid() {
    assert!(is_full_sha("0123456789abcdef0123456789abcdef01234567"));
    assert!(is_full_sha(&"a".repeat(40)));
}

#[test]
fn is_full_sha_invalid() {
    assert!(!is_full_sha("short"));
    assert!(!is_full_sha(&"g".repeat(40)));
    assert!(!is_full_sha(&"a".repeat(39)));
    assert!(!is_full_sha(&"a".repeat(41)));
    assert!(!is_full_sha(""));
}

#[test]
fn expand_skips_flags() {
    let argv = [
        "-n".to_string(),
        "--no-commit".to_string(),
        "abc123".to_string(),
        "-x".to_string(),
        "def456".to_string(),
    ];
    let non_flag_args: Vec<&String> = argv
        .iter()
        .filter(|a| cherry_pick_arg_kind(a) != CherryPickArg::Flag)
        .collect();
    assert_eq!(non_flag_args, vec!["abc123", "def456"]);
}

#[test]
fn expand_detects_ranges() {
    let argv = ["main..feature".to_string(), "abc123".to_string()];
    let range_args: Vec<&String> = argv
        .iter()
        .filter(|a| cherry_pick_arg_kind(a) == CherryPickArg::Range)
        .collect();
    let single_args: Vec<&String> = argv
        .iter()
        .filter(|a| cherry_pick_arg_kind(a) == CherryPickArg::Single)
        .collect();
    assert_eq!(range_args, vec!["main..feature"]);
    assert_eq!(single_args, vec!["abc123"]);
}

#[test]
fn is_full_sha_accepts_upper_case_hex() {
    assert!(is_full_sha(&"ABCDEF0123".repeat(4)));
    assert!(!is_full_sha(&("é".to_string() + &"a".repeat(39))));
}

#[test]
fn anchored_pairs_follow_patch_ids() {
    let sources = vec!["s1".to_string(), "s2".to_string(), "s3".to_string()];
    let new_commits = vec!["n1".to_string(), "n2".to_string(), "n3".to_string()];
    // s1 matches n3 and s3 matches n1 by patch id; s2 has no patch id.
    let sp = vec![Some("p1".to_string()), None, Some("p3".to_string())];
    let np = vec![Some("p3".to_string()), Some("px".to_string()), Some("p1".to_string())];
    let pairs = match_cherry_pick_pairs(&sources, &new_commits, &sp, &np);
    assert_eq!(
        pairs,
        vec![
            ("s1".to_string(), "n3".to_string()),
            ("s3".to_string(), "n1".to_string()),
            ("s2".to_string(), "n2".to_string()),
        ]
    );
}

#[test]
fn equal_patch_ids_are_taken_in_order() {
    let sources = vec!["s1".to_string(), "s2".to_string()];
    let new_commits = vec!["n1".to_string(), "n2".to_string(), "n3".to_string()];
    let sp = vec![Some("p".to_string()), Some("p".to_string())];
    let np = vec![None, Some("p".to_string()), Some("p".to_string())];
    let pairs = match_cherry_pick_pairs(&sources, &new_commits, &sp, &np);
    assert_eq!(
        pairs,
        vec![
            ("s1".to_string(), "n2".to_string()),
            ("s2".to_string(), "n3".to_string()),
        ]
    );
}

#[test]
fn pair_count_is_the_smaller_side() {
    let sources: Vec<String> = (0..5).map(|i| format!("s{i}")).collect();
    let new_commits: Vec<String> = (0..3).map(|i| format!("n{i}")).collect();
    let sp = vec![Some("a".to_string()), None, Some("b".to_string()), None, Some("c".to_string())];
    let np = vec![Some("c".to_string()), Some("z".to_string()), Some("a".to_string())];
    let pairs = match_cherry_pick_pairs(&sources, &new_commits, &sp, &np);
    assert_eq!(pairs.len(), 3);
    let mut used_new: Vec<&String> = pairs.iter().map(|p| &p.1).collect();
    used_new.sort();
    used_new.dedup();
    assert_eq!(used_new.len(), 3);
}

#[test]
fn expand_resolves_ranges_and_singles() {
    let a = "a".repeat(40);
    let b = "b".repeat(40);
    let c = "c".repeat(40);
    let argv = vec![
        "--no-commit".to_string(),
        "main..feature".to_string(),
        "HEAD~1".to_string(),
        "broken".to_string(),
        "missing".to_string(),
    ];
    let outputs = vec![
        None,
        Some(format!("{a}\n  {b}\r\nnot-a-sha\n\n").into_bytes()),
        Some(format!("  {c}\n").into_bytes()),
        Some(b"fatal: bad revision\n".to_vec()),
        None,
    ];
    let sources = expand_cherry_pick_sources(&argv, &outputs);
    assert_eq!(sources, vec![a, b, c]);
}

#[test]
fn expand_flag_output_is_ignored() {
    let a = "a".repeat(40);
    let argv = vec!["-x".to_string()];
    let outputs = vec![Some(a.into_bytes())];
    assert!(expand_cherry_pick_sources(&argv, &outputs).is_empty());
}

#[test]
fn new_commits_are_trimmed_non_blank_lines() {
    let out = b" abc \n\n\tdef\r\n   \nghi\n\xff\n";
    assert_eq!(
        new_commits_since(Some(out)),
        vec!["abc".to_string(), "def".to_string(), "ghi".to_string(), "\u{FFFD}".to_string()]
    );
    assert!(new_commits_since(None).is_empty());
    assert!(new_commits_since(Some(b"")).is_empty());
    assert_eq!(commits_in_rev_list(Some(" x \n")), vec!["x".to_string()]);
}

#[test]
fn patch_id_is_first_token() {
    assert_eq!(
        patch_id_from_output("  1234abcd 5678ef\n"),
        Some("1234abcd".to_string())
    );
    assert_eq!(patch_id_from_output(" \n\t"), None);
    assert_eq!(patch_id_from_stdout(b"ab\xffcd 12\n"), Some("ab\u{FFFD}cd".to_string()));
    assert_eq!(patch_id_from_stdout(b""), None);
}

#[test]
fn pending_cherry_pick_holds_sources() {
    let p = PendingCherryPick {
        all_sources: vec!["a".to_string()],
        pre_command_head: "h".to_string(),
    };
    assert_eq!(p.all_sources.len(), 1);
    assert_eq!(p.pre_command_head, "h");
}
