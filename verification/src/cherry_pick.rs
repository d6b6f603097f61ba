//! Reading cherry-pick command lines and the git output that resolves them.
use vstd::prelude::*;
use crate::decode::{lossy_string, lossy_utf8};
use crate::text::{
    chars_of,
    split_lines,
    split_whitespace,
    optional_strings_view,
    strings_view,
    text_lines,
    trim_spec,
    trim_str,
    ws_tokens,
};

verus! {

/// A cherry-pick that is in progress: every source commit named on the
/// command line, and HEAD before the command ran.
pub struct PendingCherryPick {
    pub all_sources: Vec<String>,
    pub pre_command_head: String,
}

pub open spec fn is_hex_char(c: char) -> bool {
    ('0' <= c && c <= '9') || ('a' <= c && c <= 'f') || ('A' <= c && c <= 'F')
}

/// A full object id: exactly 40 hexadecimal digits.
pub open spec fn is_full_sha_spec(s: Seq<char>) -> bool {
    s.len() == 40 && forall|i: int| 0 <= i < s.len() ==> is_hex_char(#[trigger] s[i])
}

/// Whether `s` is a full object id: 40 ASCII hexadecimal digits.
pub fn is_full_sha(s: &str) -> (r: bool)
    ensures
        r == is_full_sha_spec(s@),
{
    let v = chars_of(s);
    if v.len() != 40 {
        return false;
    }
    let mut i: usize = 0;
    while i < v.len()
        invariant
            i <= v.len(),
            v@ == s@,
            forall|k: int| 0 <= k < i ==> is_hex_char(#[trigger] v@[k]),
        decreases v.len() - i,
    {
        let c = v[i];
        if !(('0' <= c && c <= '9') || ('a' <= c && c <= 'f') || ('A' <= c && c <= 'F')) {
            return false;
        }
        i = i + 1;
    }
    true
}

/// How a cherry-pick argument is resolved to source commits.
#[derive(PartialEq, Eq, Structural, Debug, Clone, Copy)]
pub enum CherryPickArg {
    /// An option (starts with `-`); it names no commit.
    Flag,
    /// A range `A..B`, listed with `git rev-list --reverse`.
    Range,
    /// A single revision, resolved with `git rev-parse`.
    Single,
}

pub open spec fn has_dot_dot(a: Seq<char>) -> bool {
    exists|i: int| 0 <= i && i + 1 < a.len() && #[trigger] a[i] == '.' && a[i + 1] == '.'
}

pub open spec fn arg_kind(a: Seq<char>) -> CherryPickArg {
    if a.len() > 0 && a[0] == '-' {
        CherryPickArg::Flag
    } else if has_dot_dot(a) {
        CherryPickArg::Range
    } else {
        CherryPickArg::Single
    }
}

/// Classifies a cherry-pick argument: options first, then ranges (`..`).
pub fn cherry_pick_arg_kind(arg: &str) -> (k: CherryPickArg)
    ensures
        k == arg_kind(arg@),
{
    let v = chars_of(arg);
    if v.len() > 0 && v[0] == '-' {
        return CherryPickArg::Flag;
    }
    let mut i: usize = 0;
    while i < v.len()
        invariant
            i <= v.len(),
            v@ == arg@,
            !(v.len() > 0 && v@[0] == '-'),
            forall|k: int| 0 <= k < i && k + 1 < v.len() ==> !(#[trigger] v@[k] == '.' && v@[k + 1]
                == '.'),
        decreases v.len() - i,
    {
        if i + 1 < v.len() && v[i] == '.' && v[i + 1] == '.' {
            assert(v@[i as int] == '.' && v@[i + 1] == '.');
            return CherryPickArg::Range;
        }
        i = i + 1;
    }
    CherryPickArg::Single
}

/// The full object ids among the trimmed `lines`, in order.
pub open spec fn full_sha_lines(lines: Seq<Seq<char>>) -> Seq<Seq<char>>
    decreases lines.len(),
{
    if lines.len() == 0 {
        Seq::empty()
    } else {
        let rest = full_sha_lines(lines.drop_last());
        if is_full_sha_spec(trim_spec(lines.last())) {
            rest.push(trim_spec(lines.last()))
        } else {
            rest
        }
    }
}

/// The trimmed non-blank `lines`, in order.
pub open spec fn nonblank_lines(lines: Seq<Seq<char>>) -> Seq<Seq<char>>
    decreases lines.len(),
{
    if lines.len() == 0 {
        Seq::empty()
    } else {
        let rest = nonblank_lines(lines.drop_last());
        if trim_spec(lines.last()).len() > 0 {
            rest.push(trim_spec(lines.last()))
        } else {
            rest
        }
    }
}

/// The source commits one argument contributes, given the output of the git
/// command that resolves it (`None` if that command failed).
pub open spec fn arg_sources(arg: Seq<char>, output: Option<Seq<char>>) -> Seq<Seq<char>> {
    match arg_kind(arg) {
        CherryPickArg::Flag => Seq::empty(),
        CherryPickArg::Range => match output {
            Some(o) => full_sha_lines(text_lines(o)),
            None => Seq::empty(),
        },
        CherryPickArg::Single => match output {
            Some(o) => if is_full_sha_spec(trim_spec(o)) {
                seq![trim_spec(o)]
            } else {
                Seq::empty()
            },
            None => Seq::empty(),
        },
    }
}

pub open spec fn expand_spec(argv: Seq<Seq<char>>, outputs: Seq<Option<Seq<char>>>) -> Seq<
    Seq<char>,
>
    decreases argv.len(),
{
    if argv.len() == 0 {
        Seq::empty()
    } else {
        expand_spec(argv.drop_last(), outputs.drop_last()) + arg_sources(
            argv.last(),
            outputs.last(),
        )
    }
}

/// The full object ids among the trimmed lines of `output`.
fn full_shas_in_lines(output: &str) -> (r: Vec<String>)
    ensures
        strings_view(r@) == full_sha_lines(text_lines(output@)),
{
    let lines = split_lines(output);
    let ghost lv = strings_view(lines@);
    let mut r: Vec<String> = Vec::new();
    let mut i: usize = 0;
    while i < lines.len()
        invariant
            i <= lines.len(),
            lv == strings_view(lines@),
            lv == text_lines(output@),
            strings_view(r@) == full_sha_lines(lv.take(i as int)),
        decreases lines.len() - i,
    {
        assert(lv.take(i + 1).drop_last() =~= lv.take(i as int));
        let t = trim_str(lines[i].as_str());
        if is_full_sha(t.as_str()) {
            let ghost before = r@;
            r.push(t);
            assert(strings_view(r@) =~= strings_view(before).push(trim_spec(lv[i as int])));
        }
        i = i + 1;
    }
    assert(lv.take(lines.len() as int) =~= lv);
    r
}

/// Resolves the source commits of a cherry-pick command line, from the
/// decoded outputs of git.
///
/// `outputs[i]` is the standard output of the git command run for `argv[i]`
/// (`rev-list --reverse` for a range, `rev-parse` for a single revision), or
/// `None` where no command ran or it failed. Options are skipped; a range
/// contributes every full object id among its trimmed output lines, a single
/// revision its trimmed output if that is a full object id.
pub fn expand_resolved_sources(argv: &Vec<String>, outputs: &Vec<Option<String>>) -> (sources:
    Vec<String>)
    requires
        outputs.len() == argv.len(),
    ensures
        strings_view(sources@) == expand_spec(strings_view(argv@), optional_strings_view(outputs@)),
{
    let ghost av = strings_view(argv@);
    let ghost ov = optional_strings_view(outputs@);
    let mut sources: Vec<String> = Vec::new();
    let mut i: usize = 0;
    while i < argv.len()
        invariant
            i <= argv.len(),
            outputs.len() == argv.len(),
            av == strings_view(argv@),
            ov == optional_strings_view(outputs@),
            strings_view(sources@) == expand_spec(av.take(i as int), ov.take(i as int)),
        decreases argv.len() - i,
    {
        assert(av.take(i + 1).drop_last() =~= av.take(i as int));
        assert(ov.take(i + 1).drop_last() =~= ov.take(i as int));
        let ghost before = strings_view(sources@);
        let kind = cherry_pick_arg_kind(argv[i].as_str());
        match kind {
            CherryPickArg::Flag => {
                assert(arg_sources(av[i as int], ov[i as int]) =~= Seq::<Seq<char>>::empty());
            },
            CherryPickArg::Range => {
                match &outputs[i] {
                    Some(out) => {
                        let mut found = full_shas_in_lines(out.as_str());
                        sources.append(&mut found);
                    },
                    None => {},
                }
            },
            CherryPickArg::Single => {
                match &outputs[i] {
                    Some(out) => {
                        let resolved = trim_str(out.as_str());
                        if is_full_sha(resolved.as_str()) {
                            sources.push(resolved);
                        }
                    },
                    None => {},
                }
            },
        }
        assert(strings_view(sources@) =~= before + arg_sources(av[i as int], ov[i as int]));
        i = i + 1;
    }
    assert(av.take(argv.len() as int) =~= av);
    assert(ov.take(argv.len() as int) =~= ov);
    sources
}

/// The commits listed in the decoded output of `git rev-list --reverse`
/// (`None` if the command failed), oldest first: its trimmed non-blank lines.
pub fn commits_in_rev_list(rev_list_output: Option<&str>) -> (commits: Vec<String>)
    ensures
        match rev_list_output {
            Some(o) => strings_view(commits@) == nonblank_lines(text_lines(o@)),
            None => commits@.len() == 0,
        },
{
    let output = match rev_list_output {
        Some(o) => o,
        None => {
            return Vec::new();
        },
    };
    let lines = split_lines(output);
    let ghost lv = strings_view(lines@);
    let mut r: Vec<String> = Vec::new();
    let mut i: usize = 0;
    while i < lines.len()
        invariant
            i <= lines.len(),
            lv == strings_view(lines@),
            lv == text_lines(output@),
            strings_view(r@) == nonblank_lines(lv.take(i as int)),
        decreases lines.len() - i,
    {
        assert(lv.take(i + 1).drop_last() =~= lv.take(i as int));
        let t = trim_str(lines[i].as_str());
        if !t.as_str().is_empty() {
            let ghost before = r@;
            r.push(t);
            assert(strings_view(r@) =~= strings_view(before).push(trim_spec(lv[i as int])));
        }
        i = i + 1;
    }
    assert(lv.take(lines.len() as int) =~= lv);
    r
}

/// The stable patch id printed by `git patch-id --stable`: the first
/// whitespace-separated token of its output, if any.
pub fn patch_id_from_output(output: &str) -> (id: Option<String>)
    ensures
        ws_tokens(output@).len() == 0 ==> id is None,
        ws_tokens(output@).len() > 0 ==> (id matches Some(s) && s@ == ws_tokens(output@)[0]),
{
    let mut tokens = split_whitespace(output);
    if tokens.len() == 0 {
        return None;
    }
    let ghost tv = strings_view(tokens@);
    let first = tokens.swap_remove(0);
    assert(first@ == tv[0]);
    Some(first)
}



// ---------------------------------------------------------------------------
// Reading git's standard output as git prints it.
/// Git outputs decoded lossily, as the commands' standard output is read.
pub open spec fn lossy_outputs(outputs: Seq<Option<Vec<u8>>>) -> Seq<Option<Seq<char>>> {
    outputs.map_values(|o: Option<Vec<u8>>|
        match o {
            Some(b) => Some(lossy_utf8(b@)),
            None => None,
        })
}

/// Resolves the source commits of a cherry-pick command line.
///
/// `outputs[i]` is the standard output, as bytes, of the git command run for
/// `argv[i]` (`rev-list --reverse` for a range, `rev-parse` for a single
/// revision), or `None` where no command ran or it failed. Each output is
/// decoded lossily; then sources are resolved as in `expand_resolved_sources`.
pub fn expand_cherry_pick_sources(argv: &Vec<String>, outputs: &Vec<Option<Vec<u8>>>) -> (sources:
    Vec<String>)
    requires
        outputs.len() == argv.len(),
    ensures
        strings_view(sources@) == expand_spec(strings_view(argv@), lossy_outputs(outputs@)),
{
    let mut texts: Vec<Option<String>> = Vec::new();
    let mut i: usize = 0;
    while i < outputs.len()
        invariant
            i <= outputs.len(),
            optional_strings_view(texts@) == lossy_outputs(outputs@).take(i as int),
        decreases outputs.len() - i,
    {
        let ghost before = texts@;
        match &outputs[i] {
            Some(b) => texts.push(Some(lossy_string(b.as_slice()))),
            None => texts.push(None),
        }
        assert(optional_strings_view(texts@) =~= optional_strings_view(before).push(
            lossy_outputs(outputs@)[i as int],
        ));
        assert(lossy_outputs(outputs@).take(i + 1) =~= lossy_outputs(outputs@).take(i as int).push(
            lossy_outputs(outputs@)[i as int],
        ));
        i = i + 1;
    }
    assert(lossy_outputs(outputs@).take(outputs.len() as int) =~= lossy_outputs(outputs@));
    expand_resolved_sources(argv, &texts)
}

/// The commits created since the command started, oldest first, from the
/// standard output of `git rev-list --reverse <pre_command_head>..HEAD` as
/// bytes (`None` if the command failed): the trimmed non-blank lines of its
/// lossy decoding.
pub fn new_commits_since(rev_list_stdout: Option<&[u8]>) -> (commits: Vec<String>)
    ensures
        match rev_list_stdout {
            Some(b) => strings_view(commits@) == nonblank_lines(text_lines(lossy_utf8(b@))),
            None => commits@.len() == 0,
        },
{
    match rev_list_stdout {
        Some(b) => {
            let text = lossy_string(b);
            commits_in_rev_list(Some(text.as_str()))
        },
        None => commits_in_rev_list(None),
    }
}

/// The stable patch id in the standard output of `git patch-id --stable`, as
/// bytes: the first whitespace-separated token of its lossy decoding, if any.
pub fn patch_id_from_stdout(stdout: &[u8]) -> (id: Option<String>)
    ensures
        ws_tokens(lossy_utf8(stdout@)).len() == 0 ==> id is None,
        ws_tokens(lossy_utf8(stdout@)).len() > 0 ==> (id matches Some(s) && s@ == ws_tokens(
            lossy_utf8(stdout@),
        )[0]),
{
    let text = lossy_string(stdout);
    patch_id_from_output(text.as_str())
}

// ---------------------------------------------------------------------------
// Laws.
proof fn lemma_full_sha_lines(lines: Seq<Seq<char>>)
    ensures
        forall|k: int|
            0 <= k < full_sha_lines(lines).len() ==> is_full_sha_spec(
                #[trigger] full_sha_lines(lines)[k],
            ),
    decreases lines.len(),
{
    if lines.len() > 0 {
        lemma_full_sha_lines(lines.drop_last());
        let rest = full_sha_lines(lines.drop_last());
        assert forall|k: int|
            0 <= k < full_sha_lines(lines).len() implies is_full_sha_spec(
                #[trigger] full_sha_lines(lines)[k],
            ) by {
            if k < rest.len() {
                assert(full_sha_lines(lines)[k] == rest[k]);
            }
        }
    }
}

/// Every resolved source commit is a full object id.
pub proof fn law_expanded_sources_are_full_shas(
    argv: Seq<Seq<char>>,
    outputs: Seq<Option<Seq<char>>>,
)
    ensures
        forall|k: int|
            0 <= k < expand_spec(argv, outputs).len() ==> is_full_sha_spec(
                #[trigger] expand_spec(argv, outputs)[k],
            ),
    decreases argv.len(),
{
    if argv.len() > 0 {
        law_expanded_sources_are_full_shas(argv.drop_last(), outputs.drop_last());
        let rest = expand_spec(argv.drop_last(), outputs.drop_last());
        let last = arg_sources(argv.last(), outputs.last());
        match outputs.last() {
            Some(o) => {
                lemma_full_sha_lines(text_lines(o));
            },
            None => {},
        }
        assert forall|k: int|
            0 <= k < expand_spec(argv, outputs).len() implies is_full_sha_spec(
                #[trigger] expand_spec(argv, outputs)[k],
            ) by {
            if k < rest.len() {
                assert(expand_spec(argv, outputs)[k] == rest[k]);
            } else {
                assert(expand_spec(argv, outputs)[k] == last[k - rest.len()]);
            }
        }
    }
}

/// No new commit listed is blank.
pub proof fn law_new_commits_not_blank(lines: Seq<Seq<char>>)
    ensures
        forall|k: int| 0 <= k < nonblank_lines(lines).len() ==> #[trigger] nonblank_lines(lines)[k].len() > 0,
    decreases lines.len(),
{
    if lines.len() > 0 {
        law_new_commits_not_blank(lines.drop_last());
        let rest = nonblank_lines(lines.drop_last());
        assert forall|k: int| 0 <= k < nonblank_lines(lines).len() implies #[trigger] nonblank_lines(
            lines,
        )[k].len() > 0 by {
            if k < rest.len() {
                assert(nonblank_lines(lines)[k] == rest[k]);
            }
        }
    }
}

/// The arguments that are not options, with the outputs given for them.
pub open spec fn without_flags(argv: Seq<Seq<char>>, outputs: Seq<Option<Seq<char>>>) -> (
    Seq<Seq<char>>,
    Seq<Option<Seq<char>>>,
)
    decreases argv.len(),
{
    if argv.len() == 0 {
        (Seq::empty(), Seq::empty())
    } else {
        let (a, o) = without_flags(argv.drop_last(), outputs.drop_last());
        if arg_kind(argv.last()) == CherryPickArg::Flag {
            (a, o)
        } else {
            (a.push(argv.last()), o.push(outputs.last()))
        }
    }
}

/// Options change nothing: the sources of a command line are those of its
/// arguments without the options.
pub proof fn law_flags_do_not_change_sources(argv: Seq<Seq<char>>, outputs: Seq<Option<Seq<char>>>)
    requires
        outputs.len() == argv.len(),
    ensures
        without_flags(argv, outputs).0.len() == without_flags(argv, outputs).1.len(),
        expand_spec(argv, outputs) == expand_spec(
            without_flags(argv, outputs).0,
            without_flags(argv, outputs).1,
        ),
    decreases argv.len(),
{
    if argv.len() > 0 {
        law_flags_do_not_change_sources(argv.drop_last(), outputs.drop_last());
        let (a, o) = without_flags(argv.drop_last(), outputs.drop_last());
        if arg_kind(argv.last()) == CherryPickArg::Flag {
            assert(arg_sources(argv.last(), outputs.last()) =~= Seq::<Seq<char>>::empty());
            assert(expand_spec(argv, outputs) =~= expand_spec(argv.drop_last(), outputs.drop_last()));
        } else {
            assert(a.push(argv.last()).drop_last() =~= a);
            assert(o.push(outputs.last()).drop_last() =~= o);
        }
    }
}

/// What git printed for an option is never read: two runs that differ only in
/// the outputs given for options yield the same sources.
pub proof fn law_flag_outputs_are_ignored(
    argv: Seq<Seq<char>>,
    outputs: Seq<Option<Seq<char>>>,
    other: Seq<Option<Seq<char>>>,
)
    requires
        outputs.len() == argv.len(),
        other.len() == argv.len(),
        forall|i: int|
            0 <= i < argv.len() && arg_kind(#[trigger] argv[i]) != CherryPickArg::Flag ==> outputs[i]
                == other[i],
    ensures
        expand_spec(argv, outputs) == expand_spec(argv, other),
    decreases argv.len(),
{
    if argv.len() > 0 {
        let n = argv.len() - 1;
        assert forall|i: int|
            0 <= i < n && arg_kind(#[trigger] argv.drop_last()[i]) != CherryPickArg::Flag implies outputs.drop_last()[i]
                == other.drop_last()[i] by {
            assert(argv.drop_last()[i] == argv[i]);
        }
        law_flag_outputs_are_ignored(argv.drop_last(), outputs.drop_last(), other.drop_last());
        if arg_kind(argv[n]) != CherryPickArg::Flag {
            assert(outputs[n] == other[n]);
        }
    }
}

/// Every commit listed (a non-blank line) is reported, trimmed. Given such a
/// line `i`, this returns its place among the new commits.
pub proof fn law_every_listed_commit_is_new(lines: Seq<Seq<char>>, i: int) -> (w: int)
    requires
        0 <= i < lines.len(),
        trim_spec(lines[i]).len() > 0,
    ensures
        0 <= w < nonblank_lines(lines).len(),
        nonblank_lines(lines)[w] == trim_spec(lines[i]),
    decreases lines.len(),
{
    let l0 = lines.drop_last();
    if i < lines.len() - 1 {
        assert(l0[i] == lines[i]);
        law_every_listed_commit_is_new(l0, i)
    } else {
        nonblank_lines(l0).len() as int
    }
}

/// Every new commit reported is a listed line, trimmed. Given reported commit
/// `w`, this returns the line `i` it comes from.
pub proof fn law_new_commits_are_listed(lines: Seq<Seq<char>>, w: int) -> (i: int)
    requires
        0 <= w < nonblank_lines(lines).len(),
    ensures
        0 <= i < lines.len(),
        nonblank_lines(lines)[w] == trim_spec(lines[i]),
    decreases lines.len(),
{
    let l0 = lines.drop_last();
    if w < nonblank_lines(l0).len() {
        let i = law_new_commits_are_listed(l0, w);
        assert(l0[i] == lines[i]);
        i
    } else {
        lines.len() - 1
    }
}

proof fn lemma_full_sha_line_kept(lines: Seq<Seq<char>>, j: int)
    requires
        0 <= j < lines.len(),
        is_full_sha_spec(trim_spec(lines[j])),
    ensures
        full_sha_lines(lines).contains(trim_spec(lines[j])),
    decreases lines.len(),
{
    let l0 = lines.drop_last();
    if j < lines.len() - 1 {
        assert(l0[j] == lines[j]);
        lemma_full_sha_line_kept(l0, j);
        let w = choose|w: int| 0 <= w < full_sha_lines(l0).len() && full_sha_lines(l0)[w] == trim_spec(lines[j]);
        assert(full_sha_lines(lines)[w] == trim_spec(lines[j]));
    } else {
        let r = full_sha_lines(lines);
        assert(r[r.len() - 1] == trim_spec(lines[j]));
    }
}

proof fn lemma_expand_keeps_arg_sources(
    argv: Seq<Seq<char>>,
    outputs: Seq<Option<Seq<char>>>,
    i: int,
    x: Seq<char>,
)
    requires
        outputs.len() == argv.len(),
        0 <= i < argv.len(),
        arg_sources(argv[i], outputs[i]).contains(x),
    ensures
        expand_spec(argv, outputs).contains(x),
    decreases argv.len(),
{
    let n = argv.len() - 1;
    let a0 = argv.drop_last();
    let o0 = outputs.drop_last();
    let e0 = expand_spec(a0, o0);
    let e = expand_spec(argv, outputs);
    if i < n {
        assert(a0[i] == argv[i] && o0[i] == outputs[i]);
        lemma_expand_keeps_arg_sources(a0, o0, i, x);
        let w = choose|w: int| 0 <= w < e0.len() && e0[w] == x;
        assert(e[w] == x);
    } else {
        let r = arg_sources(argv[n], outputs[n]);
        let w = choose|w: int| 0 <= w < r.len() && r[w] == x;
        assert(e[e0.len() + w] == x);
    }
}

/// Every full object id that `git rev-list` lists for a range argument is a
/// source commit.
pub proof fn law_range_commits_are_sources(
    argv: Seq<Seq<char>>,
    outputs: Seq<Option<Seq<char>>>,
    i: int,
    j: int,
)
    requires
        outputs.len() == argv.len(),
        0 <= i < argv.len(),
        arg_kind(argv[i]) == CherryPickArg::Range,
        outputs[i] is Some,
        0 <= j < text_lines(outputs[i]->0).len(),
        is_full_sha_spec(trim_spec(text_lines(outputs[i]->0)[j])),
    ensures
        expand_spec(argv, outputs).contains(trim_spec(text_lines(outputs[i]->0)[j])),
{
    lemma_full_sha_line_kept(text_lines(outputs[i]->0), j);
    lemma_expand_keeps_arg_sources(argv, outputs, i, trim_spec(text_lines(outputs[i]->0)[j]));
}

/// A single revision that `git rev-parse` resolves to a full object id is a
/// source commit.
pub proof fn law_resolved_revision_is_a_source(argv: Seq<Seq<char>>, outputs: Seq<Option<Seq<char>>>, i: int)
    requires
        outputs.len() == argv.len(),
        0 <= i < argv.len(),
        arg_kind(argv[i]) == CherryPickArg::Single,
        outputs[i] is Some,
        is_full_sha_spec(trim_spec(outputs[i]->0)),
    ensures
        expand_spec(argv, outputs).contains(trim_spec(outputs[i]->0)),
{
    let r = arg_sources(argv[i], outputs[i]);
    assert(r[0] == trim_spec(outputs[i]->0));
    lemma_expand_keeps_arg_sources(argv, outputs, i, trim_spec(outputs[i]->0));
}

} // verus!
