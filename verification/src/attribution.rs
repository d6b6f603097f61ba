//! Line attributions and how a newer attribution overrides older ones.
use vstd::prelude::*;

verus! {

/// A range of lines `start_line..=end_line` of one file, attributed to an author.
pub struct LineAttribution {
    pub start_line: u32,
    pub end_line: u32,
    pub author_id: String,
    pub overrode: Option<String>,
}

impl LineAttribution {
    pub fn new(start_line: u32, end_line: u32, author_id: String, overrode: Option<String>) -> (r:
        LineAttribution)
        ensures
            r.start_line == start_line,
            r.end_line == end_line,
            r.author_id == author_id,
            r.overrode == overrode,
    {
        LineAttribution { start_line, end_line, author_id, overrode }
    }

    /// A copy of this attribution.
    pub fn duplicate(&self) -> (r: LineAttribution)
        ensures
            r == *self,
    {
        let overrode = match &self.overrode {
            Some(s) => Some(s.clone()),
            None => None,
        };
        LineAttribution {
            start_line: self.start_line,
            end_line: self.end_line,
            author_id: self.author_id.clone(),
            overrode,
        }
    }
}

/// Whether `a` covers line `line`.
pub open spec fn covers_line(a: LineAttribution, line: int) -> bool {
    a.start_line <= line <= a.end_line
}

/// `old` lies entirely within the lines of `new`.
pub open spec fn fully_covered(old: LineAttribution, new: LineAttribution) -> bool {
    old.start_line >= new.start_line && old.end_line <= new.end_line
}

/// `old` reaches into `new` from below: it starts before `new` and ends
/// within or after it.
pub open spec fn reaches_from_below(old: LineAttribution, new: LineAttribution) -> bool {
    old.start_line < new.start_line && old.end_line >= new.start_line
}

/// `old` reaches into `new` from above: it ends after `new` and starts within
/// or before it.
pub open spec fn reaches_from_above(old: LineAttribution, new: LineAttribution) -> bool {
    old.end_line > new.end_line && old.start_line <= new.end_line
}

/// The part of `old` below `new`.
pub open spec fn head_part(old: LineAttribution, new: LineAttribution) -> LineAttribution {
    LineAttribution {
        start_line: old.start_line,
        end_line: (new.start_line - 1) as u32,
        author_id: old.author_id,
        overrode: old.overrode,
    }
}

/// The part of `old` above `new`.
pub open spec fn tail_part(old: LineAttribution, new: LineAttribution) -> LineAttribution {
    LineAttribution {
        start_line: (new.end_line + 1) as u32,
        end_line: old.end_line,
        author_id: old.author_id,
        overrode: old.overrode,
    }
}

/// What is left of `old` when `new` overrides part of it: its part below `new`
/// if it reaches into `new` from below, and its part above `new` if it reaches
/// into `new` from above. An `old` that contains a (non-empty) `new` leaves
/// both parts; only the lines of `new` change hands.
pub open spec fn trimmed_parts(old: LineAttribution, new: LineAttribution) -> Seq<LineAttribution> {
    let head = if reaches_from_below(old, new) {
        seq![head_part(old, new)]
    } else {
        Seq::empty()
    };
    let tail = if reaches_from_above(old, new) && (!reaches_from_below(old, new)
        || new.start_line <= new.end_line) {
        seq![tail_part(old, new)]
    } else {
        Seq::empty()
    };
    head + tail
}

/// Splits `existing` into the attributions that `new` leaves alone and the
/// trimmed remains of those it overlaps partially, both in the order given.
pub open spec fn split_for_override(existing: Seq<LineAttribution>, new: LineAttribution) -> (
    Seq<LineAttribution>,
    Seq<LineAttribution>,
)
    decreases existing.len(),
{
    if existing.len() == 0 {
        (Seq::empty(), Seq::empty())
    } else {
        let (kept, trimmed) = split_for_override(existing.drop_last(), new);
        let old = existing.last();
        if fully_covered(old, new) {
            (kept, trimmed)
        } else if trimmed_parts(old, new).len() > 0 {
            (kept, trimmed + trimmed_parts(old, new))
        } else {
            (kept.push(old), trimmed)
        }
    }
}

/// `existing` after `new` overrides it: untouched attributions, then trimmed
/// ones, then `new`.
pub open spec fn override_with(existing: Seq<LineAttribution>, new: LineAttribution) -> Seq<
    LineAttribution,
> {
    let (kept, trimmed) = split_for_override(existing, new);
    kept + trimmed + seq![new]
}

/// `existing` after each of `incoming`, in order, overrides it.
pub open spec fn override_all(existing: Seq<LineAttribution>, incoming: Seq<LineAttribution>) -> Seq<
    LineAttribution,
>
    decreases incoming.len(),
{
    if incoming.len() == 0 {
        existing
    } else {
        override_with(override_all(existing, incoming.drop_last()), incoming.last())
    }
}

/// Lets `new_attr` override the attributions in `existing`: those entirely
/// within its lines are removed, those overlapping it partially are trimmed to
/// their lines outside it (one that contains it keeps both its head and its
/// tail), and `new_attr` is appended.
pub fn override_attribution(existing: &mut Vec<LineAttribution>, new_attr: LineAttribution)
    ensures
        final(existing)@ == override_with(old(existing)@, new_attr),
{
    let mut kept: Vec<LineAttribution> = Vec::new();
    let mut trimmed: Vec<LineAttribution> = Vec::new();
    let mut i: usize = 0;
    while i < existing.len()
        invariant
            i <= existing.len(),
            (kept@, trimmed@) == split_for_override(existing@.take(i as int), new_attr),
        decreases existing.len() - i,
    {
        assert(existing@.take(i + 1).drop_last() =~= existing@.take(i as int));
        let old = &existing[i];
        let ghost t0 = trimmed@;
        if old.start_line >= new_attr.start_line && old.end_line <= new_attr.end_line {
        } else if old.start_line < new_attr.start_line && old.end_line >= new_attr.start_line {
            trimmed.push(
                LineAttribution::new(
                    old.start_line,
                    new_attr.start_line - 1,
                    old.author_id.clone(),
                    old.duplicate().overrode,
                ),
            );
            if old.end_line > new_attr.end_line && new_attr.start_line <= new_attr.end_line {
                trimmed.push(
                    LineAttribution::new(
                        new_attr.end_line + 1,
                        old.end_line,
                        old.author_id.clone(),
                        old.duplicate().overrode,
                    ),
                );
            }
            assert(trimmed@ =~= t0 + trimmed_parts(*old, new_attr));
        } else if old.end_line > new_attr.end_line && old.start_line <= new_attr.end_line {
            trimmed.push(
                LineAttribution::new(
                    new_attr.end_line + 1,
                    old.end_line,
                    old.author_id.clone(),
                    old.duplicate().overrode,
                ),
            );
            assert(trimmed@ =~= t0 + trimmed_parts(*old, new_attr));
        } else {
            assert(trimmed_parts(*old, new_attr) =~= Seq::<LineAttribution>::empty());
            kept.push(old.duplicate());
        }
        i = i + 1;
    }
    assert(existing@.take(existing.len() as int) =~= existing@);
    let ghost before = existing@;
    *existing = kept;
    existing.append(&mut trimmed);
    existing.push(new_attr);
    assert(existing@ =~= override_with(before, new_attr));
}

/// Lets each attribution of `incoming`, in order, override `existing`.
pub fn override_attributions(existing: &mut Vec<LineAttribution>, incoming: Vec<LineAttribution>)
    ensures
        final(existing)@ == override_all(old(existing)@, incoming@),
{
    let ghost start = existing@;
    let mut k: usize = 0;
    while k < incoming.len()
        invariant
            k <= incoming.len(),
            existing@ == override_all(start, incoming@.take(k as int)),
        decreases incoming.len() - k,
    {
        assert(incoming@.take(k + 1).drop_last() =~= incoming@.take(k as int));
        override_attribution(existing, incoming[k].duplicate());
        k = k + 1;
    }
    assert(incoming@.take(incoming.len() as int) =~= incoming@);
}

// ---------------------------------------------------------------------------
// Laws of overriding.
proof fn lemma_split_leaves_new_lines(existing: Seq<LineAttribution>, new: LineAttribution)
    ensures
        ({
            let (kept, trimmed) = split_for_override(existing, new);
            &&& forall|k: int, line: int|
                #![trigger covers_line(kept[k], line)]
                0 <= k < kept.len() && covers_line(new, line) ==> !covers_line(kept[k], line)
            &&& forall|k: int, line: int|
                #![trigger covers_line(trimmed[k], line)]
                0 <= k < trimmed.len() && covers_line(new, line) ==> !covers_line(trimmed[k], line)
        }),
    decreases existing.len(),
{
    if existing.len() > 0 {
        lemma_split_leaves_new_lines(existing.drop_last(), new);
        let (k0, t0) = split_for_override(existing.drop_last(), new);
        let (kept, trimmed) = split_for_override(existing, new);
        let old = existing.last();
        let parts = trimmed_parts(old, new);
        assert forall|k: int, line: int|
            #![trigger covers_line(kept[k], line)]
            0 <= k < kept.len() && covers_line(new, line) implies !covers_line(kept[k], line) by {
            if k < k0.len() {
                assert(kept[k] == k0[k]);
            }
        }
        assert forall|k: int, line: int|
            #![trigger covers_line(trimmed[k], line)]
            0 <= k < trimmed.len() && covers_line(new, line) implies !covers_line(
                trimmed[k],
                line,
            ) by {
            if k < t0.len() {
                assert(trimmed[k] == t0[k]);
            } else {
                assert(trimmed[k] == parts[k - t0.len()]);
            }
        }
    }
}

proof fn lemma_split_keeps_remains(existing: Seq<LineAttribution>, new: LineAttribution, k: int)
    requires
        0 <= k < existing.len(),
    ensures
        ({
            let (kept, trimmed) = split_for_override(existing, new);
            let old = existing[k];
            let parts = trimmed_parts(old, new);
            &&& (!fully_covered(old, new) && parts.len() == 0) ==> kept.contains(old)
            &&& !fully_covered(old, new) ==> forall|q: int|
                0 <= q < parts.len() ==> trimmed.contains(#[trigger] parts[q])
        }),
    decreases existing.len(),
{
    let (kept, trimmed) = split_for_override(existing, new);
    let old = existing[k];
    let parts = trimmed_parts(old, new);
    if k < existing.len() - 1 {
        lemma_split_keeps_remains(existing.drop_last(), new, k);
        let (k0, t0) = split_for_override(existing.drop_last(), new);
        assert(existing.drop_last()[k] == old);
        if !fully_covered(old, new) && parts.len() == 0 {
            let w = choose|w: int| 0 <= w < k0.len() && k0[w] == old;
            assert(kept[w] == old);
        }
        if !fully_covered(old, new) {
            assert forall|q: int| 0 <= q < parts.len() implies trimmed.contains(
                #[trigger] parts[q],
            ) by {
                let w = choose|w: int| 0 <= w < t0.len() && t0[w] == parts[q];
                assert(trimmed[w] == parts[q]);
            }
        }
    } else {
        if !fully_covered(old, new) && parts.len() == 0 {
            assert(kept[kept.len() - 1] == old);
        }
        if !fully_covered(old, new) {
            assert forall|q: int| 0 <= q < parts.len() implies trimmed.contains(
                #[trigger] parts[q],
            ) by {
                assert(trimmed[trimmed.len() - parts.len() + q] == parts[q]);
            }
        }
    }
}

/// After an override, the overriding attribution is the last one and no other
/// attribution covers any of its lines.
pub proof fn law_override_claims_its_lines(existing: Seq<LineAttribution>, new: LineAttribution)
    ensures
        override_with(existing, new).last() == new,
        forall|k: int, line: int|
            #![trigger covers_line(override_with(existing, new)[k], line)]
            0 <= k < override_with(existing, new).len() - 1 && covers_line(new, line)
                ==> !covers_line(override_with(existing, new)[k], line),
{
    lemma_split_leaves_new_lines(existing, new);
    let (kept, trimmed) = split_for_override(existing, new);
    let r = override_with(existing, new);
    assert forall|k: int, line: int|
        #![trigger covers_line(r[k], line)]
        0 <= k < r.len() - 1 && covers_line(new, line) implies !covers_line(r[k], line) by {
        if k < kept.len() {
            assert(r[k] == kept[k]);
        } else {
            assert(r[k] == trimmed[k - kept.len()]);
        }
    }
}

/// For a well-formed overriding range, a line outside it keeps the author it
/// had: some remaining attribution with the same author and `overrode` still
/// covers it. This holds for lines below and above the overriding range alike,
/// also when the older attribution contains the overriding one.
pub proof fn law_override_keeps_other_lines(
    existing: Seq<LineAttribution>,
    new: LineAttribution,
    k: int,
    line: int,
)
    requires
        0 <= k < existing.len(),
        covers_line(existing[k], line),
        new.start_line <= new.end_line,
        !covers_line(new, line),
    ensures
        exists|w: int|
            0 <= w < override_with(existing, new).len() - 1 && {
                let a = #[trigger] override_with(existing, new)[w];
                &&& covers_line(a, line)
                &&& a.author_id == existing[k].author_id
                &&& a.overrode == existing[k].overrode
            },
{
    lemma_split_keeps_remains(existing, new, k);
    let (kept, trimmed) = split_for_override(existing, new);
    let r = override_with(existing, new);
    let old = existing[k];
    let parts = trimmed_parts(old, new);
    assert(!fully_covered(old, new));
    if parts.len() == 0 {
        let w = choose|w: int| 0 <= w < kept.len() && kept[w] == old;
        assert(r[w] == old);
    } else {
        let q: int = if line < new.start_line {
            0
        } else {
            parts.len() - 1
        };
        assert(covers_line(parts[q], line));
        assert(trimmed.contains(parts[q]));
        let w = choose|w: int| 0 <= w < trimmed.len() && trimmed[w] == parts[q];
        assert(r[kept.len() + w] == parts[q]);
    }
}

/// Whether `a` is a non-empty range of lines.
pub open spec fn well_formed_range(a: LineAttribution) -> bool {
    a.start_line <= a.end_line
}

/// `a` and `b` share no line.
pub open spec fn ranges_disjoint(a: LineAttribution, b: LineAttribution) -> bool {
    a.end_line < b.start_line || b.end_line < a.start_line
}

/// Every attribution is non-empty and no line is attributed twice.
pub open spec fn disjoint_attributions(s: Seq<LineAttribution>) -> bool {
    &&& forall|i: int| 0 <= i < s.len() ==> well_formed_range(#[trigger] s[i])
    &&& forall|i: int, j: int|
        0 <= i < s.len() && 0 <= j < s.len() && i != j ==> ranges_disjoint(
            #[trigger] s[i],
            #[trigger] s[j],
        )
}

spec fn within(a: LineAttribution, e: LineAttribution) -> bool {
    e.start_line <= a.start_line && a.end_line <= e.end_line
}

spec fn cross_disjoint(s1: Seq<LineAttribution>, s2: Seq<LineAttribution>) -> bool {
    forall|i: int, j: int|
        0 <= i < s1.len() && 0 <= j < s2.len() ==> ranges_disjoint(#[trigger] s1[i], #[trigger] s2[j])
}

spec fn all_within(s: Seq<LineAttribution>, ex: Seq<LineAttribution>) -> bool {
    forall|i: int|
        0 <= i < s.len() ==> exists|j: int| 0 <= j < ex.len() && within(#[trigger] s[i], ex[j])
}

proof fn lemma_disjoint_concat(a: Seq<LineAttribution>, b: Seq<LineAttribution>)
    requires
        disjoint_attributions(a),
        disjoint_attributions(b),
        cross_disjoint(a, b),
    ensures
        disjoint_attributions(a + b),
{
    let c = a + b;
    assert forall|i: int| 0 <= i < c.len() implies well_formed_range(#[trigger] c[i]) by {
        if i < a.len() {
            assert(c[i] == a[i]);
        } else {
            assert(c[i] == b[i - a.len()]);
        }
    }
    assert forall|i: int, j: int|
        0 <= i < c.len() && 0 <= j < c.len() && i != j implies ranges_disjoint(
        #[trigger] c[i],
        #[trigger] c[j],
    ) by {
        if i < a.len() && j < a.len() {
            assert(c[i] == a[i] && c[j] == a[j]);
        } else if i < a.len() {
            assert(c[i] == a[i] && c[j] == b[j - a.len()]);
            assert(ranges_disjoint(a[i], b[j - a.len()]));
        } else if j < a.len() {
            assert(c[i] == b[i - a.len()] && c[j] == a[j]);
            assert(ranges_disjoint(a[j], b[i - a.len()]));
        } else {
            assert(c[i] == b[i - a.len()] && c[j] == b[j - a.len()]);
        }
    }
}

proof fn lemma_split_disjoint(existing: Seq<LineAttribution>, new: LineAttribution)
    requires
        disjoint_attributions(existing),
        well_formed_range(new),
    ensures
        ({
            let (kept, trimmed) = split_for_override(existing, new);
            &&& disjoint_attributions(kept)
            &&& disjoint_attributions(trimmed)
            &&& cross_disjoint(kept, trimmed)
            &&& all_within(kept, existing)
            &&& all_within(trimmed, existing)
        }),
    decreases existing.len(),
{
    if existing.len() > 0 {
        let n = existing.len() - 1;
        let e0 = existing.drop_last();
        let old = existing[n];
        assert(disjoint_attributions(e0)) by {
            assert forall|i: int, j: int|
                0 <= i < e0.len() && 0 <= j < e0.len() && i != j implies ranges_disjoint(
                #[trigger] e0[i],
                #[trigger] e0[j],
            ) by {
                assert(e0[i] == existing[i] && e0[j] == existing[j]);
            }
            assert forall|i: int| 0 <= i < e0.len() implies well_formed_range(#[trigger] e0[i]) by {
                assert(e0[i] == existing[i]);
            }
        }
        lemma_split_disjoint(e0, new);
        let (k0, t0) = split_for_override(e0, new);
        let (kept, trimmed) = split_for_override(existing, new);
        let parts = trimmed_parts(old, new);
        assert(well_formed_range(old));
        // Everything split off before lies within an earlier range, and so
        // away from `old`.
        assert forall|i: int| 0 <= i < k0.len() implies ranges_disjoint(#[trigger] k0[i], old) by {
            let j = choose|j: int| 0 <= j < e0.len() && within(k0[i], e0[j]);
            assert(e0[j] == existing[j]);
            assert(ranges_disjoint(existing[j], existing[n]));
        }
        assert forall|i: int| 0 <= i < t0.len() implies ranges_disjoint(#[trigger] t0[i], old) by {
            let j = choose|j: int| 0 <= j < e0.len() && within(t0[i], e0[j]);
            assert(e0[j] == existing[j]);
            assert(ranges_disjoint(existing[j], existing[n]));
        }
        assert forall|i: int| 0 <= i < k0.len() implies exists|j: int|
            0 <= j < existing.len() && within(#[trigger] k0[i], existing[j]) by {
            let j = choose|j: int| 0 <= j < e0.len() && within(k0[i], e0[j]);
            assert(e0[j] == existing[j]);
        }
        assert forall|i: int| 0 <= i < t0.len() implies exists|j: int|
            0 <= j < existing.len() && within(#[trigger] t0[i], existing[j]) by {
            let j = choose|j: int| 0 <= j < e0.len() && within(t0[i], e0[j]);
            assert(e0[j] == existing[j]);
        }
        if fully_covered(old, new) {
        } else if parts.len() > 0 {
            // The parts of `old` lie within it, are non-empty and apart.
            assert forall|q: int| 0 <= q < parts.len() implies well_formed_range(#[trigger] parts[q])
                && within(parts[q], old) by {}
            assert(disjoint_attributions(parts)) by {
                assert forall|i: int, j: int|
                    0 <= i < parts.len() && 0 <= j < parts.len() && i != j implies ranges_disjoint(
                    #[trigger] parts[i],
                    #[trigger] parts[j],
                ) by {}
            }
            assert(cross_disjoint(t0, parts)) by {
                assert forall|i: int, j: int|
                    0 <= i < t0.len() && 0 <= j < parts.len() implies ranges_disjoint(
                    #[trigger] t0[i],
                    #[trigger] parts[j],
                ) by {
                    assert(ranges_disjoint(t0[i], old));
                    assert(within(parts[j], old));
                }
            }
            lemma_disjoint_concat(t0, parts);
            assert(cross_disjoint(kept, trimmed)) by {
                assert forall|i: int, j: int|
                    0 <= i < kept.len() && 0 <= j < trimmed.len() implies ranges_disjoint(
                    #[trigger] kept[i],
                    #[trigger] trimmed[j],
                ) by {
                    if j < t0.len() {
                        assert(trimmed[j] == t0[j]);
                    } else {
                        assert(trimmed[j] == parts[j - t0.len()]);
                        assert(ranges_disjoint(k0[i], old));
                        assert(within(parts[j - t0.len()], old));
                    }
                }
            }
            assert forall|i: int| 0 <= i < trimmed.len() implies exists|j: int|
                0 <= j < existing.len() && within(#[trigger] trimmed[i], existing[j]) by {
                if i < t0.len() {
                    assert(trimmed[i] == t0[i]);
                } else {
                    assert(trimmed[i] == parts[i - t0.len()]);
                    assert(within(parts[i - t0.len()], existing[n]));
                }
            }
        } else {
            assert(cross_disjoint(k0, seq![old])) by {
                assert forall|i: int, j: int|
                    0 <= i < k0.len() && 0 <= j < 1 implies ranges_disjoint(
                    #[trigger] k0[i],
                    #[trigger] seq![old][j],
                ) by {
                    assert(seq![old][j] == old);
                }
            }
            assert(disjoint_attributions(seq![old]));
            lemma_disjoint_concat(k0, seq![old]);
            assert(k0 + seq![old] =~= kept);
            assert(cross_disjoint(kept, trimmed)) by {
                assert forall|i: int, j: int|
                    0 <= i < kept.len() && 0 <= j < trimmed.len() implies ranges_disjoint(
                    #[trigger] kept[i],
                    #[trigger] trimmed[j],
                ) by {
                    if i < k0.len() {
                        assert(kept[i] == k0[i]);
                    } else {
                        assert(kept[i] == old);
                        assert(ranges_disjoint(t0[j], old));
                    }
                }
            }
            assert forall|i: int| 0 <= i < kept.len() implies exists|j: int|
                0 <= j < existing.len() && within(#[trigger] kept[i], existing[j]) by {
                if i < k0.len() {
                    assert(kept[i] == k0[i]);
                } else {
                    assert(kept[i] == existing[n]);
                    assert(within(existing[n], existing[n]));
                }
            }
        }
    }
}

/// Overriding keeps the attributions of a file apart: if no line was
/// attributed twice and the overriding range is non-empty, still no line is
/// attributed twice afterwards.
pub proof fn law_override_keeps_ranges_disjoint(existing: Seq<LineAttribution>, new: LineAttribution)
    requires
        disjoint_attributions(existing),
        well_formed_range(new),
    ensures
        disjoint_attributions(override_with(existing, new)),
{
    lemma_split_disjoint(existing, new);
    lemma_split_leaves_new_lines(existing, new);
    let (kept, trimmed) = split_for_override(existing, new);
    lemma_disjoint_concat(kept, trimmed);
    let c = kept + trimmed;
    assert(cross_disjoint(c, seq![new])) by {
        assert forall|i: int, j: int|
            0 <= i < c.len() && 0 <= j < 1 implies ranges_disjoint(
            #[trigger] c[i],
            #[trigger] seq![new][j],
        ) by {
            assert(seq![new][j] == new);
            let a = c[i];
            if !ranges_disjoint(a, new) {
                let line: int = if a.start_line < new.start_line {
                    new.start_line as int
                } else {
                    a.start_line as int
                };
                assert(covers_line(new, line));
                if i < kept.len() {
                    assert(c[i] == kept[i]);
                    assert(!covers_line(kept[i], line));
                } else {
                    assert(c[i] == trimmed[i - kept.len()]);
                    assert(!covers_line(trimmed[i - kept.len()], line));
                }
            }
        }
    }
    assert(disjoint_attributions(seq![new]));
    lemma_disjoint_concat(c, seq![new]);
}

/// Overriding by several attributions in turn keeps the attributions apart,
/// and the newest one survives unchanged as the last attribution.
pub proof fn law_override_all_keeps_ranges_disjoint(
    existing: Seq<LineAttribution>,
    incoming: Seq<LineAttribution>,
)
    requires
        disjoint_attributions(existing),
        forall|i: int| 0 <= i < incoming.len() ==> well_formed_range(#[trigger] incoming[i]),
    ensures
        disjoint_attributions(override_all(existing, incoming)),
        incoming.len() > 0 ==> override_all(existing, incoming).last() == incoming.last(),
    decreases incoming.len(),
{
    if incoming.len() > 0 {
        let rest = incoming.drop_last();
        assert forall|i: int| 0 <= i < rest.len() implies well_formed_range(#[trigger] rest[i]) by {
            assert(rest[i] == incoming[i]);
        }
        law_override_all_keeps_ranges_disjoint(existing, rest);
        law_override_keeps_ranges_disjoint(override_all(existing, rest), incoming.last());
        law_override_claims_its_lines(override_all(existing, rest), incoming.last());
    }
}

} // verus!
