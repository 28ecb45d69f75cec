//! What to tell the caller about the flags of a run: which requested flags no
//! evaluated condition mentioned, and which known flag each of them may have
//! been meant to be.

use crate::flags::{add_all, FlagSet};
use crate::parser::{classify, parse_line, LineParseResult, LineView};
use crate::text::str_eq;
use vstd::prelude::*;

verus! {

/// The least of three numbers.
pub open spec fn min3(x: nat, y: nat, z: nat) -> nat {
    if x <= y && x <= z {
        x
    } else if y <= z {
        y
    } else {
        z
    }
}

/// The cost of putting `y` where `x` stands: nothing where they are the same
/// character, else one substitution.
pub open spec fn substitution_cost(x: char, y: char) -> nat {
    if x == y {
        0
    } else {
        1
    }
}

/// The Levenshtein distance between `a` and `b`: the least number of
/// insertions, deletions and substitutions of single characters that turn
/// one into the other. To reach `b` from `a`, either the last character of
/// `a` is deleted, or the last of `b` is inserted, or the one is put in the
/// place of the other.
pub open spec fn edit_distance(a: Seq<char>, b: Seq<char>) -> nat
    decreases a.len() + b.len(),
{
    if a.len() == 0 {
        b.len()
    } else if b.len() == 0 {
        a.len()
    } else {
        min3(
            edit_distance(a.drop_last(), b) + 1,
            edit_distance(a, b.drop_last()) + 1,
            edit_distance(a.drop_last(), b.drop_last()) + substitution_cost(a.last(), b.last()),
        )
    }
}

/// The distance between two sequences is at least the difference of their
/// lengths and at most the greater of the two, and it is 0 for a sequence and
/// itself only.
pub proof fn lemma_edit_distance(a: Seq<char>, b: Seq<char>)
    ensures
        a.len() - b.len() <= edit_distance(a, b),
        b.len() - a.len() <= edit_distance(a, b),
        edit_distance(a, b) <= a.len() || edit_distance(a, b) <= b.len(),
        edit_distance(a, b) == 0 <==> a == b,
    decreases a.len() + b.len(),
{
    if a.len() > 0 && b.len() > 0 {
        lemma_edit_distance(a.drop_last(), b);
        lemma_edit_distance(a, b.drop_last());
        lemma_edit_distance(a.drop_last(), b.drop_last());
        assert(a =~= a.drop_last().push(a.last()));
        assert(b =~= b.drop_last().push(b.last()));
    } else if a.len() == 0 && b.len() == 0 {
        assert(a =~= b);
    }
}

/// How far from `flag` a candidate may be and still be suggested: 2, or 1
/// for a flag of fewer than two bytes. The length is that of the flag's
/// UTF-8 encoding.
pub open spec fn threshold(flag: Seq<char>) -> nat {
    let half = vstd::utf8::encode_utf8(flag).len() / 2 + 1;
    if half < 2 {
        half
    } else {
        2
    }
}

/// Whether the candidate at position `i` can be suggested for `flag`: a flag
/// is never suggested for itself.
pub open spec fn eligible(flag: Seq<char>, candidates: Seq<Seq<char>>, i: int) -> bool {
    0 <= i < candidates.len() && candidates[i] != flag
}

/// The position of the candidate nearest to `flag`, the first of them where
/// several are equally near; `None` where no candidate is eligible.
pub open spec fn closest_index(flag: Seq<char>, candidates: Seq<Seq<char>>) -> Option<int>
    decreases candidates.len(),
{
    if candidates.len() == 0 {
        None
    } else {
        let last = candidates.len() - 1;
        let earlier = closest_index(flag, candidates.drop_last());
        if candidates[last] == flag {
            earlier
        } else {
            match earlier {
                None => Some(last),
                Some(best) => if edit_distance(flag, candidates[last]) < edit_distance(
                    flag,
                    candidates[best],
                ) {
                    Some(last)
                } else {
                    Some(best)
                },
            }
        }
    }
}

/// Whether no eligible candidate is nearer to `flag` than the one at `i`,
/// and none that stands before it is as near.
pub open spec fn is_closest(flag: Seq<char>, candidates: Seq<Seq<char>>, i: int) -> bool {
    &&& eligible(flag, candidates, i)
    &&& forall|j: int| #[trigger]
        eligible(flag, candidates, j) ==> edit_distance(flag, candidates[i]) <= edit_distance(
            flag,
            candidates[j],
        )
    &&& forall|j: int| #[trigger]
        eligible(flag, candidates, j) && j < i ==> edit_distance(flag, candidates[i])
            < edit_distance(flag, candidates[j])
}

/// Whether no candidate is eligible.
pub open spec fn none_eligible(flag: Seq<char>, candidates: Seq<Seq<char>>) -> bool {
    forall|j: int| !#[trigger] eligible(flag, candidates, j)
}

/// The candidate to suggest for `flag`: the nearest eligible one, if it is
/// within the threshold.
pub open spec fn suggestion(flag: Seq<char>, candidates: Seq<Seq<char>>) -> Option<Seq<char>> {
    match closest_index(flag, candidates) {
        Some(i) => if edit_distance(flag, candidates[i]) <= threshold(flag) {
            Some(candidates[i])
        } else {
            None
        },
        None => None,
    }
}

/// What `closest_index` finds is the nearest eligible candidate, and it
/// finds one wherever one is eligible.
pub proof fn lemma_closest_index(flag: Seq<char>, candidates: Seq<Seq<char>>)
    ensures
        closest_index(flag, candidates) matches Some(i) ==> is_closest(flag, candidates, i),
        closest_index(flag, candidates) is None ==> none_eligible(flag, candidates),
    decreases candidates.len(),
{
    if candidates.len() > 0 {
        let init = candidates.drop_last();
        let last = candidates.len() - 1;
        lemma_closest_index(flag, init);
        match closest_index(flag, candidates) {
            Some(i) => {
                assert forall|j: int| #[trigger]
                    eligible(flag, candidates, j) implies edit_distance(flag, candidates[i])
                    <= edit_distance(flag, candidates[j]) by {
                    if j < last {
                        assert(eligible(flag, init, j));
                    }
                }
                assert forall|j: int| #[trigger]
                    eligible(flag, candidates, j) && j < i implies edit_distance(
                    flag,
                    candidates[i],
                ) < edit_distance(flag, candidates[j]) by {
                    assert(eligible(flag, init, j));
                }
            },
            None => {
                assert forall|j: int| !#[trigger] eligible(flag, candidates, j) by {
                    if eligible(flag, candidates, j) && j < last {
                        assert(eligible(flag, init, j));
                    }
                }
            },
        }
    }
}

/// A suggestion is offered exactly when some eligible candidate is within
/// the threshold. What is suggested is one of the candidates and is not the
/// flag itself: it is one or two edits away from it.
pub proof fn lemma_suggestion_offered(flag: Seq<char>, candidates: Seq<Seq<char>>)
    ensures
        suggestion(flag, candidates) is Some <==> exists|j: int| #[trigger]
            eligible(flag, candidates, j) && edit_distance(flag, candidates[j]) <= threshold(flag),
        suggestion(flag, candidates) matches Some(found) ==> candidates.contains(found) && found
            != flag && 1 <= edit_distance(flag, found) <= threshold(flag) <= 2,
{
    lemma_closest_index(flag, candidates);
    if let Some(found) = suggestion(flag, candidates) {
        lemma_edit_distance(flag, found);
    }
}

/// `strsim::levenshtein`. The contract claims that it returns the
/// Levenshtein distance between the characters of its two arguments: the
/// number that `edit_distance` defines, which is the entry that the crate's
/// row-by-row table holds for the two whole strings. It takes every pair of
/// strings and does not fail.
#[verifier::external_body]
fn levenshtein(a: &str, b: &str) -> (d: usize)
    ensures
        d == edit_distance(a@, b@),
{
    strsim::levenshtein(a, b)
}

/// The candidate nearest to `flag` in edit distance, if it is near enough to
/// be suggested. `flag` itself is no candidate; of several candidates that
/// are equally near, the first is taken.
pub fn find_closest_match<'a>(flag: &str, candidates: &[&'a str]) -> (r: Option<&'a str>)
    ensures
        match r {
            Some(found) => suggestion(flag@, candidates.deep_view()) == Some(found@),
            None => suggestion(flag@, candidates.deep_view()) is None,
        },
{
    let ghost all = candidates.deep_view();
    let mut best: Option<(usize, usize)> = None;
    let mut i: usize = 0;
    while i < candidates.len()
        invariant
            i <= candidates.len(),
            all == candidates.deep_view(),
            match best {
                Some((at, d)) => closest_index(flag@, all.take(i as int)) == Some(at as int) && at
                    < i && d == edit_distance(flag@, all[at as int]),
                None => closest_index(flag@, all.take(i as int)) is None,
            },
        decreases candidates.len() - i,
    {
        assert(all.take(i + 1).drop_last() =~= all.take(i as int));
        if !str_eq(candidates[i], flag) {
            let d: usize = levenshtein(flag, candidates[i]);
            match best {
                None => {
                    best = Some((i, d));
                },
                Some((_, least)) => {
                    if d < least {
                        best = Some((i, d));
                    }
                },
            }
        }
        i += 1;
    }
    assert(all.take(i as int) =~= all);
    let half: usize = flag.as_bytes().len() / 2 + 1;
    let limit: usize = if half < 2 {
        half
    } else {
        2
    };
    match best {
        Some((at, d)) => {
            if d <= limit {
                Some(candidates[at])
            } else {
                None
            }
        },
        None => None,
    }
}

/// A requested flag that no evaluated condition mentioned.
#[derive(Clone, Debug, PartialEq)]
pub struct UnusedFlag {
    pub flag: String,
    /// The known flag that may have been meant.
    pub suggestion: Option<String>,
}

/// What an `UnusedFlag` stands for.
pub struct UnusedFlagView {
    pub flag: Seq<char>,
    pub suggestion: Option<Seq<char>>,
}

impl View for UnusedFlag {
    type V = UnusedFlagView;

    open spec fn view(&self) -> UnusedFlagView {
        UnusedFlagView {
            flag: self.flag@,
            suggestion: match self.suggestion {
                Some(s) => Some(s@),
                None => None,
            },
        }
    }
}

/// The views of a report, entry by entry.
pub open spec fn report_view(report: Seq<UnusedFlag>) -> Seq<UnusedFlagView> {
    report.map_values(|entry: UnusedFlag| entry@)
}

/// The test for a flag that is not in `used`.
pub open spec fn is_unused(used: Set<Seq<char>>) -> spec_fn(Seq<char>) -> bool {
    |flag: Seq<char>| !used.contains(flag)
}

/// The entry of the report for an unused flag, with the suggestion that
/// `candidates` give for it.
pub open spec fn entry_for(candidates: Seq<Seq<char>>) -> spec_fn(Seq<char>) -> UnusedFlagView {
    |flag: Seq<char>| UnusedFlagView { flag, suggestion: suggestion(flag, candidates) }
}

/// The report on the requested flags: one entry for each flag of `requested`
/// that is not in `used`, in the order of `requested`, with the suggestion
/// that `candidates` give for it.
pub open spec fn diagnose_spec(
    requested: Seq<Seq<char>>,
    used: Set<Seq<char>>,
    candidates: Seq<Seq<char>>,
) -> Seq<UnusedFlagView> {
    requested.filter(is_unused(used)).map_values(entry_for(candidates))
}

/// The report lists the requested flags that were not used, and no others.
pub proof fn lemma_report_lists_unused(
    requested: Seq<Seq<char>>,
    used: Set<Seq<char>>,
    candidates: Seq<Seq<char>>,
    flag: Seq<char>,
)
    ensures
        (exists|i: int|
            0 <= i < diagnose_spec(requested, used, candidates).len() && (#[trigger] diagnose_spec(
                requested,
                used,
                candidates,
            )[i]).flag == flag) <==> requested.contains(flag) && !used.contains(flag),
{
    let kept = requested.filter(is_unused(used));
    let report = diagnose_spec(requested, used, candidates);
    if requested.contains(flag) && !used.contains(flag) {
        let j = choose|j: int| 0 <= j < requested.len() && requested[j] == flag;
        requested.lemma_filter_contains(is_unused(used), j);
        let i = choose|i: int| 0 <= i < kept.len() && kept[i] == flag;
        assert(report[i].flag == flag);
    }
    if exists|i: int| 0 <= i < report.len() && (#[trigger] report[i]).flag == flag {
        requested.lemma_filter_contains_rev(is_unused(used), flag);
    }
}

/// The names from which suggestions are drawn: the known flags where they
/// are given, else the used ones.
pub open spec fn candidates_of(used: FlagSet, known: Option<&FlagSet>) -> Seq<Seq<char>> {
    match known {
        Some(k) => k.entries(),
        None => used.entries(),
    }
}

/// The names of `set` as string slices, in order.
fn names_of<'a>(set: &'a FlagSet) -> (names: Vec<&'a str>)
    ensures
        names.deep_view() == set.entries(),
{
    let mut names: Vec<&'a str> = Vec::new();
    let n: usize = set.len();
    let mut i: usize = 0;
    while i < n
        invariant
            i <= n,
            n == set.entries().len(),
            names.deep_view() == set.entries().take(i as int),
        decreases n - i,
    {
        let name = set.at(i).as_str();
        names.push(name);
        assert(set.entries().take(i + 1) =~= set.entries().take(i as int).push(name@));
        i += 1;
    }
    names
}

/// Reports the requested flags that were not used, each with the flag that
/// may have been meant. Suggestions are drawn from `known`, the flags that
/// the templates mention anywhere, or from the used flags where `known` is
/// not to be had.
pub fn diagnose_unused_flags(
    requested: &FlagSet,
    used: &FlagSet,
    known: Option<&FlagSet>,
) -> (report: Vec<UnusedFlag>)
    ensures
        report_view(report@) == diagnose_spec(
            requested.entries(),
            used@,
            candidates_of(*used, known),
        ),
{
    let names = match known {
        Some(k) => names_of(k),
        None => names_of(used),
    };
    let ghost asked = requested.entries();
    let ghost unused = is_unused(used@);
    let ghost entry = entry_for(candidates_of(*used, known));
    let mut report: Vec<UnusedFlag> = Vec::new();
    let n: usize = requested.len();
    let mut i: usize = 0;
    while i < n
        invariant
            i <= n,
            n == asked.len(),
            asked == requested.entries(),
            names.deep_view() == candidates_of(*used, known),
            unused == is_unused(used@),
            entry == entry_for(candidates_of(*used, known)),
            report_view(report@) == asked.take(i as int).filter(unused).map_values(entry),
        decreases n - i,
    {
        let flag = requested.at(i);
        proof {
            let sofar = asked.take(i as int);
            assert(asked.take(i + 1) =~= sofar.push(flag@));
            sofar.lemma_filter_push(flag@, unused);
        }
        if !used.contains(flag.as_str()) {
            let found = find_closest_match(flag.as_str(), names.as_slice());
            let suggested = match found {
                Some(name) => Some(name.to_owned()),
                None => None,
            };
            report.push(UnusedFlag { flag: flag.clone(), suggestion: suggested });
            assert(asked.take(i as int).filter(unused).push(flag@).map_values(entry)
                =~= asked.take(i as int).filter(unused).map_values(entry).push(entry(flag@)));
        }
        i += 1;
    }
    assert(asked.take(i as int) =~= asked);
    report
}

/// The flag names that the directive of `line` mentions; none where the line
/// carries no well-formed directive.
pub open spec fn line_flags(line: Seq<char>) -> Seq<Seq<char>> {
    match classify(line) {
        Ok(LineView::If(cond)) => cond.mentioned(),
        Ok(LineView::Inline(_, cond)) => cond.mentioned(),
        _ => Seq::empty(),
    }
}

/// `seen`, and after it every flag name that a directive of `lines`
/// mentions, whatever the flags that are set.
pub open spec fn scan_spec(lines: Seq<Seq<char>>, seen: Seq<Seq<char>>) -> Seq<Seq<char>>
    decreases lines.len(),
{
    if lines.len() == 0 {
        seen
    } else {
        add_all(scan_spec(lines.drop_last(), seen), line_flags(lines.last()))
    }
}

/// Collects in `seen_flags` the flag names that the directives of `lines`
/// mention. Lines whose directive is malformed are passed over.
pub fn scan_all_conditions(lines: &Vec<String>, seen_flags: &mut FlagSet)
    ensures
        final(seen_flags).entries() == scan_spec(lines.deep_view(), old(seen_flags).entries()),
        old(seen_flags)@.subset_of(final(seen_flags)@),
{
    let ghost all = lines.deep_view();
    let mut i: usize = 0;
    while i < lines.len()
        invariant
            i <= lines.len(),
            all == lines.deep_view(),
            seen_flags.entries() == scan_spec(all.take(i as int), old(seen_flags).entries()),
            old(seen_flags)@.subset_of(seen_flags@),
        decreases lines.len() - i,
    {
        assert(all.take(i + 1).drop_last() =~= all.take(i as int));
        match parse_line(lines[i].as_str()) {
            Ok((_, LineParseResult::If(cond))) => {
                seen_flags.extend(&cond.mentioned_flags());
            },
            Ok((_, LineParseResult::Inline(_, cond))) => {
                seen_flags.extend(&cond.mentioned_flags());
            },
            _ => {},
        }
        i += 1;
    }
    assert(all.take(i as int) =~= all);
}

} // verus!
