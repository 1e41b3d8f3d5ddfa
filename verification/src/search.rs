//! The search engine: which lines of a buffer contain a target string,
//! reported with 1-based line numbers in file order.

use vstd::prelude::*;

use crate::text::fold_case;
use crate::text::is_substring_of;
use crate::text::line_contains;
use crate::text::spec_lines;
use crate::text::split_lines;

verus! {

/// A line satisfies the search: the target occurs in it, both taken
/// lowercased in case-insensitive mode.
pub open spec fn line_matches(line: Seq<char>, target: Seq<char>, ignore_case: bool) -> bool {
    is_substring_of(fold_case(target, ignore_case), fold_case(line, ignore_case))
}

/// The matching lines among `lines`, each paired with its line number,
/// counting from `base`.
pub open spec fn matches_from(
    lines: Seq<Seq<char>>,
    target: Seq<char>,
    ignore_case: bool,
    base: int,
) -> Seq<(int, Seq<char>)>
    decreases lines.len(),
{
    if lines.len() == 0 {
        Seq::empty()
    } else {
        let rest = matches_from(lines.drop_first(), target, ignore_case, base + 1);
        if line_matches(lines[0], target, ignore_case) {
            seq![(base, lines[0])] + rest
        } else {
            rest
        }
    }
}

/// What `search` returns: the lines of `contents` that contain `target`,
/// with their 1-based line numbers, in file order.
pub open spec fn spec_search(
    target: Seq<char>,
    contents: Seq<char>,
    ignore_case: bool,
) -> Seq<(int, Seq<char>)> {
    matches_from(spec_lines(contents), target, ignore_case, 1)
}

/// The mathematical content of a sequence of returned matches.
pub open spec fn matches_view<'a>(ms: Seq<(usize, &'a str)>) -> Seq<(int, Seq<char>)> {
    ms.map_values(|m: (usize, &'a str)| (m.0 as int, m.1@))
}

proof fn lemma_matches_from_push(
    lines: Seq<Seq<char>>,
    x: Seq<char>,
    target: Seq<char>,
    ignore_case: bool,
    base: int,
)
    ensures
        matches_from(lines.push(x), target, ignore_case, base) == matches_from(
            lines,
            target,
            ignore_case,
            base,
        ) + (if line_matches(x, target, ignore_case) {
            seq![(base + lines.len() as int, x)]
        } else {
            Seq::<(int, Seq<char>)>::empty()
        }),
    decreases lines.len(),
{
    if lines.len() == 0 {
        assert(lines.push(x)[0] == x);
        assert(lines.push(x).drop_first() =~= Seq::<Seq<char>>::empty());
        assert(matches_from(lines.push(x).drop_first(), target, ignore_case, base + 1)
            == Seq::<(int, Seq<char>)>::empty());
        assert(matches_from(lines.push(x), target, ignore_case, base) =~= matches_from(
            lines,
            target,
            ignore_case,
            base,
        ) + (if line_matches(x, target, ignore_case) {
            seq![(base + lines.len() as int, x)]
        } else {
            Seq::<(int, Seq<char>)>::empty()
        }));
    } else {
        assert(lines.push(x).drop_first() =~= lines.drop_first().push(x));
        assert(lines.push(x)[0] == lines[0]);
        lemma_matches_from_push(lines.drop_first(), x, target, ignore_case, base + 1);
        assert(matches_from(lines.push(x), target, ignore_case, base) =~= matches_from(
            lines,
            target,
            ignore_case,
            base,
        ) + (if line_matches(x, target, ignore_case) {
            seq![(base + lines.len() as int, x)]
        } else {
            Seq::<(int, Seq<char>)>::empty()
        }));
    }
}

proof fn lemma_matches_from_sound(
    lines: Seq<Seq<char>>,
    target: Seq<char>,
    ignore_case: bool,
    base: int,
)
    ensures
        forall|k: int|
            0 <= k < matches_from(lines, target, ignore_case, base).len() ==> {
                let m = #[trigger] matches_from(lines, target, ignore_case, base)[k];
                &&& base <= m.0 < base + lines.len()
                &&& m.1 == lines[m.0 - base]
                &&& line_matches(m.1, target, ignore_case)
            },
        forall|k1: int, k2: int|
            0 <= k1 < k2 < matches_from(lines, target, ignore_case, base).len()
                ==> #[trigger] matches_from(lines, target, ignore_case, base)[k1].0
                < #[trigger] matches_from(lines, target, ignore_case, base)[k2].0,
    decreases lines.len(),
{
    if lines.len() == 0 {
    } else {
        lemma_matches_from_sound(lines.drop_first(), target, ignore_case, base + 1);
        let res = matches_from(lines, target, ignore_case, base);
        let rest = matches_from(lines.drop_first(), target, ignore_case, base + 1);
        assert forall|k: int| 0 <= k < res.len() implies {
            let m = #[trigger] res[k];
            &&& base <= m.0 < base + lines.len()
            &&& m.1 == lines[m.0 - base]
            &&& line_matches(m.1, target, ignore_case)
        } by {
            if line_matches(lines[0], target, ignore_case) {
                if k == 0 {
                    assert(res[0] == (base, lines[0]));
                } else {
                    assert(res[k] == rest[k - 1]);
                    assert(lines.drop_first()[rest[k - 1].0 - (base + 1)] == lines[rest[k
                        - 1].0 - base]);
                }
            } else {
                assert(res[k] == rest[k]);
                assert(lines.drop_first()[rest[k].0 - (base + 1)] == lines[rest[k].0 - base]);
            }
        }
        assert forall|k1: int, k2: int| 0 <= k1 < k2 < res.len() implies res[k1].0
            < res[k2].0 by {
            if line_matches(lines[0], target, ignore_case) {
                if k1 == 0 {
                    assert(res[k2] == rest[k2 - 1]);
                } else {
                    assert(res[k1] == rest[k1 - 1]);
                    assert(res[k2] == rest[k2 - 1]);
                }
            } else {
                assert(res[k1] == rest[k1]);
                assert(res[k2] == rest[k2]);
            }
        }
    }
}

proof fn lemma_matches_from_complete(
    lines: Seq<Seq<char>>,
    target: Seq<char>,
    ignore_case: bool,
    base: int,
    j: int,
)
    requires
        0 <= j < lines.len(),
        line_matches(lines[j], target, ignore_case),
    ensures
        matches_from(lines, target, ignore_case, base).contains((base + j, lines[j])),
    decreases lines.len(),
{
    let res = matches_from(lines, target, ignore_case, base);
    let rest = matches_from(lines.drop_first(), target, ignore_case, base + 1);
    if j == 0 {
        assert(res[0] == (base, lines[0]));
    } else {
        assert(lines.drop_first()[j - 1] == lines[j]);
        lemma_matches_from_complete(lines.drop_first(), target, ignore_case, base + 1, j - 1);
        let idx = choose|i: int|
            0 <= i < rest.len() && #[trigger] rest[i] == (base + j, lines[j]);
        if line_matches(lines[0], target, ignore_case) {
            assert(res[idx + 1] == (base + j, lines[j]));
        } else {
            assert(res[idx] == (base + j, lines[j]));
        }
    }
}

/// Soundness of the search, and the order of its results: every reported
/// pair carries a line number between 1 and the number of lines, its text
/// is exactly the line at that 1-based position, that line contains the
/// target under the active case rule, and the line numbers are strictly
/// increasing.
pub proof fn lemma_search_sound(target: Seq<char>, contents: Seq<char>, ignore_case: bool)
    ensures
        forall|k: int|
            0 <= k < spec_search(target, contents, ignore_case).len() ==> {
                let m = #[trigger] spec_search(target, contents, ignore_case)[k];
                &&& 1 <= m.0 <= spec_lines(contents).len()
                &&& m.1 == spec_lines(contents)[m.0 - 1]
                &&& line_matches(m.1, target, ignore_case)
            },
        forall|k1: int, k2: int|
            0 <= k1 < k2 < spec_search(target, contents, ignore_case).len()
                ==> #[trigger] spec_search(target, contents, ignore_case)[k1].0
                < #[trigger] spec_search(target, contents, ignore_case)[k2].0,
{
    lemma_matches_from_sound(spec_lines(contents), target, ignore_case, 1);
}

/// Completeness of the search: no matching line is omitted — if the line
/// at 1-based position `n` contains the target under the active case
/// rule, the pair of `n` and that line is among the results.
pub proof fn lemma_search_complete(
    target: Seq<char>,
    contents: Seq<char>,
    ignore_case: bool,
    n: int,
)
    requires
        1 <= n <= spec_lines(contents).len(),
        line_matches(spec_lines(contents)[n - 1], target, ignore_case),
    ensures
        spec_search(target, contents, ignore_case).contains((n, spec_lines(contents)[n - 1])),
{
    lemma_matches_from_complete(spec_lines(contents), target, ignore_case, 1, n - 1);
}

/// Case-insensitive matching relaxes the match rule: every pair a
/// case-sensitive search reports, the case-insensitive search of the same
/// target and contents reports too.
pub proof fn lemma_search_ignore_case_superset(
    target: Seq<char>,
    contents: Seq<char>,
    m: (int, Seq<char>),
)
    requires
        spec_search(target, contents, false).contains(m),
    ensures
        spec_search(target, contents, true).contains(m),
{
    lemma_search_sound(target, contents, false);
    let k = choose|k: int|
        0 <= k < spec_search(target, contents, false).len() && #[trigger] spec_search(
            target,
            contents,
            false,
        )[k] == m;
    assert(spec_search(target, contents, false)[k] == m);
    assert(is_substring_of(target, m.1));
    crate::text::lemma_substring_lower(target, m.1);
    assert(line_matches(m.1, target, true));
    lemma_search_complete(target, contents, true, m.0);
}

/// Searching is pure: two results for the same target, contents and case
/// rule have the same mathematical content.
pub proof fn lemma_search_deterministic<'a>(
    r1: Seq<(usize, &'a str)>,
    r2: Seq<(usize, &'a str)>,
    target: Seq<char>,
    contents: Seq<char>,
    ignore_case: bool,
)
    requires
        matches_view(r1) == spec_search(target, contents, ignore_case),
        matches_view(r2) == spec_search(target, contents, ignore_case),
    ensures
        matches_view(r1) == matches_view(r2),
{
}

/// The empty buffer has no lines, so any search of it reports nothing.
pub proof fn lemma_search_empty_contents(target: Seq<char>, ignore_case: bool)
    ensures
        spec_search(target, Seq::<char>::empty(), ignore_case) == Seq::<(int, Seq<char>)>::empty(),
{
    assert(spec_lines(Seq::<char>::empty()) == Seq::<Seq<char>>::empty());
}

/// The lines of `contents` that contain `target` — after lowercasing both
/// in case-insensitive mode — as slices of the original buffer, each with
/// its 1-based line number, in file order.
pub fn search<'a>(target: &str, contents: &'a str, ignore_case: bool) -> (matches: Vec<
    (usize, &'a str),
>)
    ensures
        matches_view(matches@) == spec_search(target@, contents@, ignore_case),
{
    let lines = split_lines(contents);
    let ghost lviews = lines@.map_values(|l: &str| l@);
    let mut matches: Vec<(usize, &'a str)> = Vec::new();
    let mut i: usize = 0;
    proof {
        assert(lviews.take(0) =~= Seq::<Seq<char>>::empty());
        assert(matches_view(matches@) =~= Seq::<(int, Seq<char>)>::empty());
    }
    while i < lines.len()
        invariant
            lviews == lines@.map_values(|l: &str| l@),
            lviews == spec_lines(contents@),
            i <= lines@.len(),
            matches_view(matches@) == matches_from(
                lviews.take(i as int),
                target@,
                ignore_case,
                1,
            ),
        decreases lines@.len() - i,
    {
        let line = lines[i];
        let ghost prev = matches@;
        if line_contains(line, target, ignore_case) {
            matches.push((i + 1, line));
            proof {
                assert(matches_view(matches@) =~= matches_view(prev) + seq![
                    (i + 1 as int, line@),
                ]);
            }
        }
        proof {
            assert(line@ == lviews[i as int]);
            lemma_matches_from_push(lviews.take(i as int), lviews[i as int], target@, ignore_case, 1);
            assert(lviews.take(i + 1) =~= lviews.take(i as int).push(lviews[i as int]));
            if !line_matches(line@, target@, ignore_case) {
                assert(matches_view(matches@) =~= matches_from(
                    lviews.take(i as int),
                    target@,
                    ignore_case,
                    1,
                ) + Seq::<(int, Seq<char>)>::empty());
            }
        }
        i += 1;
    }
    proof {
        assert(lviews.take(lines@.len() as int) =~= lviews);
    }
    matches
}

} // verus!
