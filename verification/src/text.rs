//! Character-level text model: ASCII lowercasing, substring containment,
//! and splitting a buffer into lines.

use vstd::prelude::*;

verus! {

/// ASCII lowercasing of a single character: `'A'..='Z'` map to
/// `'a'..='z'`; every other character is unchanged.
pub open spec fn lower_char(c: char) -> char {
    if 'A' <= c && c <= 'Z' {
        ((c as u32) + 32) as char
    } else {
        c
    }
}

/// ASCII lowercasing of a character sequence, character by character.
pub open spec fn lower_seq(s: Seq<char>) -> Seq<char> {
    s.map_values(|c: char| lower_char(c))
}

/// The sequence as the matcher sees it: lowercased in case-insensitive
/// mode, unchanged otherwise.
pub open spec fn fold_case(s: Seq<char>, ignore_case: bool) -> Seq<char> {
    if ignore_case {
        lower_seq(s)
    } else {
        s
    }
}

/// `needle` occurs contiguously somewhere inside `hay` (the empty needle
/// occurs in every haystack).
pub open spec fn is_substring_of(needle: Seq<char>, hay: Seq<char>) -> bool {
    exists|i: int|
        0 <= i && i + needle.len() <= hay.len() && #[trigger] hay.subrange(
            i,
            i + needle.len() as int,
        ) == needle
}

/// Index of the first `'\n'` in `s`, or `s.len()` if there is none.
pub open spec fn find_nl(s: Seq<char>) -> nat
    decreases s.len(),
{
    if s.len() == 0 {
        0
    } else if s[0] == '\n' {
        0
    } else {
        (1 + find_nl(s.drop_first())) as nat
    }
}

/// Removes one trailing `'\r'`, if present. A line terminated by `"\r\n"`
/// loses the `'\r'` along with the `'\n'`.
pub open spec fn chop_cr(s: Seq<char>) -> Seq<char> {
    if s.len() > 0 && s[s.len() - 1] == '\r' {
        s.drop_last()
    } else {
        s
    }
}

/// The lines of a buffer: segments separated by `'\n'`, each with a
/// trailing `'\r'` removed; a trailing terminator produces no extra empty
/// line, and the empty buffer has no lines at all.
pub open spec fn spec_lines(s: Seq<char>) -> Seq<Seq<char>>
    decreases s.len(),
{
    if s.len() == 0 {
        Seq::empty()
    } else {
        let i = find_nl(s) as int;
        if i >= s.len() {
            seq![s]
        } else {
            seq![chop_cr(s.take(i))] + spec_lines(s.skip(i + 1))
        }
    }
}

/// Any position with no newline before it and a newline (or the end) at it
/// is the position `find_nl` names.
pub proof fn lemma_find_nl_unique(s: Seq<char>, j: int)
    requires
        0 <= j <= s.len(),
        forall|k: int| 0 <= k < j ==> s[k] != '\n',
        j < s.len() ==> s[j] == '\n',
    ensures
        find_nl(s) == j,
    decreases s.len(),
{
    if s.len() == 0 {
    } else if s[0] == '\n' {
        assert(j == 0);
    } else {
        assert(j >= 1);
        let t = s.drop_first();
        assert forall|k: int| 0 <= k < j - 1 implies t[k] != '\n' by {
            assert(s[k + 1] != '\n');
        }
        lemma_find_nl_unique(t, j - 1);
    }
}

/// Containment survives lowercasing: if `needle` occurs in `hay`, the
/// lowercased needle occurs in the lowercased haystack.
pub proof fn lemma_substring_lower(needle: Seq<char>, hay: Seq<char>)
    requires
        is_substring_of(needle, hay),
    ensures
        is_substring_of(lower_seq(needle), lower_seq(hay)),
{
    let i = choose|i: int|
        0 <= i && i + needle.len() <= hay.len() && #[trigger] hay.subrange(
            i,
            i + needle.len() as int,
        ) == needle;
    assert(lower_seq(hay).subrange(i, i + lower_seq(needle).len() as int) =~= lower_seq(needle))
        by {
        assert forall|k: int| 0 <= k < needle.len() implies lower_seq(hay)[i + k] == lower_seq(
            needle,
        )[k] by {
            assert(hay.subrange(i, i + needle.len() as int)[k] == hay[i + k]);
        }
    }
    assert(is_substring_of(lower_seq(needle), lower_seq(hay)));
}

fn lower_char_exec(c: char) -> (r: char)
    ensures
        r == lower_char(c),
{
    if 'A' <= c && c <= 'Z' {
        let u: u32 = c as u32;
        ((u + 32) as u8) as char
    } else {
        c
    }
}

/// The character of `s` at `i`, lowercased in case-insensitive mode.
fn folded_char_at(s: &str, i: usize, ignore_case: bool) -> (r: char)
    requires
        i < s@.len(),
    ensures
        r == fold_case(s@, ignore_case)[i as int],
{
    let c = s.get_char(i);
    if ignore_case {
        lower_char_exec(c)
    } else {
        c
    }
}

fn match_at(line: &str, target: &str, ignore_case: bool, i: usize) -> (b: bool)
    requires
        i + target@.len() <= line@.len(),
        line@.len() <= usize::MAX,
    ensures
        b == (fold_case(line@, ignore_case).subrange(i as int, i + target@.len() as int)
            == fold_case(target@, ignore_case)),
{
    let ghost fl = fold_case(line@, ignore_case);
    let ghost ft = fold_case(target@, ignore_case);
    let m = target.unicode_len();
    let mut j: usize = 0;
    while j < m
        invariant
            m == target@.len(),
            i + m <= line@.len() <= usize::MAX,
            j <= m,
            fl == fold_case(line@, ignore_case),
            ft == fold_case(target@, ignore_case),
            forall|k: int| 0 <= k < j ==> fl[i + k] == ft[k],
        decreases m - j,
    {
        let cl = folded_char_at(line, i + j, ignore_case);
        let ct = folded_char_at(target, j, ignore_case);
        if cl != ct {
            assert(fl.subrange(i as int, i + m as int)[j as int] == fl[i + j]);
            return false;
        }
        j += 1;
    }
    assert(fl.subrange(i as int, i + m as int) =~= ft);
    true
}

/// Whether `target` occurs in `line`, both taken lowercased in
/// case-insensitive mode. The empty target occurs in every line.
pub fn line_contains(line: &str, target: &str, ignore_case: bool) -> (b: bool)
    ensures
        b == is_substring_of(
            fold_case(target@, ignore_case),
            fold_case(line@, ignore_case),
        ),
{
    let ghost fl = fold_case(line@, ignore_case);
    let ghost ft = fold_case(target@, ignore_case);
    let n = line.unicode_len();
    let m = target.unicode_len();
    proof {
        assert(fl.len() == n);
        assert(ft.len() == m);
    }
    if m > n {
        assert(!is_substring_of(ft, fl));
        return false;
    }
    let mut i: usize = 0;
    while i <= n - m
        invariant
            n == line@.len(),
            m == target@.len(),
            m <= n,
            i <= n - m + 1,
            fl == fold_case(line@, ignore_case),
            ft == fold_case(target@, ignore_case),
            forall|k: int|
                0 <= k < i ==> #[trigger] fl.subrange(k, k + ft.len() as int) != ft,
        decreases n + 1 - i,
    {
        if match_at(line, target, ignore_case, i) {
            proof {
                assert(ft.len() == m);
                assert(fl.subrange(i as int, i + ft.len() as int) == ft);
                assert(is_substring_of(ft, fl));
            }
            return true;
        }
        proof {
            // An empty target matches at every position, so the mismatch
            // just observed means the target is non-empty.
            if m == 0 {
                assert(fl.subrange(i as int, i as int) =~= ft);
                assert(false);
            }
        }
        i += 1;
    }
    assert(!is_substring_of(ft, fl));
    false
}

/// The lines of `contents`, as slices of the original buffer, exactly as
/// `spec_lines` describes them.
pub fn split_lines<'a>(contents: &'a str) -> (lines: Vec<&'a str>)
    ensures
        lines@.map_values(|l: &str| l@) == spec_lines(contents@),
{
    let n = contents.unicode_len();
    let mut lines: Vec<&'a str> = Vec::new();
    let mut pos: usize = 0;
    proof {
        assert(contents@.skip(0) =~= contents@);
        assert(lines@.map_values(|l: &str| l@) =~= Seq::<Seq<char>>::empty());
    }
    while pos < n
        invariant
            n == contents@.len(),
            pos <= n,
            spec_lines(contents@) == lines@.map_values(|l: &str| l@) + spec_lines(
                contents@.skip(pos as int),
            ),
        decreases n - pos,
    {
        let ghost suffix = contents@.skip(pos as int);
        // Find the next newline at or after `pos`.
        let mut j: usize = pos;
        let mut found = false;
        while !found && j < n
            invariant
                n == contents@.len(),
                pos <= j <= n,
                found ==> j < n && contents@[j as int] == '\n',
                forall|k: int| pos <= k < j ==> contents@[k] != '\n',
            decreases n - j + (if found { 0int } else { 1int }),
        {
            if contents.get_char(j) == '\n' {
                found = true;
            } else {
                j += 1;
            }
        }
        proof {
            assert forall|k: int| 0 <= k < j - pos implies suffix[k] != '\n' by {
                assert(contents@[pos + k] != '\n');
            }
            lemma_find_nl_unique(suffix, j - pos);
        }
        if !found {
            // Last line, not newline-terminated: keep it whole.
            let line = contents.substring_char(pos, n);
            proof {
                assert(line@ =~= suffix);
                assert(spec_lines(suffix) =~= seq![suffix]);
                assert((lines@ + seq![line]).map_values(|l: &str| l@) =~= lines@.map_values(
                    |l: &str| l@,
                ) + seq![suffix]);
            }
            lines.push(line);
            proof {
                assert(lines@.map_values(|l: &str| l@) =~= spec_lines(contents@));
            }
            pos = n;
        } else {
            // A line ending in '\n'; drop a '\r' just before it, if any.
            let end = if j > pos && contents.get_char(j - 1) == '\r' {
                j - 1
            } else {
                j
            };
            let line = contents.substring_char(pos, end);
            proof {
                let i = find_nl(suffix) as int;
                assert(i == j - pos);
                assert(suffix.take(i) =~= contents@.subrange(pos as int, j as int));
                if j > pos && contents@[j - 1] == '\r' {
                    assert(suffix.take(i).len() > 0);
                    assert(suffix.take(i)[i - 1] == '\r');
                    assert(line@ =~= suffix.take(i).drop_last());
                    assert(line@ == chop_cr(suffix.take(i)));
                } else {
                    assert(line@ =~= suffix.take(i));
                    assert(line@ == chop_cr(suffix.take(i)));
                }
                assert(spec_lines(suffix) == seq![chop_cr(suffix.take(i))] + spec_lines(
                    suffix.skip(i + 1),
                ));
                assert(suffix.skip(i + 1) =~= contents@.skip(j + 1));
                assert((lines@ + seq![line]).map_values(|l: &str| l@) =~= lines@.map_values(
                    |l: &str| l@,
                ) + seq![line@]);
            }
            lines.push(line);
            proof {
                assert(spec_lines(contents@) =~= lines@.map_values(|l: &str| l@) + spec_lines(
                    contents@.skip(j + 1),
                ));
            }
            pos = j + 1;
        }
    }
    proof {
        assert(contents@.skip(pos as int) =~= Seq::<char>::empty());
        assert(lines@.map_values(|l: &str| l@) =~= spec_lines(contents@));
    }
    lines
}

} // verus!
