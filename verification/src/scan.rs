//! Quote-aware scanning over single lines: finding unquoted characters,
//! splitting on a delimiter outside quoted spans, and the row test that
//! separates tabular rows from field lines.

use vstd::prelude::*;

use crate::lexical::spec_trim;
use crate::lexical::trim_chars;

verus! {

/// The first position at or after `i` where `target` occurs outside any
/// quoted span, given the scan state so far: inside quotes, or right
/// after a backslash.
pub open spec fn find_unq(s: Seq<char>, target: char, i: int, in_q: bool, esc: bool) -> Option<
    int,
>
    decreases s.len() - i,
    when 0 <= i
{
    if i >= s.len() {
        None
    } else if esc {
        find_unq(s, target, i + 1, in_q, false)
    } else if s[i] == '\\' {
        find_unq(s, target, i + 1, in_q, true)
    } else if s[i] == '"' {
        find_unq(s, target, i + 1, !in_q, false)
    } else if s[i] == target && !in_q {
        Some(i)
    } else {
        find_unq(s, target, i + 1, in_q, false)
    }
}

/// The first unquoted occurrence of `target` in `s`.
pub open spec fn spec_find_unquoted(s: Seq<char>, target: char) -> Option<int> {
    find_unq(s, target, 0, false, false)
}

/// Executable counterpart of [`spec_find_unquoted`].
pub fn find_unquoted(s: &Vec<char>, target: char) -> (r: Option<usize>)
    ensures
        match r {
            Some(k) => spec_find_unquoted(s@, target) == Some(k as int),
            None => spec_find_unquoted(s@, target) is None,
        },
{
    let mut i: usize = 0;
    let mut in_q = false;
    let mut esc = false;
    while i < s.len()
        invariant
            0 <= i <= s@.len(),
            spec_find_unquoted(s@, target) == find_unq(s@, target, i as int, in_q, esc),
        decreases s@.len() - i,
    {
        let c = s[i];
        if esc {
            esc = false;
        } else if c == '\\' {
            esc = true;
        } else if c == '"' {
            in_q = !in_q;
        } else if c == target && !in_q {
            return Some(i);
        }
        i = i + 1;
    }
    None
}

/// The result of an unquoted find is always a position inside the line
/// holding the target.
pub proof fn lemma_find_unq_in_range(s: Seq<char>, target: char, i: int, in_q: bool, esc: bool)
    requires
        0 <= i,
        find_unq(s, target, i, in_q, esc) is Some,
    ensures
        i <= find_unq(s, target, i, in_q, esc).unwrap() < s.len(),
        s[find_unq(s, target, i, in_q, esc).unwrap()] == target,
    decreases s.len() - i,
{
    if i >= s.len() {
    } else if esc {
        lemma_find_unq_in_range(s, target, i + 1, in_q, false);
    } else if s[i] == '\\' {
        lemma_find_unq_in_range(s, target, i + 1, in_q, true);
    } else if s[i] == '"' {
        lemma_find_unq_in_range(s, target, i + 1, !in_q, false);
    } else if s[i] == target && !in_q {
    } else {
        lemma_find_unq_in_range(s, target, i + 1, in_q, false);
    }
}

/// The segments of `s` split on unquoted occurrences of `delim`,
/// trimmed, continuing a scan at `i` with the given open segment start
/// and quote state. A quote toggles unless the previous character is a
/// backslash; a trailing delimiter contributes one empty segment.
pub open spec fn split_state(
    s: Seq<char>,
    delim: char,
    i: int,
    start: int,
    in_q: bool,
    acc: Seq<Seq<char>>,
) -> Seq<Seq<char>>
    decreases s.len() - i,
    when 0 <= start <= i
{
    if i >= s.len() {
        if start < s.len() {
            acc.push(spec_trim(s.skip(start)))
        } else if start == s.len() && s.len() > 0 && s[s.len() - 1] == delim {
            acc.push(Seq::empty())
        } else {
            acc
        }
    } else if s[i] == '"' && (i == 0 || s[i - 1] != '\\') {
        split_state(s, delim, i + 1, start, !in_q, acc)
    } else if s[i] == delim && !in_q {
        split_state(s, delim, i + 1, i + 1, in_q, acc.push(spec_trim(s.subrange(start, i))))
    } else {
        split_state(s, delim, i + 1, start, in_q, acc)
    }
}

/// The trimmed segments of `s` split on unquoted `delim`.
pub open spec fn spec_split(s: Seq<char>, delim: char) -> Seq<Seq<char>> {
    split_state(s, delim, 0, 0, false, Seq::empty())
}

/// The views of a vector of character vectors.
pub open spec fn views_of(s: Seq<Vec<char>>) -> Seq<Seq<char>> {
    Seq::new(s.len(), |i: int| s[i]@)
}

/// Executable counterpart of [`spec_split`].
pub fn split_by_delimiter(s: &Vec<char>, delim: char) -> (r: Vec<Vec<char>>)
    ensures
        views_of(r@) == spec_split(s@, delim),
{
    let mut out: Vec<Vec<char>> = Vec::new();
    let mut start: usize = 0;
    let mut in_q = false;
    let mut i: usize = 0;
    proof {
        assert(views_of(out@) =~= Seq::<Seq<char>>::empty());
    }
    while i < s.len()
        invariant
            0 <= start <= i <= s@.len(),
            spec_split(s@, delim) == split_state(
                s@,
                delim,
                i as int,
                start as int,
                in_q,
                views_of(out@),
            ),
        decreases s@.len() - i,
    {
        let c = s[i];
        let prev_bs = if i == 0 {
            false
        } else {
            s[i - 1] == '\\'
        };
        if c == '"' && !prev_bs {
            in_q = !in_q;
        } else if c == delim && !in_q {
            let seg = crate::chars::subrange_chars(s, start, i);
            let trimmed = trim_chars(&seg);
            let ghost out0 = out@;
            out.push(trimmed);
            proof {
                assert(views_of(out@) =~= views_of(out0).push(
                    spec_trim(s@.subrange(start as int, i as int)),
                ));
            }
            start = i + 1;
        }
        i = i + 1;
    }
    if start < s.len() {
        let seg = crate::chars::subrange_chars(s, start, s.len());
        let trimmed = trim_chars(&seg);
        let ghost out0 = out@;
        out.push(trimmed);
        proof {
            assert(s@.subrange(start as int, s@.len() as int) =~= s@.skip(start as int));
            assert(views_of(out@) =~= views_of(out0).push(spec_trim(s@.skip(start as int))));
        }
    } else if s.len() > 0 && s[s.len() - 1] == delim {
        let empty_seg: Vec<char> = Vec::new();
        let ghost out0 = out@;
        out.push(empty_seg);
        proof {
            assert(views_of(out@) =~= views_of(out0).push(Seq::<char>::empty()));
        }
    }
    out
}

/// Whether a line reads as a tabular row: no unquoted colon at all, or
/// an unquoted delimiter strictly before the first unquoted colon.
pub open spec fn spec_is_tabular_row(s: Seq<char>, delim: char) -> bool {
    match (spec_find_unquoted(s, delim), spec_find_unquoted(s, ':')) {
        (Option::None, Option::None) => true,
        (Option::Some(_), Option::None) => true,
        (Option::None, Option::Some(_)) => false,
        (Option::Some(d), Option::Some(c)) => d < c,
    }
}

/// Executable counterpart of [`spec_is_tabular_row`].
pub fn is_tabular_row(s: &Vec<char>, delim: char) -> (r: bool)
    ensures
        r == spec_is_tabular_row(s@, delim),
{
    let d = find_unquoted(s, delim);
    let c = find_unquoted(s, ':');
    match (d, c) {
        (Option::None, Option::None) => true,
        (Option::Some(_), Option::None) => true,
        (Option::None, Option::Some(_)) => false,
        (Option::Some(dp), Option::Some(cp)) => dp < cp,
    }
}

/// The first position of `c` at or after `j`, or the length when `c`
/// does not occur there.
pub open spec fn first_at(s: Seq<char>, c: char, j: int) -> int
    decreases s.len() - j,
    when 0 <= j
{
    if j >= s.len() {
        s.len() as int
    } else if s[j] == c {
        j
    } else {
        first_at(s, c, j + 1)
    }
}

/// `first_at` is a first occurrence: in range, on `c` when it is not
/// the end, with no earlier occurrence.
pub proof fn lemma_first_at(s: Seq<char>, c: char, j: int)
    requires
        0 <= j <= s.len(),
    ensures
        j <= first_at(s, c, j) <= s.len(),
        first_at(s, c, j) < s.len() ==> s[first_at(s, c, j)] == c,
        forall|k: int| j <= k < first_at(s, c, j) ==> s[k] != c,
    decreases s.len() - j,
{
    if j < s.len() && s[j] != c {
        lemma_first_at(s, c, j + 1);
    }
}

/// Finds the first position of `c` at or after `from`.
pub fn find_char_at(s: &Vec<char>, c: char, from: usize) -> (r: usize)
    requires
        from <= s@.len(),
    ensures
        r as int == first_at(s@, c, from as int),
        from <= r <= s@.len(),
        r < s@.len() ==> s@[r as int] == c,
{
    let mut i: usize = from;
    while i < s.len()
        invariant
            from <= i <= s@.len(),
            first_at(s@, c, from as int) == first_at(s@, c, i as int),
        decreases s@.len() - i,
    {
        if s[i] == c {
            return i;
        }
        i = i + 1;
    }
    i
}

/// The first position at or after `from` where `]` is directly
/// followed by `:`, or the length when there is none.
pub open spec fn bracket_colon_at(s: Seq<char>, from: int) -> int
    decreases s.len() - from,
    when 0 <= from
{
    if from >= s.len() {
        s.len() as int
    } else if s[from] == ']' && from + 1 < s.len() && s[from + 1] == ':' {
        from
    } else {
        bracket_colon_at(s, from + 1)
    }
}

/// `bracket_colon_at` lies between `from` and the length, and marks a
/// `]:` pair when it is not the length.
pub proof fn lemma_bracket_colon_at(s: Seq<char>, from: int)
    requires
        0 <= from <= s.len(),
    ensures
        from <= bracket_colon_at(s, from) <= s.len(),
        bracket_colon_at(s, from) < s.len() ==> bracket_colon_at(s, from) + 1 < s.len()
            && s[bracket_colon_at(s, from)] == ']' && s[bracket_colon_at(s, from) + 1] == ':',
    decreases s.len() - from,
{
    if from < s.len() && !(s[from] == ']' && from + 1 < s.len() && s[from + 1] == ':') {
        lemma_bracket_colon_at(s, from + 1);
    }
}

/// Finds the first `]:` pair at or after `from`.
pub fn find_bracket_colon_from(s: &Vec<char>, from: usize) -> (r: usize)
    requires
        from <= s@.len(),
    ensures
        r as int == bracket_colon_at(s@, from as int),
        from <= r <= s@.len(),
        r < s@.len() ==> r + 1 < s@.len() && s@[r as int] == ']' && s@[r as int + 1] == ':',
{
    let mut i: usize = from;
    while i < s.len()
        invariant
            from <= i <= s@.len(),
            bracket_colon_at(s@, from as int) == bracket_colon_at(s@, i as int),
        decreases s@.len() - i,
    {
        if s[i] == ']' && i + 1 < s.len() && s[i + 1] == ':' {
            return i;
        }
        i = i + 1;
    }
    i
}

/// The first position of `c` in `s`, quoted spans ignored.
pub open spec fn spec_find_char(s: Seq<char>, c: char) -> Option<int> {
    if exists|i: int| 0 <= i < s.len() && s[i] == c {
        Some(choose|i: int| 0 <= i < s.len() && s[i] == c && forall|j: int| 0 <= j < i ==> s[j] != c)
    } else {
        None
    }
}

/// The first position of `c` in `s`.
pub fn find_char(s: &Vec<char>, c: char) -> (r: Option<usize>)
    ensures
        match r {
            Some(k) => 0 <= k < s@.len() && s@[k as int] == c && forall|j: int|
                0 <= j < k ==> s@[j] != c,
            None => forall|j: int| 0 <= j < s@.len() ==> s@[j] != c,
        },
{
    let mut i: usize = 0;
    while i < s.len()
        invariant
            0 <= i <= s@.len(),
            forall|j: int| 0 <= j < i ==> s@[j] != c,
        decreases s@.len() - i,
    {
        if s[i] == c {
            return Some(i);
        }
        i = i + 1;
    }
    None
}

/// The position of the last occurrence of `c` in `s`, or `-1` when `c`
/// does not occur.
pub open spec fn last_at(s: Seq<char>, c: char) -> int
    decreases s.len(),
{
    if s.len() == 0 {
        -1
    } else if s[s.len() - 1] == c {
        s.len() - 1
    } else {
        last_at(s.drop_last(), c)
    }
}

/// `last_at` is a last occurrence: in range or `-1`, on `c` when it is
/// not `-1`, with no later occurrence.
pub proof fn lemma_last_at(s: Seq<char>, c: char)
    ensures
        -1 <= last_at(s, c) < s.len(),
        last_at(s, c) >= 0 ==> s[last_at(s, c)] == c,
        forall|j: int| last_at(s, c) < j < s.len() ==> s[j] != c,
    decreases s.len(),
{
    if s.len() > 0 && s[s.len() - 1] != c {
        lemma_last_at(s.drop_last(), c);
        assert forall|j: int| last_at(s, c) < j < s.len() implies s[j] != c by {
            if j < s.len() - 1 {
                assert(s.drop_last()[j] == s[j]);
            }
        }
    }
}

/// The last position of `c` in `s`.
pub fn rfind_char(s: &Vec<char>, c: char) -> (r: Option<usize>)
    ensures
        match r {
            Some(k) => last_at(s@, c) == k as int,
            None => last_at(s@, c) == -1,
        },
{
    let mut i: usize = s.len();
    proof {
        assert(s@.take(s@.len() as int) =~= s@);
    }
    while i > 0
        invariant
            0 <= i <= s@.len(),
            last_at(s@, c) == last_at(s@.take(i as int), c),
        decreases i,
    {
        i = i - 1;
        proof {
            assert(s@.take(i + 1int).drop_last() =~= s@.take(i as int));
            assert(s@.take(i + 1int)[i as int] == s@[i as int]);
        }
        if s[i] == c {
            return Some(i);
        }
    }
    None
}

/// Whether `c` occurs anywhere in `s`.
pub fn contains_char(s: &Vec<char>, c: char) -> (r: bool)
    ensures
        r == exists|j: int| 0 <= j < s@.len() && s@[j] == c,
{
    match find_char(s, c) {
        Some(_) => true,
        None => false,
    }
}

/// Whether `c` occurs in `s` at or after position `from`.
pub fn contains_char_from(s: &Vec<char>, c: char, from: usize) -> (r: bool)
    ensures
        r == exists|j: int| from <= j < s@.len() && s@[j] == c,
{
    let mut i: usize = from;
    while i < s.len()
        invariant
            from <= i,
            forall|j: int| from <= j < i ==> j < s@.len() ==> s@[j] != c,
        decreases s@.len() - i,
    {
        if s[i] == c {
            return true;
        }
        i = i + 1;
    }
    false
}

} // verus!
