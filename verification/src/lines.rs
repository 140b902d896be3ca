//! Text split into lines the way `str::split_inclusive('\n')` splits it.

use vstd::prelude::*;

verus! {

/// The length of the first line of `s`, its newline included.
pub open spec fn line_len(s: Seq<char>) -> nat
    decreases s.len(),
{
    if s.len() == 0 {
        0
    } else if s[0] == '\n' {
        1
    } else {
        1 + line_len(s.drop_first())
    }
}

pub proof fn lemma_line_len_bounds(s: Seq<char>)
    ensures
        line_len(s) <= s.len(),
        s.len() > 0 ==> line_len(s) >= 1,
    decreases s.len(),
{
    if s.len() > 0 && s[0] != '\n' {
        lemma_line_len_bounds(s.drop_first());
    }
}

/// `s` cut after each newline; the last line may lack one.
pub open spec fn split_lines(s: Seq<char>) -> Seq<Seq<char>>
    decreases s.len(),
{
    if s.len() == 0 {
        Seq::empty()
    } else {
        proof {
            lemma_line_len_bounds(s);
        }
        seq![s.take(line_len(s) as int)] + split_lines(s.skip(line_len(s) as int))
    }
}

/// Joining the lines gives back the text.
pub proof fn lemma_split_lines_flatten(s: Seq<char>)
    ensures
        split_lines(s).flatten() == s,
    decreases s.len(),
{
    if s.len() > 0 {
        lemma_line_len_bounds(s);
        let k = line_len(s) as int;
        lemma_split_lines_flatten(s.skip(k));
        let lines = split_lines(s);
        assert(lines.first() == s.take(k));
        assert(lines.drop_first() =~= split_lines(s.skip(k)));
        assert(s.take(k) + s.skip(k) =~= s);
    }
}

/// A complete line: nonempty, ending with its only newline.
pub open spec fn is_complete_line(l: Seq<char>) -> bool {
    &&& l.len() > 0
    &&& l[l.len() - 1] == '\n'
    &&& forall|j: int| 0 <= j < l.len() - 1 ==> l[j] != '\n'
}

/// A line as `split_lines` cuts it: nonempty, with no newline before its
/// last character.
pub open spec fn is_line(l: Seq<char>) -> bool {
    &&& l.len() > 0
    &&& forall|j: int| 0 <= j < l.len() - 1 ==> l[j] != '\n'
}

/// A line that ends with a newline.
pub open spec fn ends_with_newline(l: Seq<char>) -> bool {
    l.len() > 0 && l[l.len() - 1] == '\n'
}

/// Lines as `split_lines` gives them: every one a line, and every one but the
/// last complete.
pub open spec fn is_line_sequence(lines: Seq<Seq<char>>) -> bool {
    &&& forall|i: int| 0 <= i < lines.len() ==> is_line(#[trigger] lines[i])
    &&& forall|i: int| 0 <= i < lines.len() - 1 ==> is_complete_line(#[trigger] lines[i])
}

/// Any text splits into a line sequence.
pub proof fn lemma_split_lines_shape(s: Seq<char>)
    ensures
        is_line_sequence(split_lines(s)),
    decreases s.len(),
{
    if s.len() > 0 {
        lemma_line_len_bounds(s);
        let k = line_len(s) as int;
        lemma_split_lines_shape(s.skip(k));
        let lines = split_lines(s);
        let rest = split_lines(s.skip(k));
        assert(lines == seq![s.take(k)] + rest);
        if exists|j: int| 0 <= j < s.len() && s[j] == '\n' {
            let j = choose|j: int| 0 <= j < s.len() && s[j] == '\n';
            lemma_first_newline_exists(s, j);
            let m = choose|m: int|
                0 <= m < s.len() && s[m] == '\n' && forall|i: int| 0 <= i < m ==> s[i] != '\n';
            lemma_line_len_at(s, m);
            assert(is_complete_line(s.take(k)));
        } else {
            lemma_line_len_none(s);
            assert(s.skip(k) =~= Seq::<char>::empty());
            assert(rest.len() == 0);
        }
        assert forall|i: int| 0 <= i < lines.len() implies is_line(#[trigger] lines[i]) by {
            if i > 0 {
                assert(lines[i] == rest[i - 1]);
            }
        }
        assert forall|i: int| 0 <= i < lines.len() - 1 implies is_complete_line(#[trigger] lines[i]) by {
            if i > 0 {
                assert(lines[i] == rest[i - 1]);
            }
        }
    }
}

/// The last character of joined lines is that of the last line.
pub proof fn lemma_flatten_last(lines: Seq<Seq<char>>)
    requires
        lines.len() > 0,
        lines.last().len() > 0,
    ensures
        lines.flatten().len() > 0,
        lines.flatten().last() == lines.last().last(),
{
    assert(lines =~= lines.drop_last().push(lines.last()));
    lines.drop_last().lemma_flatten_push(lines.last());
}

proof fn lemma_first_newline_exists(s: Seq<char>, m: int)
    requires
        0 <= m < s.len(),
        s[m] == '\n',
    ensures
        exists|k: int| 0 <= k < s.len() && s[k] == '\n' && forall|j: int| 0 <= j < k ==> s[j] != '\n',
    decreases m,
{
    if exists|j: int| 0 <= j < m && s[j] == '\n' {
        let j = choose|j: int| 0 <= j < m && s[j] == '\n';
        lemma_first_newline_exists(s, j);
    } else {
        assert(forall|j: int| 0 <= j < m ==> s[j] != '\n');
    }
}

/// A line sequence, joined, splits back into the same lines.
pub proof fn lemma_flatten_split_lines(lines: Seq<Seq<char>>)
    requires
        is_line_sequence(lines),
    ensures
        split_lines(lines.flatten()) == lines,
    decreases lines.len(),
{
    if lines.len() > 0 {
        let first = lines[0];
        let rest = lines.drop_first();
        assert forall|i: int| 0 <= i < rest.len() implies is_line(#[trigger] rest[i]) by {
            assert(rest[i] == lines[i + 1]);
        }
        assert forall|i: int| 0 <= i < rest.len() - 1 implies is_complete_line(#[trigger] rest[i]) by {
            assert(rest[i] == lines[i + 1]);
        }
        lemma_flatten_split_lines(rest);
        let s = lines.flatten();
        assert(s == first + rest.flatten());
        assert(is_line(lines[0]));
        if is_complete_line(first) {
            lemma_line_len_at(s, first.len() - 1);
        } else {
            assert(rest.len() == 0);
            assert(rest.flatten() =~= Seq::<char>::empty());
            assert(s =~= first);
            lemma_line_len_none(s);
        }
        assert(s.take(first.len() as int) =~= first);
        assert(s.skip(first.len() as int) =~= rest.flatten());
        assert(split_lines(s) =~= lines);
    }
}

/// The first newline of `s` stands at `k`.
pub proof fn lemma_line_len_at(s: Seq<char>, k: int)
    requires
        0 <= k < s.len(),
        s[k] == '\n',
        forall|j: int| 0 <= j < k ==> s[j] != '\n',
    ensures
        line_len(s) == k + 1,
    decreases k,
{
    if k > 0 {
        lemma_line_len_at(s.drop_first(), k - 1);
    }
}

/// `s` holds no newline.
pub proof fn lemma_line_len_none(s: Seq<char>)
    requires
        forall|j: int| 0 <= j < s.len() ==> s[j] != '\n',
    ensures
        line_len(s) == s.len(),
    decreases s.len(),
{
    if s.len() > 0 {
        lemma_line_len_none(s.drop_first());
    }
}

/// The lines that character ranges of `c` denote.
pub open spec fn ranges_text(c: Seq<char>, rs: Seq<(usize, usize)>) -> Seq<Seq<char>> {
    rs.map_values(|r: (usize, usize)| c.subrange(r.0 as int, r.1 as int))
}

pub open spec fn ranges_valid(c: Seq<char>, rs: Seq<(usize, usize)>) -> bool {
    forall|i: int| 0 <= i < rs.len() ==> #[trigger] rs[i].0 <= rs[i].1 <= c.len()
}

/// The character ranges of the lines of `c`.
pub fn line_ranges(c: &Vec<char>) -> (rs: Vec<(usize, usize)>)
    ensures
        ranges_valid(c@, rs@),
        ranges_text(c@, rs@) == split_lines(c@),
{
    let mut rs: Vec<(usize, usize)> = Vec::new();
    let mut start: usize = 0;
    let n = c.len();
    let mut i: usize = 0;
    proof {
        assert(c@.skip(0) =~= c@);
        assert(ranges_text(c@, rs@) =~= Seq::<Seq<char>>::empty());
        assert(ranges_text(c@, rs@) + split_lines(c@) =~= split_lines(c@));
    }
    while i < n
        invariant
            n == c@.len(),
            start <= i <= n,
            ranges_valid(c@, rs@),
            forall|j: int| start <= j < i ==> c@[j] != '\n',
            ranges_text(c@, rs@) + split_lines(c@.skip(start as int)) == split_lines(c@),
        decreases n - i,
    {
        if c[i] == '\n' {
            let ghost rest = c@.skip(start as int);
            proof {
                lemma_line_len_at(rest, i - start);
                assert(rest.take(i + 1 - start) =~= c@.subrange(start as int, i + 1));
                assert(rest.skip(i + 1 - start) =~= c@.skip(i + 1));
                assert(split_lines(rest) == seq![c@.subrange(start as int, i + 1)] + split_lines(
                    c@.skip(i + 1),
                ));
                assert(ranges_text(c@, rs@.push((start, (i + 1) as usize))) =~= ranges_text(c@, rs@).push(
                    c@.subrange(start as int, i + 1),
                ));
            }
            rs.push((start, i + 1));
            start = i + 1;
            proof {
                assert(ranges_text(c@, rs@) + split_lines(c@.skip(start as int)) =~= split_lines(
                    c@,
                ));
            }
        }
        i = i + 1;
    }
    if start < n {
        let ghost rest = c@.skip(start as int);
        proof {
            lemma_line_len_none(rest);
            assert(rest.take(rest.len() as int) =~= c@.subrange(start as int, n as int));
            assert(rest.skip(rest.len() as int) =~= Seq::<char>::empty());
            assert(split_lines(rest.skip(rest.len() as int)) =~= Seq::<Seq<char>>::empty());
            assert(ranges_text(c@, rs@.push((start, n))) =~= ranges_text(c@, rs@).push(
                c@.subrange(start as int, n as int),
            ));
        }
        rs.push((start, n));
        proof {
            assert(ranges_text(c@, rs@) =~= split_lines(c@));
        }
    } else {
        proof {
            assert(c@.skip(start as int) =~= Seq::<char>::empty());
            assert(ranges_text(c@, rs@) + Seq::<Seq<char>>::empty() =~= ranges_text(c@, rs@));
        }
    }
    rs
}

} // verus!
