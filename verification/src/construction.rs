//! The dataset format and the graph builder.
//!
//! A dataset is text with one edge per line: two labels, each a decimal
//! number that fits in 32 bits, separated by whitespace. Empty lines and
//! lines that begin with `#` are skipped. Any other line is malformed and
//! makes the whole build fail.

use vstd::prelude::*;
use vstd::slice::slice_subrange;
use crate::graph::RoadGraph;
use crate::model::Edges;

verus! {

/// The characters that separate tokens: the Unicode white space.
pub open spec fn is_space(c: char) -> bool {
    let u = c as u32;
    ||| 0x09 <= u <= 0x0D
    ||| u == 0x20
    ||| u == 0x85
    ||| u == 0xA0
    ||| u == 0x1680
    ||| 0x2000 <= u <= 0x200A
    ||| u == 0x2028
    ||| u == 0x2029
    ||| u == 0x202F
    ||| u == 0x205F
    ||| u == 0x3000
}

/// Whether `c` separates tokens.
pub fn is_whitespace(c: char) -> (space: bool)
    ensures
        space == is_space(c),
{
    let u: u32 = c as u32;
    (0x09 <= u && u <= 0x0D) || u == 0x20 || u == 0x85 || u == 0xA0 || u == 0x1680 || (0x2000 <= u
        && u <= 0x200A) || u == 0x2028 || u == 0x2029 || u == 0x202F || u == 0x205F || u == 0x3000
}

/// The characters of `text`, in order.
pub fn characters(text: &str) -> (chars: Vec<char>)
    ensures
        chars@ == text@,
{
    let mut chars: Vec<char> = Vec::new();
    for c in it: text.chars()
        invariant
            chars@ == it.seq().take(it.index()),
    {
        chars.push(c);
        assert(it.seq().take(it.index() + 1) =~= it.seq().take(it.index()).push(c));
    }
    assert(chars@ =~= text@);
    chars
}


/// An ASCII decimal digit.
pub open spec fn is_digit(c: char) -> bool {
    '0' <= c <= '9'
}

/// The value of a decimal digit.
pub open spec fn digit_value(c: char) -> nat {
    (c as u32 - '0' as u32) as nat
}

/// The number that a sequence of decimal digits denotes.
pub open spec fn decimal_value(digits: Seq<char>) -> nat
    decreases digits.len(),
{
    if digits.len() == 0 {
        0
    } else {
        10 * decimal_value(digits.drop_last()) + digit_value(digits.last())
    }
}

/// The digits of a token: the token without a leading `+`.
pub open spec fn digits_of(token: Seq<char>) -> Seq<char> {
    if token.len() > 0 && token[0] == '+' {
        token.skip(1)
    } else {
        token
    }
}

/// The label that a token denotes: the token is an optional `+` followed by
/// at least one decimal digit, and the number fits in 32 bits.
pub open spec fn label_of(token: Seq<char>) -> Option<u32> {
    let digits = digits_of(token);
    if digits.len() > 0 && (forall|i: int| 0 <= i < digits.len() ==> is_digit(#[trigger] digits[i]))
        && decimal_value(digits) <= u32::MAX {
        Some(decimal_value(digits) as u32)
    } else {
        None
    }
}

/// A prefix of a digit sequence denotes no larger a number than the whole.
pub proof fn lemma_decimal_value_grows(digits: Seq<char>, k: int)
    requires
        0 <= k <= digits.len(),
    ensures
        decimal_value(digits.take(k)) <= decimal_value(digits),
    decreases digits.len(),
{
    if k == digits.len() {
        assert(digits.take(k) =~= digits);
    } else {
        lemma_decimal_value_grows(digits.drop_last(), k);
        assert(digits.drop_last().take(k) =~= digits.take(k));
    }
}

/// Reads a label from a token.
pub fn parse_label(token: &[char]) -> (label: Option<u32>)
    ensures
        label == label_of(token@),
{
    let n = token.len();
    let start: usize = if n > 0 && token[0] == '+' {
        1
    } else {
        0
    };
    let ghost digits = digits_of(token@);
    assert(digits =~= token@.skip(start as int));
    if start == n {
        return None;
    }
    let mut value: u64 = 0;
    let mut k: usize = start;
    assert(digits.take(0) =~= Seq::<char>::empty());
    while k < n
        invariant
            start <= k <= n,
            n == token@.len(),
            digits == token@.skip(start as int),
            digits == digits_of(token@),
            forall|i: int| 0 <= i < k - start ==> is_digit(#[trigger] digits[i]),
            value == decimal_value(digits.take(k - start)),
            value <= u32::MAX,
        decreases n - k,
    {
        let c = token[k];
        assert(digits[k - start] == c);
        if !(c >= '0' && c <= '9') {
            assert(!is_digit(digits[k - start]));
            return None;
        }
        let d: u64 = (c as u32 - '0' as u32) as u64;
        proof {
            let longer = digits.take(k - start + 1);
            assert(longer.drop_last() =~= digits.take(k - start));
            assert(longer.last() == c);
            assert(decimal_value(longer) == 10 * value + d);
        }
        value = value * 10 + d;
        if value > u32::MAX as u64 {
            proof {
                lemma_decimal_value_grows(digits, k - start + 1);
            }
            return None;
        }
        k += 1;
    }
    assert(digits.take(k - start) =~= digits);
    Some(value as u32)
}

/// The line holds exactly two tokens: `i0 .. i1` and `i2 .. i3` are maximal
/// runs of characters that are no white space, and all the rest is white
/// space.
pub open spec fn two_tokens_at(line: Seq<char>, i0: int, i1: int, i2: int, i3: int) -> bool {
    &&& 0 <= i0 < i1 < i2 < i3 <= line.len()
    &&& forall|k: int|
        (0 <= k < i0 || i1 <= k < i2 || i3 <= k < line.len()) ==> is_space(#[trigger] line[k])
    &&& forall|k: int| (i0 <= k < i1 || i2 <= k < i3) ==> !is_space(#[trigger] line[k])
}

/// The line is an edge line for the labels `a` and `b`: it holds exactly two
/// tokens, which denote `a` and `b`.
pub open spec fn is_edge_line(line: Seq<char>, a: u32, b: u32) -> bool {
    exists|i0: int, i1: int, i2: int, i3: int| #[trigger]
        two_tokens_at(line, i0, i1, i2, i3) && label_of(line.subrange(i0, i1)) == Some(a)
            && label_of(line.subrange(i2, i3)) == Some(b)
}

/// The line is skipped: it is empty or a comment.
pub open spec fn is_skipped(line: Seq<char>) -> bool {
    line.len() == 0 || line[0] == '#'
}

/// What a line of a dataset is.
#[derive(Clone, Copy, Debug, PartialEq, Eq, Structural)]
pub enum Line {
    /// An empty line or a comment.
    Skipped,
    /// An edge between the nodes with these two labels.
    Edge(u32, u32),
    /// Anything else.
    Malformed,
}

/// The edge that a line denotes, if it is an edge line.
pub open spec fn edge_of(line: Seq<char>) -> Option<(u32, u32)> {
    if exists|p: (u32, u32)| is_edge_line(line, p.0, p.1) {
        Some(choose|p: (u32, u32)| is_edge_line(line, p.0, p.1))
    } else {
        None
    }
}

/// The kind of a line.
pub open spec fn line_kind(line: Seq<char>) -> Line {
    if is_skipped(line) {
        Line::Skipped
    } else {
        match edge_of(line) {
            Some(p) => Line::Edge(p.0, p.1),
            None => Line::Malformed,
        }
    }
}

/// A line splits into two tokens in one way only.
pub proof fn lemma_two_tokens_unique(
    line: Seq<char>,
    i0: int,
    i1: int,
    i2: int,
    i3: int,
    j0: int,
    j1: int,
    j2: int,
    j3: int,
)
    requires
        two_tokens_at(line, i0, i1, i2, i3),
        two_tokens_at(line, j0, j1, j2, j3),
    ensures
        i0 == j0,
        i1 == j1,
        i2 == j2,
        i3 == j3,
{
    if i0 < j0 {
        assert(is_space(line[i0]));
    }
    if j0 < i0 {
        assert(is_space(line[j0]));
    }
    if i1 < j1 {
        assert(is_space(line[i1]));
    }
    if j1 < i1 {
        assert(is_space(line[j1]));
    }
    if i2 < j2 {
        assert(is_space(line[j2 - 1]));
        assert(!is_space(line[i2]));
    }
    if j2 < i2 {
        assert(is_space(line[i2 - 1]));
        assert(!is_space(line[j2]));
    }
    if i3 < j3 {
        assert(is_space(line[i3]));
    }
    if j3 < i3 {
        assert(is_space(line[j3]));
    }
}

/// An edge line denotes one edge only.
pub proof fn lemma_edge_line_unique(line: Seq<char>, a: u32, b: u32)
    requires
        is_edge_line(line, a, b),
    ensures
        edge_of(line) == Some((a, b)),
{
    let p = (a, b);
    assert(is_edge_line(line, p.0, p.1));
    let q = choose|q: (u32, u32)| is_edge_line(line, q.0, q.1);
    let (i0, i1, i2, i3) = choose|i0: int, i1: int, i2: int, i3: int| #[trigger]
        two_tokens_at(line, i0, i1, i2, i3) && label_of(line.subrange(i0, i1)) == Some(a)
            && label_of(line.subrange(i2, i3)) == Some(b);
    let (j0, j1, j2, j3) = choose|j0: int, j1: int, j2: int, j3: int| #[trigger]
        two_tokens_at(line, j0, j1, j2, j3) && label_of(line.subrange(j0, j1)) == Some(q.0)
            && label_of(line.subrange(j2, j3)) == Some(q.1);
    lemma_two_tokens_unique(line, i0, i1, i2, i3, j0, j1, j2, j3);
}

/// The end of the run of characters from `from` on that are white space
/// (`space`) or are not (`!space`).
fn run_end(line: &[char], from: usize, space: bool) -> (end: usize)
    requires
        from <= line@.len(),
    ensures
        from <= end <= line@.len(),
        forall|k: int| from <= k < end ==> is_space(#[trigger] line@[k]) == space,
        end < line@.len() ==> is_space(line@[end as int]) != space,
{
    let mut end: usize = from;
    while end < line.len() && is_whitespace(line[end]) == space
        invariant
            from <= end <= line@.len(),
            forall|k: int| from <= k < end ==> is_space(#[trigger] line@[k]) == space,
        decreases line@.len() - end,
    {
        end += 1;
    }
    end
}

/// Classifies a line of a dataset.
pub fn parse_line(line: &[char]) -> (kind: Line)
    ensures
        kind == line_kind(line@),
{
    let n = line.len();
    if n == 0 || line[0] == '#' {
        return Line::Skipped;
    }
    let i0 = run_end(line, 0, true);
    let i1 = run_end(line, i0, false);
    let i2 = run_end(line, i1, true);
    let i3 = run_end(line, i2, false);
    let i4 = run_end(line, i3, true);
    if i0 < i1 && i2 < i3 && i4 == n {
        assert(two_tokens_at(line@, i0 as int, i1 as int, i2 as int, i3 as int));
        let first = parse_label(slice_subrange(line, i0, i1));
        let second = parse_label(slice_subrange(line, i2, i3));
        if let (Some(a), Some(b)) = (first, second) {
            proof {
                lemma_edge_line_unique(line@, a, b);
            }
            return Line::Edge(a, b);
        }
        assert forall|p: (u32, u32)| !is_edge_line(line@, p.0, p.1) by {
            if is_edge_line(line@, p.0, p.1) {
                let (j0, j1, j2, j3) = choose|j0: int, j1: int, j2: int, j3: int| #[trigger]
                    two_tokens_at(line@, j0, j1, j2, j3) && label_of(line@.subrange(j0, j1))
                        == Some(p.0) && label_of(line@.subrange(j2, j3)) == Some(p.1);
                lemma_two_tokens_unique(
                    line@,
                    i0 as int,
                    i1 as int,
                    i2 as int,
                    i3 as int,
                    j0,
                    j1,
                    j2,
                    j3,
                );
            }
        }
        Line::Malformed
    } else {
        assert forall|p: (u32, u32)| !is_edge_line(line@, p.0, p.1) by {
            if is_edge_line(line@, p.0, p.1) {
                let (j0, j1, j2, j3) = choose|j0: int, j1: int, j2: int, j3: int| #[trigger]
                    two_tokens_at(line@, j0, j1, j2, j3) && label_of(line@.subrange(j0, j1))
                        == Some(p.0) && label_of(line@.subrange(j2, j3)) == Some(p.1);
                // the runs found above are the runs of any split into two tokens
                if i0 < j0 {
                    assert(is_space(line@[i0 as int]));
                }
                if j0 < i0 {
                    assert(!is_space(line@[j0]));
                }
                assert(i0 == j0);
                if i1 < j1 {
                    assert(!is_space(line@[i1 as int]));
                }
                if j1 < i1 {
                    assert(is_space(line@[j1]));
                }
                assert(i1 == j1);
                if i2 < j2 {
                    assert(is_space(line@[i2 as int]));
                }
                if j2 < i2 {
                    assert(!is_space(line@[j2]));
                }
                assert(i2 == j2);
                if i3 < j3 {
                    assert(!is_space(line@[i3 as int]));
                }
                if j3 < i3 {
                    assert(is_space(line@[j3]));
                }
                assert(i3 == j3);
                if i4 < n {
                    assert(is_space(line@[i4 as int]));
                }
            }
        }
        Line::Malformed
    }
}


/// The number of characters from `from` up to the next line feed or the end
/// of the text.
pub open spec fn line_len(s: Seq<char>, from: int) -> nat
    decreases s.len() - from,
{
    if from < 0 || from >= s.len() || s[from] == '\n' {
        0
    } else {
        1 + line_len(s, from + 1)
    }
}

/// The index of the first line feed at or after `from`, or the length of the
/// text if there is none.
pub open spec fn line_stop(s: Seq<char>, from: int) -> int {
    from + line_len(s, from)
}

/// The line that starts at `from`, without its terminator: a line feed, or a
/// carriage return and a line feed.
pub open spec fn line_at(s: Seq<char>, from: int) -> Seq<char> {
    let stop = line_stop(s, from);
    if stop < s.len() && from < stop && s[stop - 1] == '\r' {
        s.subrange(from, stop - 1)
    } else {
        s.subrange(from, stop)
    }
}

/// The lines of the text from `from` on.
pub open spec fn lines_from(s: Seq<char>, from: int) -> Seq<Seq<char>>
    decreases s.len() - from,
{
    if from < 0 || from >= s.len() {
        Seq::empty()
    } else if line_stop(s, from) >= s.len() {
        seq![line_at(s, from)]
    } else {
        seq![line_at(s, from)] + lines_from(s, line_stop(s, from) + 1)
    }
}

/// The lines of a text. A line ends at a line feed or at the end of the
/// text; a text that ends in a line feed has no empty last line.
pub open spec fn lines_of(s: Seq<char>) -> Seq<Seq<char>> {
    lines_from(s, 0)
}

/// A line stops at the first line feed, and not before.
pub proof fn lemma_line_stop(s: Seq<char>, from: int)
    requires
        0 <= from <= s.len(),
    ensures
        from <= line_stop(s, from) <= s.len(),
        forall|k: int| from <= k < line_stop(s, from) ==> #[trigger] s[k] != '\n',
        line_stop(s, from) < s.len() ==> s[line_stop(s, from)] == '\n',
    decreases s.len() - from,
{
    if from < s.len() && s[from] != '\n' {
        lemma_line_stop(s, from + 1);
    }
}

/// `labels` with `l` appended, unless it is there already.
pub open spec fn with_label(labels: Seq<u32>, l: u32) -> Seq<u32> {
    if labels.contains(l) {
        labels
    } else {
        labels.push(l)
    }
}

/// The labels that occur in a list of edges, each once, in the order of
/// their first occurrence.
pub open spec fn distinct_labels(pairs: Seq<(u32, u32)>) -> Seq<u32>
    decreases pairs.len(),
{
    if pairs.len() == 0 {
        Seq::empty()
    } else {
        with_label(with_label(distinct_labels(pairs.drop_last()), pairs.last().0), pairs.last().1)
    }
}

/// The edges of a list of labelled edges, between node indices: a label
/// stands for its position among the distinct labels.
pub open spec fn indexed_edges(pairs: Seq<(u32, u32)>) -> Edges {
    Seq::new(
        pairs.len(),
        |i: int|
            (
                distinct_labels(pairs).index_of(pairs[i].0),
                distinct_labels(pairs).index_of(pairs[i].1),
            ),
    )
}

/// The set of labels that occur in a list of edges.
pub open spec fn label_set(pairs: Seq<(u32, u32)>) -> Set<u32> {
    Set::new(
        |l: u32| exists|i: int| 0 <= i < pairs.len() && ((#[trigger] pairs[i]).0 == l || pairs[i].1 == l),
    )
}

/// A graph holds at most `u32::MAX` nodes and as many edges.
pub open spec fn fits(pairs: Seq<(u32, u32)>) -> bool {
    pairs.len() <= u32::MAX && distinct_labels(pairs).len() <= u32::MAX
}

/// Why a dataset was refused. Lines are numbered from 1.
#[derive(Clone, Copy, Debug, PartialEq, Eq, Structural)]
pub enum DatasetError {
    /// The line is neither skipped nor an edge line.
    Malformed { line: usize },
    /// With the edge of this line the graph would outgrow its index range.
    TooLarge { line: usize },
}

/// The edges that a sequence of lines denotes, or the first failure: lines
/// are taken in order, and the first line that is malformed, or whose edge
/// no longer fits, ends the reading.
pub open spec fn edge_list(lines: Seq<Seq<char>>) -> Result<Seq<(u32, u32)>, DatasetError>
    decreases lines.len(),
{
    if lines.len() == 0 {
        Ok(Seq::empty())
    } else {
        match edge_list(lines.drop_last()) {
            Err(e) => Err(e),
            Ok(pairs) => match line_kind(lines.last()) {
                Line::Skipped => Ok(pairs),
                Line::Malformed => Err(DatasetError::Malformed { line: lines.len() as usize }),
                Line::Edge(a, b) => if fits(pairs.push((a, b))) {
                    Ok(pairs.push((a, b)))
                } else {
                    Err(DatasetError::TooLarge { line: lines.len() as usize })
                },
            },
        }
    }
}

/// A failure among the first `k` lines is the failure of the whole.
pub proof fn lemma_edge_list_failure_stays(lines: Seq<Seq<char>>, k: int)
    requires
        0 <= k <= lines.len(),
        edge_list(lines.take(k)) is Err,
    ensures
        edge_list(lines) == edge_list(lines.take(k)),
    decreases lines.len(),
{
    if k == lines.len() {
        assert(lines.take(k) =~= lines);
    } else {
        assert(lines.drop_last().take(k) =~= lines.take(k));
        lemma_edge_list_failure_stays(lines.drop_last(), k);
    }
}

/// The distinct labels of a list of edges hold no label twice and hold
/// exactly the labels that occur in the list; reading one more edge only
/// appends to them.
pub proof fn lemma_distinct_labels(pairs: Seq<(u32, u32)>)
    ensures
        distinct_labels(pairs).no_duplicates(),
        forall|l: u32| distinct_labels(pairs).contains(l) <==> label_set(pairs).contains(l),
        pairs.len() > 0 ==> distinct_labels(pairs.drop_last()).is_prefix_of(
            distinct_labels(pairs),
        ),
    decreases pairs.len(),
{
    if pairs.len() > 0 {
        let rest = pairs.drop_last();
        let p = pairs.last();
        lemma_distinct_labels(rest);
        let l0 = distinct_labels(rest);
        let l1 = with_label(l0, p.0);
        let l2 = with_label(l1, p.1);
        assert(l2 == distinct_labels(pairs));
        lemma_with_label(l0, p.0);
        lemma_with_label(l1, p.1);
        assert forall|l: u32| l2.contains(l) <==> label_set(pairs).contains(l) by {
            if l2.contains(l) {
                if l == p.0 || l == p.1 {
                    assert(pairs[pairs.len() - 1].0 == l || pairs[pairs.len() - 1].1 == l);
                } else {
                    assert(l0.contains(l));
                    assert(label_set(rest).contains(l));
                    let i = choose|i: int|
                        0 <= i < rest.len() && ((#[trigger] rest[i]).0 == l || rest[i].1 == l);
                    assert(pairs[i] == rest[i]);
                }
            }
            if label_set(pairs).contains(l) {
                let i = choose|i: int|
                    0 <= i < pairs.len() && ((#[trigger] pairs[i]).0 == l || pairs[i].1 == l);
                if i < rest.len() {
                    assert(rest[i] == pairs[i]);
                    assert(label_set(rest).contains(l));
                    assert(l0.contains(l));
                }
            }
        }
    } else {
        assert forall|l: u32| !label_set(pairs).contains(l) by {}
    }
}

/// Adding a label keeps the earlier labels in place and keeps the sequence
/// free of duplicates.
pub proof fn lemma_with_label(labels: Seq<u32>, l: u32)
    ensures
        labels.is_prefix_of(with_label(labels, l)),
        labels.no_duplicates() ==> with_label(labels, l).no_duplicates(),
        forall|x: u32| with_label(labels, l).contains(x) <==> labels.contains(x) || x == l,
{
    let longer = with_label(labels, l);
    if !labels.contains(l) {
        assert(longer[labels.len() as int] == l);
        assert forall|x: u32| longer.contains(x) <==> labels.contains(x) || x == l by {
            if labels.contains(x) {
                let k = choose|k: int| 0 <= k < labels.len() && labels[k] == x;
                assert(longer[k] == x);
            }
            if longer.contains(x) {
                let k = choose|k: int| 0 <= k < longer.len() && longer[k] == x;
                if k < labels.len() {
                    assert(labels[k] == x);
                }
            }
        }
        if labels.no_duplicates() {
            assert forall|a: int, b: int|
                0 <= a < longer.len() && 0 <= b < longer.len() && a != b implies longer[a]
                != longer[b] by {
                if a == labels.len() {
                    assert(labels.contains(labels[b]));
                } else if b == labels.len() {
                    assert(labels.contains(labels[a]));
                }
            }
        }
    }
}

/// The number of nodes that a list of edges gives rise to is the number of
/// distinct labels in it, however often an edge or a label is repeated.
pub proof fn lemma_node_count_is_label_count(pairs: Seq<(u32, u32)>)
    ensures
        label_set(pairs).finite(),
        distinct_labels(pairs).len() == label_set(pairs).len(),
{
    lemma_distinct_labels(pairs);
    let labels = distinct_labels(pairs);
    assert(labels.to_set() =~= label_set(pairs));
    labels.unique_seq_to_set();
}

/// A malformed line among the lines makes the reading fail.
pub proof fn lemma_malformed_line_fails(lines: Seq<Seq<char>>, i: int)
    requires
        0 <= i < lines.len(),
        line_kind(lines[i]) == Line::Malformed,
    ensures
        edge_list(lines) is Err,
    decreases lines.len(),
{
    if i < lines.len() - 1 {
        lemma_malformed_line_fails(lines.drop_last(), i);
    }
}

/// A line with three tokens is malformed: if the characters at `a`, `b` and
/// `c` belong to tokens and white space lies between `a` and `b` and between
/// `b` and `c`, the line is no edge line.
pub proof fn lemma_three_tokens_malformed(line: Seq<char>, a: int, s1: int, b: int, s2: int, c: int)
    requires
        !is_skipped(line),
        0 <= a < s1 < b < s2 < c < line.len(),
        !is_space(line[a]),
        is_space(line[s1]),
        !is_space(line[b]),
        is_space(line[s2]),
        !is_space(line[c]),
    ensures
        line_kind(line) == Line::Malformed,
{
    assert forall|p: (u32, u32)| !is_edge_line(line, p.0, p.1) by {
        if is_edge_line(line, p.0, p.1) {
            let (j0, j1, j2, j3) = choose|j0: int, j1: int, j2: int, j3: int| #[trigger]
                two_tokens_at(line, j0, j1, j2, j3) && label_of(line.subrange(j0, j1)) == Some(
                    p.0,
                ) && label_of(line.subrange(j2, j3)) == Some(p.1);
            // each of a, b, c lies in one of the two tokens, and no white
            // space lies inside a token
            assert(j0 <= a < j1 || j2 <= a < j3);
            assert(j0 <= b < j1 || j2 <= b < j3);
            assert(j0 <= c < j1 || j2 <= c < j3);
            assert(!(j0 <= s1 < j1) && !(j2 <= s1 < j3));
            assert(!(j0 <= s2 < j1) && !(j2 <= s2 < j3));
        }
    }
}

/// Finds the end of the line that starts at `from`.
fn find_line_stop(text: &[char], from: usize) -> (stop: usize)
    requires
        from <= text@.len(),
    ensures
        stop == line_stop(text@, from as int),
        from <= stop <= text@.len(),
{
    let mut stop: usize = from;
    while stop < text.len() && text[stop] != '\n'
        invariant
            from <= stop <= text@.len(),
            line_stop(text@, from as int) == line_stop(text@, stop as int),
        decreases text@.len() - stop,
    {
        stop += 1;
    }
    stop
}

/// Builds the road graph of a dataset.
///
/// The lines of `text` are read in order. Empty lines and comments are
/// skipped. Every other line must hold exactly two labels and adds one edge
/// between the nodes that carry them; a label that has not occurred before
/// gets a new node with the next index. The first malformed line, or the
/// first edge with which the graph would outgrow its index range, ends the
/// build with an error that names the line.
pub fn read_dataset(text: &str) -> (built: Result<RoadGraph, DatasetError>)
    ensures
        match built {
            Ok(graph) => graph.wf() && edge_list(lines_of(text@)) is Ok && graph.labels()
                == distinct_labels(edge_list(lines_of(text@))->Ok_0) && graph.edges()
                == indexed_edges(edge_list(lines_of(text@))->Ok_0),
            Err(e) => edge_list(lines_of(text@)) == Err::<Seq<(u32, u32)>, DatasetError>(e),
        },
{
    let chars = characters(text);
    let all = chars.as_slice();
    let n = all.len();
    let mut graph = RoadGraph::new();
    let mut pos: usize = 0;
    let mut line_no: usize = 0;
    let ghost mut done: Seq<Seq<char>> = Seq::empty();
    let ghost mut pairs: Seq<(u32, u32)> = Seq::empty();
    proof {
        assert(done + lines_from(text@, 0) =~= lines_of(text@));
        assert(indexed_edges(pairs) =~= graph.edges());
    }
    while pos < n
        invariant
            all@ == text@,
            n == all@.len(),
            pos <= n,
            line_no <= pos,
            line_no == done.len(),
            graph.wf(),
            lines_of(text@) == done + lines_from(text@, pos as int),
            edge_list(done) == Ok::<Seq<(u32, u32)>, DatasetError>(pairs),
            graph.labels() == distinct_labels(pairs),
            graph.edges() == indexed_edges(pairs),
        decreases n - pos,
    {
        let stop = find_line_stop(all, pos);
        let end = if stop < n && pos < stop && all[stop - 1] == '\r' {
            stop - 1
        } else {
            stop
        };
        let line = slice_subrange(all, pos, end);
        let next = if stop < n {
            stop + 1
        } else {
            n
        };
        line_no += 1;
        let ghost before = done;
        proof {
            assert(line@ == line_at(text@, pos as int));
            done = done.push(line@);
            assert(lines_from(text@, pos as int) =~= seq![line@] + lines_from(
                text@,
                next as int,
            ));
            assert(lines_of(text@) =~= done + lines_from(text@, next as int));
            assert(lines_of(text@).take(done.len() as int) =~= done);
            assert(done.drop_last() =~= before);
        }
        match parse_line(line) {
            Line::Skipped => {},
            Line::Malformed => {
                proof {
                    lemma_edge_list_failure_stays(lines_of(text@), done.len() as int);
                }
                return Err(DatasetError::Malformed { line: line_no });
            },
            Line::Edge(a, b) => {
                let ghost longer = pairs.push((a, b));
                let ghost l0 = graph.labels();
                proof {
                    assert(longer.drop_last() =~= pairs);
                    lemma_distinct_labels(pairs);
                    lemma_distinct_labels(longer);
                    lemma_with_label(l0, a);
                    lemma_with_label(with_label(l0, a), b);
                }
                let from = graph.add_node(a);
                let ghost l1 = graph.labels();
                let to = match from {
                    Some(_) => graph.add_node(b),
                    None => None,
                };
                let added = match (from, to) {
                    (Some(i), Some(j)) => graph.add_edge(i, j),
                    _ => false,
                };
                if !added {
                    proof {
                        assert(!fits(longer));
                        lemma_edge_list_failure_stays(lines_of(text@), done.len() as int);
                    }
                    return Err(DatasetError::TooLarge { line: line_no });
                }
                proof {
                    let l2 = graph.labels();
                    assert(l2 == distinct_labels(longer));
                    assert(fits(longer));
                    let i = from->0 as int;
                    let j = to->0 as int;
                    assert(l2[i] == a && l2[j] == b);
                    assert forall|k: int| 0 <= k < longer.len() implies indexed_edges(longer)[k]
                        == graph.edges()[k] by {
                        lemma_position_stays(l0, l2, longer[k].0);
                        lemma_position_stays(l0, l2, longer[k].1);
                        if k < pairs.len() {
                            assert(longer[k] == pairs[k]);
                            assert(label_set(pairs).contains(pairs[k].0));
                            assert(label_set(pairs).contains(pairs[k].1));
                            assert(indexed_edges(pairs)[k] == graph.edges()[k]);
                        }
                    }
                    assert(indexed_edges(longer) =~= graph.edges());
                    pairs = longer;
                }
            },
        }
        pos = next;
    }
    proof {
        assert(done + lines_from(text@, pos as int) =~= done);
    }
    Ok(graph)
}

/// In a sequence without duplicates a label has one position, which is its
/// position in every prefix that holds it.
pub proof fn lemma_position_stays(prefix: Seq<u32>, labels: Seq<u32>, l: u32)
    requires
        prefix.is_prefix_of(labels),
        labels.no_duplicates(),
    ensures
        forall|i: int| 0 <= i < labels.len() && labels[i] == l ==> labels.index_of(l) == i,
        prefix.contains(l) ==> labels.index_of(l) == prefix.index_of(l),
{
    if prefix.contains(l) {
        let k = prefix.index_of(l);
        assert(labels[k] == l);
    }
}

} // verus!
