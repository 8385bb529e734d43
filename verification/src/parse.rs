//! The edge-list format: one edge per line, written as the identifier of its
//! tail and the identifier of its head, separated by blanks.
//!
//! Lines end with a line feed; the last line may go without one. Blanks are
//! spaces, tabs, carriage returns, vertical tabs and form feeds; they may
//! also stand before the first and after the second identifier. An
//! identifier is a decimal number from `1` to `i32::MAX`, written with
//! digits, before which a plus sign may stand.

use crate::error::SccError;
use vstd::prelude::*;

verus! {

/// Whether `b` is a blank.
pub open spec fn is_blank(b: u8) -> bool {
    b == 32 || b == 9 || b == 11 || b == 12 || b == 13
}

/// Whether `b` is a decimal digit.
pub open spec fn is_digit(b: u8) -> bool {
    48 <= b <= 57
}

/// Where the line that begins at `i` ends: the position of the first line
/// feed from `i` on, or the end of the text.
pub open spec fn line_end(s: Seq<u8>, i: int) -> int
    decreases s.len() - i,
{
    if i >= s.len() {
        s.len() as int
    } else if s[i] == 10 {
        i
    } else {
        line_end(s, i + 1)
    }
}

/// The first position from `i` on, before `end`, that holds no blank; `end` if there is none.
pub open spec fn skip_blanks(s: Seq<u8>, i: int, end: int) -> int
    decreases end - i,
{
    if i < end && is_blank(s[i]) {
        skip_blanks(s, i + 1, end)
    } else {
        i
    }
}

/// The first position from `i` on, before `end`, that holds a blank; `end` if there is none.
pub open spec fn token_end(s: Seq<u8>, i: int, end: int) -> int
    decreases end - i,
{
    if i < end && !is_blank(s[i]) {
        token_end(s, i + 1, end)
    } else {
        i
    }
}

/// The number that the digits at the positions `i..j` denote; `None` if there
/// is no digit or a byte that is not a digit.
pub open spec fn number(s: Seq<u8>, i: int, j: int) -> Option<int>
    decreases j - i,
{
    if j <= i || !is_digit(s[j - 1]) {
        None
    } else if j - 1 == i {
        Some(s[i] - 48)
    } else {
        match number(s, i, j - 1) {
            Some(x) => Some(10 * x + (s[j - 1] - 48)),
            None => None,
        }
    }
}

/// Where the digits of the identifier at the positions `i..j` begin: after its plus sign, if it has one.
pub open spec fn digits_from(s: Seq<u8>, i: int, j: int) -> int {
    if i < j && s[i] == 43 {
        i + 1
    } else {
        i
    }
}

/// The vertex identifier at the positions `i..j`.
pub open spec fn vertex(s: Seq<u8>, i: int, j: int) -> Option<i32> {
    match number(s, digits_from(s, i, j), j) {
        Some(x) => if 1 <= x <= i32::MAX {
            Some(x as i32)
        } else {
            None
        },
        None => None,
    }
}

/// The edge `(tail, head)` on the line at the positions `i..end`: the line
/// must hold exactly two identifiers.
pub open spec fn edge_on_line(s: Seq<u8>, i: int, end: int) -> Option<(i32, i32)> {
    let tail_from = skip_blanks(s, i, end);
    let tail_to = token_end(s, tail_from, end);
    let head_from = skip_blanks(s, tail_to, end);
    let head_to = token_end(s, head_from, end);
    let rest = skip_blanks(s, head_to, end);
    if rest == end {
        match (vertex(s, tail_from, tail_to), vertex(s, head_from, head_to)) {
            (Some(tail), Some(head)) => Some((tail, head)),
            _ => None,
        }
    } else {
        None
    }
}

/// A line ends at or after its beginning, within the text, and before a line feed if before anything.
pub proof fn lemma_line_end(s: Seq<u8>, i: int)
    requires
        0 <= i <= s.len(),
    ensures
        i <= line_end(s, i) <= s.len(),
        line_end(s, i) < s.len() ==> s[line_end(s, i)] == 10,
    decreases s.len() - i,
{
    if i < s.len() && s[i] != 10 {
        lemma_line_end(s, i + 1);
    }
}

/// The edges on the lines from position `i` on; `None` if one of the lines
/// holds no edge.
pub open spec fn edges_from(s: Seq<u8>, i: int) -> Option<Seq<(i32, i32)>>
    decreases s.len() + 1 - i,
{
    if i < 0 || i >= s.len() {
        Some(Seq::empty())
    } else {
        let end = line_end(s, i);
        match edge_on_line(s, i, end) {
            None => None,
            Some(edge) => {
                proof {
                    lemma_line_end(s, i);
                }
                match edges_from(s, end + 1) {
                    None => None,
                    Some(rest) => Some(seq![edge] + rest),
                }
            },
        }
    }
}

/// The edges that the text `s` lists, in its order; `None` if `s` is no edge list.
pub open spec fn parse(s: Seq<u8>) -> Option<Seq<(i32, i32)>> {
    edges_from(s, 0)
}

/// Both ends of every edge are positive.
pub open spec fn positive(edges: Seq<(i32, i32)>) -> bool {
    forall|k: int| 0 <= k < edges.len() ==> (#[trigger] edges[k]).0 >= 1 && edges[k].1 >= 1
}

/// A number has no more digits than it is large: its beginnings denote numbers
/// that are not larger.
proof fn lemma_number_prefix(s: Seq<u8>, i: int, k: int, j: int)
    requires
        i < k <= j,
    ensures
        match number(s, i, j) {
            Some(x) => match number(s, i, k) {
                Some(y) => 0 <= y <= x,
                None => false,
            },
            None => true,
        },
    decreases j - i,
{
    if k < j {
        if number(s, i, j) is Some {
            lemma_number_prefix(s, i, k, j - 1);
        }
    } else if j - 1 > i {
        if number(s, i, j) is Some {
            lemma_number_prefix(s, i, j - 1, j - 1);
        }
    }
}

/// Finds the end of the line that begins at `start`.
fn find_line_end(s: &[u8], start: usize) -> (end: usize)
    requires
        start <= s.len(),
    ensures
        end == line_end(s@, start as int),
        start <= end <= s.len(),
{
    let mut end = start;
    while end < s.len() && s[end] != 10
        invariant
            start <= end <= s.len(),
            line_end(s@, start as int) == line_end(s@, end as int),
        decreases s.len() - end,
    {
        end = end + 1;
    }
    end
}

/// Finds the first byte from `start` on, before `end`, that is no blank.
fn find_non_blank(s: &[u8], start: usize, end: usize) -> (at: usize)
    requires
        start <= end <= s.len(),
    ensures
        at == skip_blanks(s@, start as int, end as int),
        start <= at <= end,
{
    let mut at = start;
    while at < end && (s[at] == 32 || s[at] == 9 || s[at] == 11 || s[at] == 12 || s[at] == 13)
        invariant
            start <= at <= end <= s.len(),
            skip_blanks(s@, start as int, end as int) == skip_blanks(s@, at as int, end as int),
        decreases end - at,
    {
        at = at + 1;
    }
    at
}

/// Finds the first blank from `start` on, before `end`.
fn find_blank(s: &[u8], start: usize, end: usize) -> (at: usize)
    requires
        start <= end <= s.len(),
    ensures
        at == token_end(s@, start as int, end as int),
        start <= at <= end,
{
    let mut at = start;
    while at < end && !(s[at] == 32 || s[at] == 9 || s[at] == 11 || s[at] == 12 || s[at] == 13)
        invariant
            start <= at <= end <= s.len(),
            token_end(s@, start as int, end as int) == token_end(s@, at as int, end as int),
        decreases end - at,
    {
        at = at + 1;
    }
    at
}

/// Reads the vertex identifier that the bytes from `start` to `end` spell.
fn read_vertex(s: &[u8], start: usize, end: usize) -> (r: Option<i32>)
    requires
        start <= end <= s.len(),
    ensures
        r == vertex(s@, start as int, end as int),
{
    let from = if start < end && s[start] == 43 {
        start + 1
    } else {
        start
    };
    if from == end {
        return None;
    }
    let mut value: i64 = 0;
    let mut at = from;
    while at < end
        invariant
            from <= at <= end <= s.len(),
            from < end,
            from == digits_from(s@, start as int, end as int),
            0 <= value <= i32::MAX,
            at == from ==> value == 0,
            at > from ==> number(s@, from as int, at as int) == Some(value as int),
        decreases end - at,
    {
        let b = s[at];
        if b < 48 || b > 57 {
            proof {
                lemma_number_prefix(s@, from as int, at + 1, end as int);
            }
            return None;
        }
        value = value * 10 + (b - 48) as i64;
        at = at + 1;
        if value > i32::MAX as i64 {
            proof {
                lemma_number_prefix(s@, from as int, at as int, end as int);
            }
            return None;
        }
    }
    if value >= 1 {
        Some(value as i32)
    } else {
        None
    }
}

/// Reads the edge on the line from `start` to `end`.
fn read_edge(s: &[u8], start: usize, end: usize) -> (r: Option<(i32, i32)>)
    requires
        start <= end <= s.len(),
    ensures
        r == edge_on_line(s@, start as int, end as int),
{
    let tail_from = find_non_blank(s, start, end);
    let tail_to = find_blank(s, tail_from, end);
    let head_from = find_non_blank(s, tail_to, end);
    let head_to = find_blank(s, head_from, end);
    let rest = find_non_blank(s, head_to, end);
    if rest != end {
        return None;
    }
    match read_vertex(s, tail_from, tail_to) {
        Some(tail) => match read_vertex(s, head_from, head_to) {
            Some(head) => Some((tail, head)),
            None => None,
        },
        None => None,
    }
}

/// Reads an edge list. A line that does not hold exactly two vertex
/// identifiers fails the whole text.
pub fn parse_edges(source: &[u8]) -> (result: Result<Vec<(i32, i32)>, SccError>)
    ensures
        match parse(source@) {
            Some(edges) => result matches Ok(list) && list@ == edges && positive(edges),
            None => result == Err::<Vec<(i32, i32)>, SccError>(SccError::ParseError),
        },
{
    let mut list: Vec<(i32, i32)> = Vec::new();
    let mut at: usize = 0;
    while at < source.len()
        invariant
            at <= source.len(),
            positive(list@),
            match edges_from(source@, at as int) {
                Some(rest) => parse(source@) == Some(list@ + rest),
                None => parse(source@) is None,
            },
        decreases source.len() - at,
    {
        let end = find_line_end(source, at);
        match read_edge(source, at, end) {
            Some(edge) => {
                proof {
                    match edges_from(source@, end + 1) {
                        Some(rest) => {
                            assert(list@.push(edge) + rest =~= list@ + (seq![edge] + rest));
                        },
                        None => {},
                    }
                }
                list.push(edge);
            },
            None => {
                return Err(SccError::ParseError);
            },
        }
        if end < source.len() {
            at = end + 1;
        } else {
            at = end;
        }
    }
    assert(list@ + Seq::<(i32, i32)>::empty() =~= list@);
    Ok(list)
}

} // verus!
