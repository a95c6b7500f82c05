//! The text edge-list format: one edge per line as two unsigned decimal
//! integers separated by whitespace; lines whose first non-blank character is
//! `#` are comments.

use vstd::prelude::*;
use crate::csr::{ids_below, is_vertex_count, GraphError};
use crate::graph::{Graph, StaticDiGraph, StaticGraph};

verus! {

/// ASCII whitespace, as `trim` and `split_whitespace` treat it.
pub open spec fn is_space(b: u8) -> bool {
    b == 0x20 || b == 0x09 || b == 0x0a || b == 0x0b || b == 0x0c || b == 0x0d
}

/// The first index at or after `i` that holds no whitespace, or the length.
pub open spec fn skip_space(s: Seq<u8>, i: int) -> int
    decreases s.len() - i,
{
    if i >= s.len() {
        s.len() as int
    } else if is_space(s[i]) {
        skip_space(s, i + 1)
    } else {
        i
    }
}

/// The first index at or after `i` that holds whitespace, or the length.
pub open spec fn token_end(s: Seq<u8>, i: int) -> int
    decreases s.len() - i,
{
    if i >= s.len() {
        s.len() as int
    } else if is_space(s[i]) {
        i
    } else {
        token_end(s, i + 1)
    }
}

/// An ASCII decimal digit.
pub open spec fn is_digit(b: u8) -> bool {
    0x30 <= b <= 0x39
}

/// Value of a string of decimal digits.
pub open spec fn digits_value(t: Seq<u8>) -> int
    decreases t.len(),
{
    if t.len() == 0 {
        0
    } else {
        digits_value(t.drop_last()) * 10 + (t.last() - 0x30)
    }
}

/// A field without its optional leading `+`.
pub open spec fn unsigned_part(t: Seq<u8>) -> Seq<u8> {
    if t.len() > 0 && t[0] == 0x2b {
        t.subrange(1, t.len() as int)
    } else {
        t
    }
}

/// Every byte is a decimal digit.
pub open spec fn all_digits(d: Seq<u8>) -> bool {
    forall|k: int| 0 <= k < d.len() ==> is_digit(#[trigger] d[k])
}

/// An unsigned decimal as `u32::from_str` reads it: an optional `+`, then one
/// or more digits, with a value that fits.
pub open spec fn decimal_u32(t: Seq<u8>) -> Option<u32> {
    let d = unsigned_part(t);
    if d.len() > 0 && all_digits(d) && digits_value(d) <= u32::MAX {
        Some(digits_value(d) as u32)
    } else {
        None
    }
}

/// What a line says: `None` for a comment, the edge for two fields that are
/// both unsigned decimals; anything else is a parse error holding the line.
pub open spec fn line_meaning(s: Seq<u8>) -> Result<Option<(u32, u32)>, Seq<u8>> {
    let a = skip_space(s, 0);
    let b = token_end(s, a);
    let c = skip_space(s, b);
    let d = token_end(s, c);
    let e = skip_space(s, d);
    if a < s.len() && s[a] == 0x23 {
        Ok(None)
    } else if a == s.len() || c == s.len() || e < s.len() {
        Err(s)
    } else {
        match (decimal_u32(s.subrange(a, b)), decimal_u32(s.subrange(c, d))) {
            (Some(x), Some(y)) => Ok(Some((x, y))),
            _ => Err(s),
        }
    }
}

/// The edges of a sequence of lines, or the first line that does not parse.
pub open spec fn lines_meaning(lines: Seq<Seq<u8>>) -> Result<Seq<(u32, u32)>, Seq<u8>>
    decreases lines.len(),
{
    if lines.len() == 0 {
        Ok(Seq::empty())
    } else {
        match lines_meaning(lines.drop_last()) {
            Err(e) => Err(e),
            Ok(es) => match line_meaning(lines.last()) {
                Err(e) => Err(e),
                Ok(None) => Ok(es),
                Ok(Some(p)) => Ok(es.push(p)),
            },
        }
    }
}

/// The first index at or after `i` that holds no whitespace.
fn skip_space_from(s: &[u8], i: usize) -> (r: usize)
    requires
        i <= s@.len(),
    ensures
        r == skip_space(s@, i as int),
        i <= r <= s@.len(),
{
    let mut j = i;
    while j < s.len() && (s[j] == 0x20 || s[j] == 0x09 || s[j] == 0x0a || s[j] == 0x0b || s[j]
        == 0x0c || s[j] == 0x0d)
        invariant
            i <= j <= s@.len(),
            skip_space(s@, i as int) == skip_space(s@, j as int),
        decreases s@.len() - j,
    {
        j = j + 1;
    }
    j
}

/// The first index at or after `i` that holds whitespace.
fn token_end_from(s: &[u8], i: usize) -> (r: usize)
    requires
        i <= s@.len(),
    ensures
        r == token_end(s@, i as int),
        i <= r <= s@.len(),
{
    let mut j = i;
    while j < s.len() && !(s[j] == 0x20 || s[j] == 0x09 || s[j] == 0x0a || s[j] == 0x0b || s[j]
        == 0x0c || s[j] == 0x0d)
        invariant
            i <= j <= s@.len(),
            token_end(s@, i as int) == token_end(s@, j as int),
        decreases s@.len() - j,
    {
        j = j + 1;
    }
    j
}

/// Reads an unsigned decimal from `s[lo .. hi]`.
fn parse_decimal(s: &[u8], lo: usize, hi: usize) -> (r: Option<u32>)
    requires
        lo <= hi <= s@.len(),
    ensures
        r == decimal_u32(s@.subrange(lo as int, hi as int)),
{
    let ghost t = s@.subrange(lo as int, hi as int);
    let mut start = lo;
    if lo < hi && s[lo] == 0x2b {
        start = lo + 1;
    }
    let ghost d = s@.subrange(start as int, hi as int);
    assert(d == unsigned_part(t));
    if start == hi {
        return None;
    }
    let mut value: u64 = 0;
    let mut k = start;
    while k < hi
        invariant
            lo <= start <= k <= hi <= s@.len(),
            d == s@.subrange(start as int, hi as int),
            t == s@.subrange(lo as int, hi as int),
            d == unsigned_part(t),
            forall|j: int| 0 <= j < k - start ==> is_digit(#[trigger] d[j]),
            value == digits_value(d.subrange(0, k - start)),
            value <= u32::MAX,
        decreases hi - k,
    {
        let b = s[k];
        if b < 0x30 || b > 0x39 {
            assert(d[k - start] == b);
            assert(!is_digit(d[k - start]));
            assert(!(forall|j: int| 0 <= j < d.len() ==> is_digit(#[trigger] d[j])));
            assert(decimal_u32(t) is None);
            return None;
        }
        proof {
            let p = d.subrange(0, k + 1 - start);
            assert(p.drop_last() =~= d.subrange(0, k - start));
            assert(p.last() == b);
        }
        value = value * 10 + (b - 0x30) as u64;
        if value > u32::MAX as u64 {
            proof {
                if forall|j: int| 0 <= j < d.len() ==> is_digit(#[trigger] d[j]) {
                    lemma_digits_grow(d, k + 1 - start);
                    assert(digits_value(d) > u32::MAX);
                }
                assert(decimal_u32(t) is None);
            }
            return None;
        }
        k = k + 1;
    }
    assert(d.subrange(0, d.len() as int) =~= d);
    Some(value as u32)
}

/// A longer prefix of digits has at least the value of a shorter one.
proof fn lemma_digits_grow(d: Seq<u8>, k: int)
    requires
        0 <= k <= d.len(),
        forall|j: int| 0 <= j < d.len() ==> is_digit(#[trigger] d[j]),
    ensures
        digits_value(d.subrange(0, k)) <= digits_value(d),
    decreases d.len() - k,
{
    if k < d.len() {
        lemma_digits_grow(d, k + 1);
        let p = d.subrange(0, k + 1);
        assert(p.drop_last() =~= d.subrange(0, k));
        assert(digits_value(d.subrange(0, k)) >= 0) by {
            lemma_digits_nonneg(d.subrange(0, k));
        }
    } else {
        assert(d.subrange(0, k) =~= d);
    }
}

proof fn lemma_digits_nonneg(t: Seq<u8>)
    requires
        forall|j: int| 0 <= j < t.len() ==> is_digit(#[trigger] t[j]),
    ensures
        digits_value(t) >= 0,
    decreases t.len(),
{
    if t.len() > 0 {
        lemma_digits_nonneg(t.drop_last());
    }
}

/// A copy of the bytes of `s`.
fn copy_bytes(s: &[u8]) -> (r: Vec<u8>)
    ensures
        r@ == s@,
{
    let mut v: Vec<u8> = Vec::with_capacity(s.len());
    let mut i: usize = 0;
    while i < s.len()
        invariant
            0 <= i <= s@.len(),
            v@ == s@.subrange(0, i as int),
        decreases s@.len() - i,
    {
        v.push(s[i]);
        i = i + 1;
    }
    assert(v@ =~= s@);
    v
}

/// Reads one line of an edge list: `Ok(None)` for a comment, the edge for
/// two unsigned decimal fields, a parse error holding the line otherwise
/// (also for a blank line).
pub fn parse_edge_line(line: &[u8]) -> (r: Result<Option<(u32, u32)>, GraphError>)
    ensures
        match line_meaning(line@) {
            Ok(m) => r == Ok::<Option<(u32, u32)>, GraphError>(m),
            Err(_) => r matches Err(GraphError::Parse(l)) && l@ == line@,
        },
{
    let a = skip_space_from(line, 0);
    let b = token_end_from(line, a);
    let c = skip_space_from(line, b);
    let d = token_end_from(line, c);
    let e = skip_space_from(line, d);
    if a < line.len() && line[a] == 0x23 {
        return Ok(None);
    }
    if a == line.len() || c == line.len() || e < line.len() {
        return Err(GraphError::Parse(copy_bytes(line)));
    }
    match (parse_decimal(line, a, b), parse_decimal(line, c, d)) {
        (Some(x), Some(y)) => Ok(Some((x, y))),
        _ => Err(GraphError::Parse(copy_bytes(line))),
    }
}

/// The edges of an edge list given as lines, or the error of the first line
/// that does not parse.
pub fn parse_edge_lines(lines: &Vec<Vec<u8>>) -> (r: Result<Vec<(u32, u32)>, GraphError>)
    ensures
        match lines_meaning(lines_view(lines@)) {
            Ok(es) => r matches Ok(v) && v@ == es,
            Err(l) => r matches Err(GraphError::Parse(x)) && x@ == l,
        },
{
    let ghost all = lines_view(lines@);
    let mut edges: Vec<(u32, u32)> = Vec::new();
    let mut i: usize = 0;
    while i < lines.len()
        invariant
            0 <= i <= lines@.len(),
            all == lines_view(lines@),
            lines_meaning(all.subrange(0, i as int)) == Ok::<Seq<(u32, u32)>, Seq<u8>>(edges@),
        decreases lines@.len() - i,
    {
        let ghost p = all.subrange(0, i + 1);
        proof {
            assert(p.drop_last() =~= all.subrange(0, i as int));
            assert(p.last() == lines@[i as int]@);
        }
        match parse_edge_line(lines[i].as_slice()) {
            Ok(Some(e)) => {
                edges.push(e);
            },
            Ok(None) => {},
            Err(x) => {
                proof {
                    lemma_lines_error_stays(all, i + 1);
                }
                return Err(x);
            },
        }
        i = i + 1;
    }
    assert(all.subrange(0, all.len() as int) =~= all);
    Ok(edges)
}

/// Once a prefix of lines fails, every longer prefix fails the same way.
proof fn lemma_lines_error_stays(all: Seq<Seq<u8>>, k: int)
    requires
        0 <= k <= all.len(),
        lines_meaning(all.subrange(0, k)) is Err,
    ensures
        lines_meaning(all) == lines_meaning(all.subrange(0, k)),
    decreases all.len() - k,
{
    if k < all.len() {
        let p = all.subrange(0, k + 1);
        assert(p.drop_last() =~= all.subrange(0, k));
        lemma_lines_error_stays(all, k + 1);
    } else {
        assert(all.subrange(0, k) =~= all);
    }
}

/// The lines as sequences of bytes.
pub open spec fn lines_view(lines: Seq<Vec<u8>>) -> Seq<Seq<u8>> {
    Seq::new(lines.len(), |k: int| lines[k]@)
}

impl StaticGraph {
    /// Builds an undirected graph from the lines of an edge list.
    pub fn from_edge_lines(lines: &Vec<Vec<u8>>) -> (r: Result<StaticGraph, GraphError>)
        ensures
            match lines_meaning(lines_view(lines@)) {
                Err(l) => r matches Err(GraphError::Parse(x)) && x@ == l,
                Ok(es) => {
                    &&& (r is Ok <==> ids_below(es, u32::MAX as int))
                    &&& r is Err ==> r == Err::<StaticGraph, GraphError>(GraphError::Malformed)
                    &&& r matches Ok(g) ==> {
                        &&& g.valid()
                        &&& is_vertex_count(es, g.out_adj().len() as int)
                        &&& forall|u: int, v: u32|
                            0 <= u < g.out_adj().len() ==> (#[trigger] g.out_adj()[u].contains(v)
                                <==> (es.contains((u as u32, v)) || es.contains((v, u as u32))))
                    }
                },
            },
    {
        match parse_edge_lines(lines) {
            Err(e) => Err(e),
            Ok(edges) => StaticGraph::from_edges(edges),
        }
    }
}

impl StaticDiGraph {
    /// Builds a directed graph from the lines of an edge list.
    pub fn from_edge_lines(lines: &Vec<Vec<u8>>) -> (r: Result<StaticDiGraph, GraphError>)
        ensures
            match lines_meaning(lines_view(lines@)) {
                Err(l) => r matches Err(GraphError::Parse(x)) && x@ == l,
                Ok(es) => {
                    &&& (r is Ok <==> ids_below(es, u32::MAX as int))
                    &&& r is Err ==> r == Err::<StaticDiGraph, GraphError>(GraphError::Malformed)
                    &&& r matches Ok(g) ==> {
                        &&& g.valid()
                        &&& is_vertex_count(es, g.out_adj().len() as int)
                        &&& forall|u: int, v: u32|
                            0 <= u < g.out_adj().len() ==> (#[trigger] g.out_adj()[u].contains(v)
                                <==> es.contains((u as u32, v)))
                    }
                },
            },
    {
        match parse_edge_lines(lines) {
            Err(e) => Err(e),
            Ok(edges) => StaticDiGraph::from_edges(edges),
        }
    }
}

} // verus!
