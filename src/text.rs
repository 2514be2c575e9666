//! Line-oriented text helpers used to cut a cell's source into statements.

use vstd::prelude::*;
use itertools::Itertools;

verus! {

/// The pieces of `s` between line feeds, in order; there is always one more
/// piece than there are line feeds.
pub open spec fn newline_pieces(s: Seq<char>) -> Seq<Seq<char>>
    decreases s.len(),
{
    if s.len() == 0 {
        seq![Seq::<char>::empty()]
    } else {
        let p = newline_pieces(s.drop_last());
        if s.last() == '\n' {
            p.push(Seq::<char>::empty())
        } else {
            p.update(p.len() - 1, p.last().push(s.last()))
        }
    }
}

/// A piece that was ended by a line feed loses one carriage return before it.
pub open spec fn strip_cr(line: Seq<char>) -> Seq<char> {
    if line.len() > 0 && line.last() == '\r' {
        line.drop_last()
    } else {
        line
    }
}

/// The lines of `s`: split at `\n` or `\r\n`; a final line ending is optional
/// and does not start an empty last line.
pub open spec fn lines_of(s: Seq<char>) -> Seq<Seq<char>> {
    let p = newline_pieces(s);
    if p.last().len() == 0 {
        Seq::new((p.len() - 1) as nat, |i: int| strip_cr(p[i]))
    } else {
        Seq::new(p.len(), |i: int| if i < p.len() - 1 { strip_cr(p[i]) } else { p[i] })
    }
}

/// `parts` joined with `sep` between neighbours.
pub open spec fn joined(parts: Seq<Seq<char>>, sep: Seq<char>) -> Seq<char>
    decreases parts.len(),
{
    if parts.len() == 0 {
        Seq::<char>::empty()
    } else if parts.len() == 1 {
        parts[0]
    } else {
        joined(parts.drop_last(), sep) + sep + parts.last()
    }
}

/// The views of a vector of strings.
pub open spec fn views(v: Seq<String>) -> Seq<Seq<char>> {
    Seq::new(v.len(), |i: int| v[i]@)
}

/// Relies on `str::lines`: the lines of `s`, each without its line ending.
#[verifier::external_body]
pub fn split_lines(s: &str) -> (r: Vec<String>)
    ensures
        views(r@) == lines_of(s@),
{
    s.lines().map(|l| l.to_string()).collect()
}

/// Relies on `Itertools::join`: the lines with a line feed between neighbours.
#[verifier::external_body]
pub fn join_lines(lines: &Vec<String>) -> (r: String)
    ensures
        r@ == joined(views(lines@), seq!['\n']),
{
    lines.iter().join("\n")
}

/// The lines whose index lies in `first..=last`; indices past the end are
/// left out.
pub open spec fn rows_between(lines: Seq<Seq<char>>, first: int, last: int) -> Seq<Seq<char>> {
    let hi = if last + 1 < lines.len() { last + 1 } else { lines.len() as int };
    if first < hi {
        lines.subrange(first, hi)
    } else {
        Seq::<Seq<char>>::empty()
    }
}

/// The source rows `first..=last` of `code`, joined by line feeds; rows past
/// the end of `code` are absent.
pub open spec fn extract_rows(code: Seq<char>, first: int, last: int) -> Seq<char> {
    joined(rows_between(lines_of(code), first, last), seq!['\n'])
}

/// Cuts rows `first..=last` (0-based, inclusive) out of `code`.
pub fn extract_rows_exec(code: &str, first: usize, last: usize) -> (r: String)
    ensures
        r@ == extract_rows(code@, first as int, last as int),
{
    let lines = split_lines(code);
    let mut picked: Vec<String> = Vec::new();
    let mut i: usize = first;
    while i < lines.len() && i <= last
        invariant
            views(lines@) == lines_of(code@),
            first <= i,
            i <= lines.len() || i == first,
            i <= last + 1 || i == first,
            picked@.len() == if i > first { i - first } else { 0 },
            forall|k: int| 0 <= k < picked@.len() ==> #[trigger] picked@[k]@ == lines@[first + k]@,
        decreases lines.len() - i,
    {
        picked.push(lines[i].clone());
        i = i + 1;
    }
    proof {
        let want = rows_between(lines_of(code@), first as int, last as int);
        assert(lines_of(code@).len() == lines@.len());
        assert(views(picked@) =~= want);
    }
    join_lines(&picked)
}

} // verus!
