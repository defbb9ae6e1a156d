//! The list of authors, one "Surname, Forename" per line of a text.

use crate::text::{are_line_bounds, lemma_split_lines_nonempty, line_bounds, split_lines};
use vstd::prelude::*;
use vstd::string::*;

verus! {

/// A line without the carriage return that ends it, if any.
pub open spec fn without_cr(line: Seq<char>) -> Seq<char> {
    if line.len() > 0 && line.last() == '\r' {
        line.drop_last()
    } else {
        line
    }
}

/// How many lines `str::lines` gives for `s`: a newline ends a line, and a final newline
/// starts no further line.
pub open spec fn line_count(s: Seq<char>) -> int {
    if s.len() == 0 {
        0
    } else if s.last() == '\n' {
        split_lines(s).len() - 1
    } else {
        split_lines(s).len() as int
    }
}

/// The line `k` of `s` as `str::lines` gives it: a carriage return at its end is dropped only
/// where a newline follows it.
pub open spec fn text_line(s: Seq<char>, k: int) -> Seq<char> {
    if k + 1 < split_lines(s).len() {
        without_cr(split_lines(s)[k])
    } else {
        split_lines(s)[k]
    }
}

/// The lines of a text as `str::lines` gives them.
pub open spec fn text_lines(s: Seq<char>) -> Seq<Seq<char>> {
    Seq::new(line_count(s) as nat, |k: int| text_line(s, k))
}

/// Why no list of authors can be read.
#[derive(Clone, Copy, Debug, PartialEq, Eq, Structural)]
pub enum AuthorsError {
    /// The text holds no author.
    NoAuthors,
}

/// Reads the authors of a text, one per line, in order.
pub fn authors_from_text(text: &str) -> (r: Result<Vec<String>, AuthorsError>)
    ensures
        match r {
            Ok(v) => v.deep_view() == text_lines(text@) && v@.len() > 0,
            Err(_) => text_lines(text@).len() == 0,
        },
{
    let n = text.unicode_len();
    let bounds = line_bounds(text);
    let count = if n == 0 {
        0
    } else if text.get_char(n - 1) == '\n' {
        bounds.len() - 1
    } else {
        bounds.len()
    };
    proof {
        lemma_split_lines_nonempty(text@);
    }
    assert(line_count(text@) == count);
    let mut authors: Vec<String> = Vec::new();
    let mut k: usize = 0;
    while k < count
        invariant
            are_line_bounds(text@, bounds@),
            count <= bounds@.len(),
            line_count(text@) == count,
            k <= count,
            authors@.len() == k,
            forall|q: int| 0 <= q < k ==> (#[trigger] authors@[q])@ == text_line(text@, q),
        decreases count - k,
    {
        let (a, b) = bounds[k];
        assert(split_lines(text@)[k as int] == text@.subrange(a as int, b as int));
        let end = if k + 1 < bounds.len() && a < b && text.get_char(b - 1) == '\r' {
            b - 1
        } else {
            b
        };
        let line = String::from_str(text.substring_char(a, end));
        assert(line@ == text_line(text@, k as int));
        authors.push(line);
        k = k + 1;
    }
    assert(authors.deep_view() == text_lines(text@));
    if authors.len() == 0 {
        return Err(AuthorsError::NoAuthors);
    }
    Ok(authors)
}

} // verus!
