//! Formats author names and extracts the title and release date of an upcoming release from the
//! text of a search result.

use crate::customtypes::{is_calendar_date, ReleaseDate, SkipReason};
use crate::text::{
    are_line_bounds, contains_text, has_substring, line_bounds, occurs_at, split_lines,
};
use vstd::prelude::*;
use vstd::string::*;

verus! {

/// The name is rearranged only around a comma followed by a space.
pub open spec fn separator_at(s: Seq<char>, i: int) -> bool {
    0 <= i && i + 1 < s.len() && s[i] == ',' && s[i + 1] == ' '
}

/// `i` is the one and only position of a separator in `s`.
pub open spec fn single_separator(s: Seq<char>, i: int) -> bool {
    separator_at(s, i) && forall|j: int| separator_at(s, j) ==> j == i
}

/// "Surname, Forename" rearranged as "Forename Surname"; `None` unless the name holds exactly one
/// separator.
pub open spec fn normalized_name(s: Seq<char>) -> Option<Seq<char>> {
    if exists|i: int| single_separator(s, i) {
        let i = choose|i: int| single_separator(s, i);
        Some(s.subrange(i + 2, s.len() as int) + seq![' '] + s.subrange(0, i))
    } else {
        None
    }
}

/// Why an author name cannot be rearranged.
#[derive(Debug)]
pub enum NameError {
    /// The name does not hold exactly one ", "; the name is attached.
    NotNormalizable(String),
}

/// Rearranges "Surname, Forename" into "Forename Surname".
pub fn format_author_name(author: &str) -> (r: Result<String, NameError>)
    ensures
        match r {
            Ok(name) => normalized_name(author@) == Some(name@),
            Err(NameError::NotNormalizable(s)) => normalized_name(author@) is None && s@
                == author@,
        },
{
    let n = author.unicode_len();
    let mut first: Option<usize> = None;
    let mut i: usize = 0;
    while i < n && i + 1 < n
        invariant
            n == author@.len(),
            i <= n,
            first is None ==> forall|j: int| 0 <= j < i ==> !separator_at(author@, j),
            first is Some ==> first->0 < i && separator_at(author@, first->0 as int) && forall|
                j: int,
            | 0 <= j < i && j != first->0 ==> !separator_at(author@, j),
        decreases n - i,
    {
        if author.get_char(i) == ',' && author.get_char(i + 1) == ' ' {
            if let Some(f) = first {
                assert(separator_at(author@, i as int));
                assert forall|k: int| !single_separator(author@, k) by {
                    if single_separator(author@, k) {
                        assert(f as int == k);
                        assert(i as int == k);
                    }
                }
                return Err(NameError::NotNormalizable(author.to_owned()));
            }
            first = Some(i);
        }
        i = i + 1;
    }
    match first {
        None => {
            assert forall|k: int| !single_separator(author@, k) by {
                if single_separator(author@, k) {
                    assert(k < i);
                }
            }
            Err(NameError::NotNormalizable(author.to_owned()))
        },
        Some(f) => {
            assert forall|j: int| separator_at(author@, j) implies j == f by {
                assert(j < i);
            }
            assert(single_separator(author@, f as int));
            let mut name = String::from_str(author.substring_char(f + 2, n));
            name.append(" ");
            name.append(author.substring_char(0, f));
            proof {
                reveal_strlit(" ");
            }
            Ok(name)
        },
    }
}

/// A name "Surname, Forename" whose two parts hold no comma is rearranged to
/// "Forename Surname".
pub proof fn lemma_normalize_swaps(surname: Seq<char>, forename: Seq<char>)
    requires
        !surname.contains(','),
        !forename.contains(','),
    ensures
        normalized_name(surname + seq![',', ' '] + forename) == Some(
            forename + seq![' '] + surname,
        ),
{
    let s = surname + seq![',', ' '] + forename;
    let i = surname.len() as int;
    assert(separator_at(s, i));
    assert forall|j: int| separator_at(s, j) implies j == i by {
        if j < i {
            assert(surname[j] == s[j]);
        } else if j > i + 1 {
            assert(forename[j - i - 2] == s[j]);
        } else if j == i + 1 {
            assert(s[j] == ' ');
        }
    }
    assert(single_separator(s, i));
    let c = choose|c: int| single_separator(s, c);
    assert(c == i);
    assert(s.subrange(i + 2, s.len() as int) == forename);
    assert(s.subrange(0, i) == surname);
}

/// A name without the separator ", " cannot be rearranged.
pub proof fn lemma_normalize_rejects_missing_separator(s: Seq<char>)
    requires
        forall|i: int| !separator_at(s, i),
    ensures
        normalized_name(s) is None,
{
}

/// A name with two separators ", " cannot be rearranged.
pub proof fn lemma_normalize_rejects_second_separator(s: Seq<char>, i: int, j: int)
    requires
        separator_at(s, i),
        separator_at(s, j),
        i != j,
    ensures
        normalized_name(s) is None,
{
    assert forall|k: int| !single_separator(s, k) by {
        if single_separator(s, k) {
            assert(i == k && j == k);
        }
    }
}

/// The lines that are not empty, in order.
pub open spec fn nonempty_lines(ls: Seq<Seq<char>>) -> Seq<Seq<char>>
    decreases ls.len(),
{
    if ls.len() == 0 {
        ls
    } else {
        let before = nonempty_lines(ls.drop_last());
        if ls.last().len() > 0 {
            before.push(ls.last())
        } else {
            before
        }
    }
}

/// The line before the first line that holds `author`.
pub open spec fn title_before(ls: Seq<Seq<char>>, author: Seq<char>) -> Result<
    Seq<char>,
    SkipReason,
>
    decreases ls.len(),
{
    if ls.len() == 0 {
        Err(SkipReason::AuthorLineNotFound)
    } else {
        match title_before(ls.drop_last(), author) {
            Err(SkipReason::AuthorLineNotFound) => {
                if has_substring(ls.last(), author) {
                    if ls.len() == 1 {
                        Err(SkipReason::NoPrecedingTitle)
                    } else {
                        Ok(ls[ls.len() - 2])
                    }
                } else {
                    Err(SkipReason::AuthorLineNotFound)
                }
            },
            found => found,
        }
    }
}

/// The title in a result's text: the non-empty line just before the first non-empty line
/// that holds the author's name.
pub open spec fn release_title(content: Seq<char>, author: Seq<char>) -> Result<
    Seq<char>,
    SkipReason,
> {
    title_before(nonempty_lines(split_lines(content)), author)
}

/// An executable result of text stands for the mathematical one.
pub open spec fn text_result(r: Result<String, SkipReason>) -> Result<Seq<char>, SkipReason> {
    match r {
        Ok(s) => Ok(s@),
        Err(e) => Err(e),
    }
}

/// Finds the title of a release: the line before the author's line.
pub fn format_release_title(html_content: &str, author: &str) -> (r: Result<String, SkipReason>)
    ensures
        text_result(r) == release_title(html_content@, author@),
{
    let bounds = line_bounds(html_content);
    let ghost s = html_content@;
    let ghost lines = split_lines(s);
    let mut result: Result<String, SkipReason> = Err(SkipReason::AuthorLineNotFound);
    let mut prev: Option<(usize, usize)> = None;
    let mut k: usize = 0;
    assert(lines.take(0) == Seq::<Seq<char>>::empty());
    while k < bounds.len()
        invariant
            bounds@.len() == lines.len(),
            s == html_content@,
            lines == split_lines(s),
            are_line_bounds(html_content@, bounds@),
            k <= bounds@.len(),
            text_result(result) == title_before(nonempty_lines(lines.take(k as int)), author@),
            prev is None <==> nonempty_lines(lines.take(k as int)).len() == 0,
            prev matches Some(p) ==> p.0 <= p.1 <= s.len() && s.subrange(p.0 as int, p.1 as int)
                == nonempty_lines(lines.take(k as int)).last(),
        decreases bounds@.len() - k,
    {
        let (a, b) = bounds[k];
        let ghost before = lines.take(k as int);
        assert(lines.take(k + 1) == before.push(lines[k as int]));
        assert(lines.take(k + 1).drop_last() == before);
        assert(lines[k as int] == s.subrange(a as int, b as int));
        if a < b {
            let ghost ne = nonempty_lines(before);
            assert(nonempty_lines(lines.take(k + 1)) == ne.push(lines[k as int]));
            assert(ne.push(lines[k as int]).drop_last() == ne);
            if let Err(SkipReason::AuthorLineNotFound) = result {
                let line = html_content.substring_char(a, b);
                if contains_text(line, author) {
                    match prev {
                        None => {
                            result = Err(SkipReason::NoPrecedingTitle);
                        },
                        Some(p) => {
                            result = Ok(String::from_str(html_content.substring_char(p.0, p.1)));
                        },
                    }
                }
            }
            prev = Some((a, b));
        }
        k = k + 1;
    }
    assert(lines.take(bounds@.len() as int) == lines);
    result
}

/// The marker that announces a release date.
pub open spec fn date_marker() -> Seq<char> {
    seq!['E', 'r', 's', 'c', 'h', 'e', 'i', 'n', 't', ' ', 'a', 'm', ' ']
}

/// The marker stands at `i` and a character other than a newline follows it.
pub open spec fn marker_at(s: Seq<char>, i: int) -> bool {
    occurs_at(s, date_marker(), i) && i + 13 < s.len() && s[i + 13] != '\n'
}

/// The position of the first newline at or after `j`, or the end of `s`.
pub open spec fn line_end(s: Seq<char>, j: int) -> int
    decreases s.len() - j,
{
    if j < 0 || j >= s.len() || s[j] == '\n' {
        j
    } else {
        line_end(s, j + 1)
    }
}

/// What follows the first marker at or after `i` up to the end of its line.
pub open spec fn capture_from(s: Seq<char>, i: int) -> Option<Seq<char>>
    decreases s.len() - i,
{
    if i < 0 || i >= s.len() {
        None
    } else if marker_at(s, i) {
        Some(s.subrange(i + 13, line_end(s, i + 13)))
    } else {
        capture_from(s, i + 1)
    }
}

/// The text that the pattern `Erscheint am (.+)` captures in `s`: the rest of the line after the
/// leftmost marker that some character other than a newline follows.
pub open spec fn date_capture(s: Seq<char>) -> Option<Seq<char>> {
    capture_from(s, 0)
}

/// The pattern for the release date, with the date as its one group.
pub const DATE_PATTERN: &'static str = "Erscheint am (.+)";

/// Relies on regex::Regex::new and Regex::captures for the pattern `Erscheint am (.+)`: the
/// leftmost match starts at the first marker that a non-newline character follows, `.+` is
/// greedy and stops before a newline, and the text of group 1 is returned.
#[verifier::external_body]
fn first_capture(pattern: &str, text: &str) -> (r: Option<String>)
    requires
        pattern@ == DATE_PATTERN@,
    ensures
        match r {
            Some(g) => date_capture(text@) == Some(g@),
            None => date_capture(text@) is None,
        },
{
    let re = match regex::Regex::new(pattern) {
        Ok(re) => re,
        Err(_) => return None,
    };
    match re.captures(text) {
        Some(caps) => match caps.get(1) {
            Some(m) => Some(m.as_str().to_string()),
            None => None,
        },
        None => None,
    }
}

/// Relies on chrono::NaiveDate::from_ymd_opt: it gives a date exactly for the existing days of
/// the proleptic Gregorian calendar within chrono's year range.
#[verifier::external_body]
fn calendar_date_exists(year: i32, month: u32, day: u32) -> (r: bool)
    ensures
        r == (-262143 <= year <= 262142 && is_calendar_date(year as int, month as int, day as int)),
{
    chrono::NaiveDate::from_ymd_opt(year, month, day).is_some()
}

/// `c` is a decimal digit.
pub open spec fn is_digit(c: char) -> bool {
    '0' <= c <= '9'
}

/// The value of the decimal digit `c`.
pub open spec fn digit_value(c: char) -> int {
    (c as u32) - ('0' as u32)
}

/// `t` is written `DD.MM.YYYY` with decimal digits.
pub open spec fn dmy_shape(t: Seq<char>) -> bool {
    t.len() == 10 && is_digit(t[0]) && is_digit(t[1]) && t[2] == '.' && is_digit(t[3]) && is_digit(
        t[4],
    ) && t[5] == '.' && is_digit(t[6]) && is_digit(t[7]) && is_digit(t[8]) && is_digit(t[9])
}

/// The number written by the digits of `t` at positions `from` up to `to` (exclusive).
pub open spec fn digits_value(t: Seq<char>, from: int, to: int) -> int
    decreases to - from,
{
    if to <= from {
        0
    } else {
        digits_value(t, from, to - 1) * 10 + digit_value(t[to - 1])
    }
}

/// The date written in `t`, if `t` is a `DD.MM.YYYY` calendar date.
pub open spec fn dmy_date(t: Seq<char>) -> Option<ReleaseDate> {
    let day = digits_value(t, 0, 2);
    let month = digits_value(t, 3, 5);
    let year = digits_value(t, 6, 10);
    if dmy_shape(t) && is_calendar_date(year, month, day) {
        Some(ReleaseDate { year: year as i32, month: month as u32, day: day as u32 })
    } else {
        None
    }
}

/// The release date announced in a result's text.
pub open spec fn release_date(content: Seq<char>) -> Result<ReleaseDate, SkipReason> {
    match date_capture(content) {
        None => Err(SkipReason::NoDatePattern),
        Some(t) => match dmy_date(t) {
            Some(d) => Ok(d),
            None => Err(SkipReason::UnparsableDate),
        },
    }
}

/// The number written by the digits of `t` from `from` up to `to`.
fn read_digits(t: &str, from: usize, to: usize) -> (r: u32)
    requires
        from <= to <= t@.len(),
        to - from <= 4,
        forall|k: int| from <= k < to ==> is_digit(#[trigger] t@[k]),
    ensures
        r == digits_value(t@, from as int, to as int),
        r < 10000,
{
    let mut v: u32 = 0;
    let mut k = from;
    while k < to
        invariant
            from <= k <= to <= t@.len(),
            to - from <= 4,
            forall|q: int| from <= q < to ==> is_digit(#[trigger] t@[q]),
            v == digits_value(t@, from as int, k as int),
            v < pow10(k - from),
        decreases to - k,
    {
        let c = t.get_char(k);
        assert(is_digit(t@[k as int]));
        proof {
            lemma_small_powers_of_ten();
        }
        v = v * 10 + (c as u32 - '0' as u32);
        k = k + 1;
    }
    proof {
        lemma_small_powers_of_ten();
    }
    v
}

/// Ten to the power `n`.
pub open spec fn pow10(n: int) -> int
    decreases n,
{
    if n <= 0 {
        1
    } else {
        10 * pow10(n - 1)
    }
}

/// The powers of ten up to four digits.
proof fn lemma_small_powers_of_ten()
    ensures
        pow10(0) == 1,
        pow10(1) == 10,
        pow10(2) == 100,
        pow10(3) == 1000,
        pow10(4) == 10000,
{
    reveal_with_fuel(pow10, 5);
}

/// Finds the release date: the `DD.MM.YYYY` date after the marker "Erscheint am ".
pub fn format_release_date(html_content: &str) -> (r: Result<ReleaseDate, SkipReason>)
    ensures
        r == release_date(html_content@),
        r matches Ok(d) ==> d.valid(),
{
    let captured = match first_capture(DATE_PATTERN, html_content) {
        Some(g) => g,
        None => {
            return Err(SkipReason::NoDatePattern);
        },
    };
    let t = captured.as_str();
    if t.unicode_len() != 10 {
        return Err(SkipReason::UnparsableDate);
    }
    let mut k: usize = 0;
    while k < 10
        invariant
            t@.len() == 10,
            date_capture(html_content@) == Some(t@),
            k <= 10,
            forall|q: int| 0 <= q < k ==> (q == 2 || q == 5 || is_digit(#[trigger] t@[q])),
            forall|q: int| 0 <= q < k && (q == 2 || q == 5) ==> #[trigger] t@[q] == '.',
        decreases 10 - k,
    {
        let c = t.get_char(k);
        if k == 2 || k == 5 {
            if c != '.' {
                assert(!dmy_shape(t@));
                assert(date_capture(html_content@) == Some(t@));
                return Err(SkipReason::UnparsableDate);
            }
        } else if !('0' <= c && c <= '9') {
            assert(!dmy_shape(t@));
            assert(date_capture(html_content@) == Some(t@));
            return Err(SkipReason::UnparsableDate);
        }
        k = k + 1;
    }
    assert(dmy_shape(t@));
    let day = read_digits(t, 0, 2);
    let month = read_digits(t, 3, 5);
    let year = read_digits(t, 6, 10);
    if calendar_date_exists(year as i32, month, day) {
        Ok(ReleaseDate { year: year as i32, month, day })
    } else {
        Err(SkipReason::UnparsableDate)
    }
}

} // verus!
