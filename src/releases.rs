//! Sorts the upcoming releases by date and renders them as a report grouped by date.

use crate::customtypes::{ReleaseDate, ReleaseView, UpcomingRelease};
use crate::format::is_digit;
use crate::scraper::release_views;
use vstd::prelude::*;
use vstd::string::*;

verus! {

/// The German name of a month, "Unknown" for a number outside 1 to 12.
pub open spec fn month_name(month: int) -> Seq<char> {
    if month == 1 {
        "Januar"@
    } else if month == 2 {
        "Februar"@
    } else if month == 3 {
        "März"@
    } else if month == 4 {
        "April"@
    } else if month == 5 {
        "Mai"@
    } else if month == 6 {
        "Juni"@
    } else if month == 7 {
        "Juli"@
    } else if month == 8 {
        "August"@
    } else if month == 9 {
        "September"@
    } else if month == 10 {
        "Oktober"@
    } else if month == 11 {
        "November"@
    } else if month == 12 {
        "Dezember"@
    } else {
        "Unknown"@
    }
}

/// Maps a month number to its German name.
pub fn month_name_german(month: u32) -> (r: &'static str)
    ensures
        r@ == month_name(month as int),
{
    match month {
        1 => "Januar",
        2 => "Februar",
        3 => "März",
        4 => "April",
        5 => "Mai",
        6 => "Juni",
        7 => "Juli",
        8 => "August",
        9 => "September",
        10 => "Oktober",
        11 => "November",
        12 => "Dezember",
        _ => "Unknown",
    }
}

/// The character of the decimal digit `d`.
pub open spec fn digit_char(d: int) -> char {
    "0123456789"@[d]
}

/// `n` written in decimal, without leading zeros.
pub open spec fn decimal(n: nat) -> Seq<char>
    decreases n,
{
    if n < 10 {
        seq![digit_char(n as int)]
    } else {
        decimal(n / 10).push(digit_char((n % 10) as int))
    }
}

/// `n` written in decimal, with a minus sign when negative.
pub open spec fn signed_decimal(n: int) -> Seq<char> {
    if n < 0 {
        seq!['-'] + decimal((-n) as nat)
    } else {
        decimal(n as nat)
    }
}

/// Writes `n` in decimal.
pub fn decimal_text(n: u32) -> (r: String)
    ensures
        r@ == decimal(n as nat),
    decreases n,
{
    proof {
        reveal_strlit("0123456789");
    }
    let d = (n % 10) as usize;
    let digit = "0123456789".substring_char(d, d + 1);
    assert(digit@ == seq![digit_char(d as int)]);
    if n < 10 {
        String::from_str(digit)
    } else {
        let mut s = decimal_text(n / 10);
        s.append(digit);
        s
    }
}

/// Writes `n` in decimal, with a minus sign when negative.
pub fn signed_decimal_text(n: i32) -> (r: String)
    ensures
        r@ == signed_decimal(n as int),
{
    if n < 0 {
        let magnitude = (0 - (n as i64)) as u32;
        let mut s = String::from_str("-");
        proof {
            reveal_strlit("-");
        }
        s.append(decimal_text(magnitude).as_str());
        s
    } else {
        decimal_text(n as u32)
    }
}

/// A date as the report shows it: "30. September 2024".
pub open spec fn date_text(d: ReleaseDate) -> Seq<char> {
    decimal(d.day as nat) + seq!['.', ' '] + month_name(d.month as int) + seq![' '] + signed_decimal(
        d.year as int,
    )
}

/// Renders a date as the report shows it: "30. September 2024".
pub fn format_date(d: &ReleaseDate) -> (r: String)
    ensures
        r@ == date_text(*d),
{
    let mut s = decimal_text(d.day);
    s.append(". ");
    s.append(month_name_german(d.month));
    s.append(" ");
    s.append(signed_decimal_text(d.year).as_str());
    proof {
        reveal_strlit(". ");
        reveal_strlit(" ");
    }
    s
}

/// `s` with `x` placed after every release dated on or before it and before the later ones.
pub open spec fn insert_by_date(s: Seq<ReleaseView>, x: ReleaseView) -> Seq<ReleaseView>
    decreases s.len(),
{
    if s.len() == 0 || s.last().date.on_or_before(x.date) {
        s.push(x)
    } else {
        insert_by_date(s.drop_last(), x).push(s.last())
    }
}

/// The releases sorted by date; releases of one date keep their relative order.
pub open spec fn sort_by_date(s: Seq<ReleaseView>) -> Seq<ReleaseView>
    decreases s.len(),
{
    if s.len() == 0 {
        s
    } else {
        insert_by_date(sort_by_date(s.drop_last()), s.last())
    }
}

proof fn lemma_insert_at(s: Seq<ReleaseView>, x: ReleaseView, p: int)
    requires
        0 <= p <= s.len(),
        p == 0 || s[p - 1].date.on_or_before(x.date),
        forall|q: int| p <= q < s.len() ==> !(#[trigger] s[q]).date.on_or_before(x.date),
    ensures
        insert_by_date(s, x) == s.insert(p, x),
    decreases s.len(),
{
    if s.len() == p {
        assert(s.push(x) == s.insert(p, x));
    } else {
        lemma_insert_at(s.drop_last(), x, p);
        assert(s.drop_last().insert(p, x).push(s.last()) == s.insert(p, x));
    }
}

/// Sorts releases by date, keeping the relative order of releases of one date.
pub fn sort_releases(releases: Vec<UpcomingRelease>) -> (r: Vec<UpcomingRelease>)
    ensures
        release_views(r@) == sort_by_date(release_views(releases@)),
{
    let ghost orig = releases@;
    let ghost vs = release_views(orig);
    let n = releases.len();
    let mut input = releases;
    let mut out: Vec<UpcomingRelease> = Vec::new();
    let mut k: usize = 0;
    assert(input@ == orig.skip(0));
    assert(vs.take(0) == Seq::<ReleaseView>::empty());
    assert(release_views(out@) == Seq::<ReleaseView>::empty());
    while k < n
        invariant
            n == orig.len(),
            vs == release_views(orig),
            k <= n,
            input@ == orig.skip(k as int),
            release_views(out@) == sort_by_date(vs.take(k as int)),
        decreases n - k,
    {
        assert(vs.take(k + 1).drop_last() == vs.take(k as int));
        let x = input.remove(0);
        assert(orig.skip(k as int).remove(0) == orig.skip(k + 1));
        let mut p = out.len();
        while p > 0 && !out[p - 1].date.is_on_or_before(&x.date)
            invariant
                p <= out@.len(),
                forall|q: int| p <= q < out@.len() ==> !(#[trigger] out@[q]).date.on_or_before(x.date),
            decreases p,
        {
            p = p - 1;
        }
        let ghost sorted = release_views(out@);
        proof {
            lemma_insert_at(sorted, x@, p as int);
        }
        out.insert(p, x);
        assert(release_views(out@) == sorted.insert(p as int, x@));
        k = k + 1;
    }
    assert(vs.take(n as int) == vs);
    out
}

/// The title line of the report.
pub const REPORT_TITLE: &'static str = "Upcoming Book Releases";

/// The rule under each date header.
pub const RULE: &'static str = "-----------------------------------------------------------------------------------";

/// The header of a group of releases of one date: a blank line, the date and a rule.
pub open spec fn group_header(d: ReleaseDate) -> Seq<char> {
    seq!['\n'] + date_text(d) + seq!['\n'] + RULE@ + seq!['\n']
}

/// The line of one release: `Author - "Title"`.
pub open spec fn entry_line(r: ReleaseView) -> Seq<char> {
    r.author + seq![' ', '-', ' ', '"'] + r.title + seq!['"', '\n']
}

/// The release at `k` opens a group of the report: it is the first one, or its rendered date
/// differs from the one of the release before.
pub open spec fn starts_group(s: Seq<ReleaseView>, k: int) -> bool {
    k == 0 || date_text(s[k - 1].date) != date_text(s[k].date)
}

/// The report's body for releases in the order given: a date header for each release that opens
/// a group, then the release's line.
pub open spec fn report_body(s: Seq<ReleaseView>) -> Seq<char>
    decreases s.len(),
{
    if s.len() == 0 {
        Seq::empty()
    } else {
        let header = if starts_group(s, s.len() - 1) {
            group_header(s.last().date)
        } else {
            Seq::empty()
        };
        report_body(s.drop_last()) + header + entry_line(s.last())
    }
}

/// The whole report for releases in the order given.
pub open spec fn report_text(s: Seq<ReleaseView>) -> Seq<char> {
    REPORT_TITLE@ + seq!['\n'] + report_body(s)
}

/// A release that lacks its author or its title.
pub open spec fn is_flawed(r: ReleaseView) -> bool {
    r.author.len() == 0 || r.title.len() == 0
}

/// `k` is the first flawed release of `s`.
pub open spec fn first_flaw_at(s: Seq<ReleaseView>, k: int) -> bool {
    0 <= k < s.len() && is_flawed(s[k]) && forall|j: int| 0 <= j < k ==> !is_flawed(#[trigger] s[j])
}

/// Why no report can be written.
#[derive(Debug)]
pub enum ReportError {
    /// There is no release to report.
    NoReleases,
    /// A release has no author; the release is attached.
    MissingAuthor(UpcomingRelease),
    /// A release has no title; the release is attached.
    MissingTitle(UpcomingRelease),
}

/// Sorts the releases by date and renders the report; fails on an empty list and on the first
/// release, in date order, that lacks its author or its title.
#[verifier::rlimit(40)]
pub fn release_report(releases: Vec<UpcomingRelease>) -> (r: Result<String, ReportError>)
    ensures
        match r {
            Ok(text) => releases@.len() > 0 && (forall|k: int|
                0 <= k < releases@.len() ==> !is_flawed(
                    #[trigger] sort_by_date(release_views(releases@))[k],
                )) && text@ == report_text(sort_by_date(release_views(releases@))),
            Err(ReportError::NoReleases) => releases@.len() == 0,
            Err(ReportError::MissingAuthor(x)) => releases@.len() > 0 && exists|k: int|
                first_flaw_at(sort_by_date(release_views(releases@)), k) && x@ == sort_by_date(
                    release_views(releases@),
                )[k] && x@.author.len() == 0,
            Err(ReportError::MissingTitle(x)) => releases@.len() > 0 && exists|k: int|
                first_flaw_at(sort_by_date(release_views(releases@)), k) && x@ == sort_by_date(
                    release_views(releases@),
                )[k] && x@.author.len() > 0,
        },
{
    if releases.len() == 0 {
        return Err(ReportError::NoReleases);
    }
    let ghost orig = release_views(releases@);
    let mut sorted = sort_releases(releases);
    let ghost ss = release_views(sorted@);
    proof {
        lemma_sort_len(orig);
    }
    let n = sorted.len();
    let mut k: usize = 0;
    while k < n
        invariant
            n == sorted@.len(),
            ss == release_views(sorted@),
            ss == sort_by_date(orig),
            orig == release_views(releases@),
            k <= n,
            forall|j: int| 0 <= j < k ==> !is_flawed(#[trigger] ss[j]),
        decreases n - k,
    {
        let no_author = sorted[k].author.unicode_len() == 0;
        let no_title = sorted[k].title.unicode_len() == 0;
        if no_author || no_title {
            assert(first_flaw_at(ss, k as int));
            let x = sorted.remove(k);
            assert(x@ == ss[k as int]);
            if no_author {
                return Err(ReportError::MissingAuthor(x));
            }
            return Err(ReportError::MissingTitle(x));
        }
        k = k + 1;
    }
    let mut text = String::from_str(REPORT_TITLE);
    text.append("\n");
    proof {
        reveal_strlit("\n");
    }
    let mut last_date = String::new();
    let mut k: usize = 0;
    assert(ss.take(0) == Seq::<ReleaseView>::empty());
    while k < n
        invariant
            n == sorted@.len(),
            ss == release_views(sorted@),
            ss == sort_by_date(orig),
            orig == release_views(releases@),
            k <= n,
            text@ == REPORT_TITLE@ + seq!['\n'] + report_body(ss.take(k as int)),
            k == 0 ==> last_date@.len() == 0,
            k > 0 ==> last_date@ == date_text(ss[k - 1].date),
        decreases n - k,
    {
        let r = &sorted[k];
        let ghost before = ss.take(k as int);
        assert(ss.take(k + 1).drop_last() == before);
        assert(ss.take(k + 1).last() == ss[k as int]);
        let date = format_date(&r.date);
        assert(date@.len() > 0);
        let ghost text0 = text@;
        let ghost header: Seq<char> = if starts_group(ss, k as int) {
            group_header(ss[k as int].date)
        } else {
            Seq::empty()
        };
        if date != last_date {
            text.append("\n");
            text.append(date.as_str());
            text.append("\n");
            text.append(RULE);
            text.append("\n");
            last_date = date;
        }
        proof {
            reveal_strlit("\n");
        }
        assert(text@ =~= text0 + header);
        text.append(r.author.as_str());
        text.append(" - \"");
        text.append(r.title.as_str());
        text.append("\"\n");
        proof {
            reveal_strlit(" - \"");
            reveal_strlit("\"\n");
            if k > 0 {
                assert(ss.take(k + 1)[k - 1] == ss[k - 1]);
            }
            assert(text@ =~= text0 + header + entry_line(ss[k as int]));
            assert(report_body(ss.take(k + 1)) == report_body(before) + header + entry_line(
                ss[k as int],
            ));
            assert(text@ =~= REPORT_TITLE@ + seq!['\n'] + report_body(ss.take(k + 1)));
        }
        k = k + 1;
    }
    assert(ss.take(n as int) == ss);
    Ok(text)
}

proof fn lemma_insert_len(s: Seq<ReleaseView>, x: ReleaseView)
    ensures
        insert_by_date(s, x).len() == s.len() + 1,
    decreases s.len(),
{
    if s.len() > 0 && !s.last().date.on_or_before(x.date) {
        lemma_insert_len(s.drop_last(), x);
    }
}

proof fn lemma_sort_len(s: Seq<ReleaseView>)
    ensures
        sort_by_date(s).len() == s.len(),
    decreases s.len(),
{
    if s.len() > 0 {
        lemma_sort_len(s.drop_last());
        lemma_insert_len(sort_by_date(s.drop_last()), s.last());
    }
}

/// Each release is dated on or before every release after it.
pub open spec fn dates_ascending(s: Seq<ReleaseView>) -> bool {
    forall|i: int, j: int|
        0 <= i < j < s.len() ==> (#[trigger] s[i]).date.on_or_before((#[trigger] s[j]).date)
}

proof fn lemma_insert_bounded(s: Seq<ReleaseView>, x: ReleaseView, b: ReleaseDate)
    requires
        forall|i: int| 0 <= i < s.len() ==> (#[trigger] s[i]).date.on_or_before(b),
        x.date.on_or_before(b),
    ensures
        forall|k: int|
            0 <= k < insert_by_date(s, x).len() ==> (#[trigger] insert_by_date(s, x)[k]).date.on_or_before(b),
    decreases s.len(),
{
    lemma_insert_len(s, x);
    if !(s.len() == 0 || s.last().date.on_or_before(x.date)) {
        lemma_insert_bounded(s.drop_last(), x, b);
        lemma_insert_len(s.drop_last(), x);
    }
}

proof fn lemma_insert_ascending(s: Seq<ReleaseView>, x: ReleaseView)
    requires
        dates_ascending(s),
    ensures
        dates_ascending(insert_by_date(s, x)),
        insert_by_date(s, x).to_multiset() == s.to_multiset().insert(x),
    decreases s.len(),
{
    broadcast use vstd::seq_lib::to_multiset_build;

    lemma_insert_len(s, x);
    if s.len() == 0 || s.last().date.on_or_before(x.date) {
        let r = s.push(x);
        assert forall|i: int, j: int| 0 <= i < j < r.len() implies (#[trigger] r[i]).date.on_or_before(
            (#[trigger] r[j]).date,
        ) by {
            if j == s.len() && i < s.len() - 1 {
                assert(s[i].date.on_or_before(s[s.len() - 1].date));
            }
        }
    } else {
        let t = s.drop_last();
        assert(s == t.push(s.last()));
        lemma_insert_ascending(t, x);
        assert forall|i: int| 0 <= i < t.len() implies (#[trigger] t[i]).date.on_or_before(
            s.last().date,
        ) by {
            assert(s[i].date.on_or_before(s[s.len() - 1].date));
        }
        lemma_insert_bounded(t, x, s.last().date);
        lemma_insert_len(t, x);
        let u = insert_by_date(t, x);
        assert forall|i: int, j: int| 0 <= i < j < u.len() + 1 implies (#[trigger] u.push(
            s.last(),
        )[i]).date.on_or_before((#[trigger] u.push(s.last())[j]).date) by {
            if j < u.len() {
                assert(u[i].date.on_or_before(u[j].date));
            } else {
                assert(u[i].date.on_or_before(s.last().date));
            }
        }
        assert(insert_by_date(s, x).to_multiset() =~= s.to_multiset().insert(x));
    }
}

/// Sorting by date puts the releases in ascending date order and keeps every release, each as
/// often as before.
pub proof fn lemma_sort_by_date_ascending(s: Seq<ReleaseView>)
    ensures
        dates_ascending(sort_by_date(s)),
        sort_by_date(s).to_multiset() == s.to_multiset(),
        sort_by_date(s).len() == s.len(),
    decreases s.len(),
{
    broadcast use vstd::seq_lib::to_multiset_build;

    lemma_sort_len(s);
    if s.len() > 0 {
        lemma_sort_by_date_ascending(s.drop_last());
        lemma_insert_ascending(sort_by_date(s.drop_last()), s.last());
        assert(s == s.drop_last().push(s.last()));
    }
}

/// In a list sorted by date, releases of one date share a single header: no release after the
/// first of them, up to the last of them, opens a group.
pub proof fn lemma_one_header_per_date(s: Seq<ReleaseView>, i: int, j: int)
    requires
        dates_ascending(s),
        0 <= i < j < s.len(),
        s[i].date == s[j].date,
    ensures
        forall|k: int| i < k <= j ==> !starts_group(s, k),
{
    assert forall|k: int| i < k <= j implies !starts_group(s, k) by {
        if k - 1 > i {
            assert(s[i].date.on_or_before(s[k - 1].date));
        }
        if k < j {
            assert(s[k].date.on_or_before(s[j].date));
        }
        assert(s[k - 1].date.on_or_before(s[k].date));
        assert(s[k - 1].date == s[k].date);
    }
}

proof fn lemma_digit_chars()
    ensures
        forall|d: int| 0 <= d < 10 ==> is_digit(#[trigger] digit_char(d)),
        forall|d: int, e: int|
            0 <= d < 10 && 0 <= e < 10 && #[trigger] digit_char(d) == #[trigger] digit_char(e) ==> d
                == e,
{
    reveal_strlit("0123456789");
}

proof fn lemma_decimal_digits(n: nat)
    ensures
        n < 10 ==> decimal(n).len() == 1,
        n >= 10 ==> decimal(n).len() >= 2,
        forall|i: int| 0 <= i < decimal(n).len() ==> is_digit(#[trigger] decimal(n)[i]),
    decreases n,
{
    lemma_digit_chars();
    if n >= 10 {
        lemma_decimal_digits(n / 10);
        let p = decimal(n / 10);
        assert forall|i: int| 0 <= i < decimal(n).len() implies is_digit(#[trigger] decimal(n)[i]) by {
            if i < p.len() {
                assert(decimal(n)[i] == p[i]);
            }
        }
    }
}

proof fn lemma_decimal_injective(a: nat, b: nat)
    requires
        decimal(a) == decimal(b),
    ensures
        a == b,
    decreases a,
{
    lemma_digit_chars();
    lemma_decimal_digits(a);
    lemma_decimal_digits(b);
    if a >= 10 && b >= 10 {
        assert(decimal(a / 10) == decimal(a).drop_last());
        assert(decimal(b / 10) == decimal(b).drop_last());
        lemma_decimal_injective(a / 10, b / 10);
        assert(digit_char((a % 10) as int) == decimal(a).last());
        assert(digit_char((b % 10) as int) == decimal(b).last());
    } else if a < 10 && b < 10 {
        assert(digit_char(a as int) == decimal(a)[0]);
        assert(digit_char(b as int) == decimal(b)[0]);
    }
}

/// Two texts that start with parts free of the character `c`, each followed by `c`, are equal
/// only if those parts are equal, and so are the rests.
proof fn lemma_split_at_char(p1: Seq<char>, x1: Seq<char>, p2: Seq<char>, x2: Seq<char>, c: char)
    requires
        p1 + x1 == p2 + x2,
        !p1.contains(c),
        !p2.contains(c),
        x1.len() > 0 && x1[0] == c,
        x2.len() > 0 && x2[0] == c,
    ensures
        p1 == p2,
        x1 == x2,
{
    let t = p1 + x1;
    if p1.len() < p2.len() {
        assert(t[p1.len() as int] == c);
        assert((p2 + x2)[p1.len() as int] == p2[p1.len() as int]);
    } else if p2.len() < p1.len() {
        assert((p2 + x2)[p2.len() as int] == c);
        assert(t[p2.len() as int] == p1[p2.len() as int]);
    }
    assert(p1 == t.take(p1.len() as int));
    assert(p2 == (p2 + x2).take(p2.len() as int));
    assert(x1 == t.skip(p1.len() as int));
    assert(x2 == (p2 + x2).skip(p2.len() as int));
}

proof fn lemma_month_names(m1: int, m2: int)
    requires
        1 <= m1 <= 12,
        1 <= m2 <= 12,
    ensures
        !month_name(m1).contains(' '),
        month_name(m1) == month_name(m2) ==> m1 == m2,
{
    reveal_strlit("Januar");
    reveal_strlit("Februar");
    reveal_strlit("März");
    reveal_strlit("April");
    reveal_strlit("Mai");
    reveal_strlit("Juni");
    reveal_strlit("Juli");
    reveal_strlit("August");
    reveal_strlit("September");
    reveal_strlit("Oktober");
    reveal_strlit("November");
    reveal_strlit("Dezember");
    if month_name(m1) == month_name(m2) {
        assert(month_name(m1).len() == month_name(m2).len());
        assert(month_name(m1)[0] == month_name(m2)[0]);
        if month_name(m1).len() == 4 {
            assert(month_name(m1)[2] == month_name(m2)[2]);
        }
    }
}

proof fn lemma_signed_decimal_injective(a: int, b: int)
    requires
        signed_decimal(a) == signed_decimal(b),
    ensures
        a == b,
{
    lemma_decimal_digits(if a < 0 { -a } else { a } as nat);
    lemma_decimal_digits(if b < 0 { -b } else { b } as nat);
    if a < 0 && b < 0 {
        assert(decimal((-a) as nat) == signed_decimal(a).drop_first());
        assert(decimal((-b) as nat) == signed_decimal(b).drop_first());
        lemma_decimal_injective((-a) as nat, (-b) as nat);
    } else if a >= 0 && b >= 0 {
        lemma_decimal_injective(a as nat, b as nat);
    } else if a < 0 {
        assert(signed_decimal(a)[0] == '-');
        assert(signed_decimal(b)[0] == decimal(b as nat)[0]);
    } else {
        assert(signed_decimal(b)[0] == '-');
        assert(signed_decimal(a)[0] == decimal(a as nat)[0]);
    }
}

/// Two existing dates are rendered alike only if they are the same date.
pub proof fn lemma_date_text_injective(a: ReleaseDate, b: ReleaseDate)
    requires
        a.valid(),
        b.valid(),
        date_text(a) == date_text(b),
    ensures
        a == b,
{
    let ma = month_name(a.month as int);
    let mb = month_name(b.month as int);
    let ya = signed_decimal(a.year as int);
    let yb = signed_decimal(b.year as int);
    let ra = seq!['.', ' '] + ma + seq![' '] + ya;
    let rb = seq!['.', ' '] + mb + seq![' '] + yb;
    lemma_decimal_digits(a.day as nat);
    lemma_decimal_digits(b.day as nat);
    assert(date_text(a) =~= decimal(a.day as nat) + ra);
    assert(date_text(b) =~= decimal(b.day as nat) + rb);
    assert(!decimal(a.day as nat).contains('.'));
    assert(!decimal(b.day as nat).contains('.'));
    lemma_split_at_char(decimal(a.day as nat), ra, decimal(b.day as nat), rb, '.');
    lemma_decimal_injective(a.day as nat, b.day as nat);
    assert(ra.skip(2) =~= ma + (seq![' '] + ya));
    assert(rb.skip(2) =~= mb + (seq![' '] + yb));
    lemma_month_names(a.month as int, b.month as int);
    lemma_month_names(b.month as int, a.month as int);
    lemma_split_at_char(ma, seq![' '] + ya, mb, seq![' '] + yb, ' ');
    assert(ya == (seq![' '] + ya).drop_first());
    assert(yb == (seq![' '] + yb).drop_first());
    lemma_signed_decimal_injective(a.year as int, b.year as int);
}

/// A release whose existing date differs from the existing date of the release before it opens
/// a group; with the law above, a list sorted by date gets one header for each date.
pub proof fn lemma_new_date_opens_group(s: Seq<ReleaseView>, k: int)
    requires
        0 < k < s.len(),
        s[k - 1].date.valid(),
        s[k].date.valid(),
        s[k - 1].date != s[k].date,
    ensures
        starts_group(s, k),
{
    if date_text(s[k - 1].date) == date_text(s[k].date) {
        lemma_date_text_injective(s[k - 1].date, s[k].date);
    }
}

/// The path of the report file: the file name inside the destination directory.
pub fn release_path(destination: &str, file_name: &str) -> (r: String)
    ensures
        r@ == destination@ + seq!['/'] + file_name@,
{
    let mut path = String::from_str(destination);
    path.append("/");
    path.append(file_name);
    proof {
        reveal_strlit("/");
    }
    path
}

} // verus!
